//! Review mode: a single boolean flag that switches the view from "active
//! entry" to a read-only rendering of the whole sequence, phrases as text
//! blocks and drawings as image references addressed by index.

use vstd::prelude::*;
use vstd::string::StrSliceExecFns;
use crate::game::Entry;
use crate::game::EntryModel;
use crate::game::GameState;

verus! {

/// The review-mode flag, independent of the game state.
pub struct ReviewMode {
    pub on: bool,
}

impl ReviewMode {
    /// Review mode starts off: the active-entry view shows first.
    pub fn new() -> (r: ReviewMode)
        ensures
            !r.on,
    {
        ReviewMode { on: false }
    }

    /// Binary toggle, no intermediate states; it touches nothing but the
    /// flag itself.
    pub fn toggle(&mut self)
        ensures
            final(self).on == !old(self).on,
    {
        self.on = !self.on;
    }

    /// The toggle button's label, naming the transition a press performs:
    /// entering review mode ends the game, leaving it goes back.
    pub fn label(&self) -> (r: String)
        ensures
            r@ == spec_label(self.on),
    {
        proof {
            reveal_strlit("Go Back");
            reveal_strlit("End Game");
            assert("Go Back"@ =~= spec_label(true));
            assert("End Game"@ =~= spec_label(false));
        }
        if self.on {
            "Go Back".to_owned()
        } else {
            "End Game".to_owned()
        }
    }
}

/// The review-toggle label shown for the flag value `on`.
pub open spec fn spec_label(on: bool) -> Seq<char> {
    if on {
        seq!['G', 'o', ' ', 'B', 'a', 'c', 'k']
    } else {
        seq!['E', 'n', 'd', ' ', 'G', 'a', 'm', 'e']
    }
}

/// One item of the review rendering: a phrase as a plain text block, a
/// drawing as a fetchable reference to its index in the sequence.
#[derive(Clone, Debug)]
pub enum ReviewItem {
    Text(String),
    ImageRef(usize),
}

/// Mathematical model of a [`ReviewItem`].
pub enum ReviewItemModel {
    Text(Seq<char>),
    ImageRef(int),
}

impl View for ReviewItem {
    type V = ReviewItemModel;

    open spec fn view(&self) -> ReviewItemModel {
        match self {
            ReviewItem::Text(s) => ReviewItemModel::Text(s@),
            ReviewItem::ImageRef(i) => ReviewItemModel::ImageRef(*i as int),
        }
    }
}

/// What review mode shows for the entry `e` standing at position `i`.
pub open spec fn spec_review_item(e: EntryModel, i: int) -> ReviewItemModel {
    match e {
        EntryModel::Phrase(cs) => ReviewItemModel::Text(cs),
        EntryModel::Drawing(_) => ReviewItemModel::ImageRef(i),
    }
}

/// The full review rendering: one item per entry, in the sequence's order,
/// phrases as their text and drawings as references by index. A read-only
/// pass: the state is not touched.
pub fn review_items(state: &GameState) -> (r: Vec<ReviewItem>)
    ensures
        r@.len() == state.model().len(),
        forall|i: int| 0 <= i < r@.len() ==> r@[i]@ == spec_review_item(state.model()[i], i),
{
    let mut out: Vec<ReviewItem> = Vec::new();
    let n = state.entries.len();
    for idx in 0..n
        invariant
            n == state.entries@.len(),
            out@.len() == idx,
            forall|i: int| 0 <= i < idx ==> out@[i]@ == spec_review_item(state.model()[i], i),
    {
        match &state.entries[idx] {
            Entry::Phrase(s) => out.push(ReviewItem::Text(s.clone())),
            Entry::Drawing(_) => out.push(ReviewItem::ImageRef(idx)),
        }
    }
    out
}

/// `l` with one carriage return dropped from its end, as a line terminated
/// by a carriage return and line feed reads without either.
pub open spec fn strip_cr(l: Seq<char>) -> Seq<char> {
    if l.len() > 0 && l.last() == '\r' {
        l.drop_last()
    } else {
        l
    }
}

/// The lines of a phrase, split at line feeds, with a carriage return
/// before a line feed dropped and the final line terminator optional: the
/// empty text has no lines, and a trailing terminator adds none.
pub open spec fn spec_lines(s: Seq<char>) -> Seq<Seq<char>>
    decreases s.len(),
{
    if s.len() == 0 {
        Seq::empty()
    } else {
        match s.index_of_first('\n') {
            None => seq![s],
            Some(i) => {
                if 0 <= i < s.len() {
                    seq![strip_cr(s.take(i))] + spec_lines(s.skip(i + 1))
                } else {
                    Seq::empty()
                }
            },
        }
    }
}

/// The models of a sequence of lines, in order.
pub open spec fn line_models(v: Seq<String>) -> Seq<Seq<char>> {
    v.map(|i: int, l: String| l@)
}

/// Splits a phrase into the lines review mode shows as one text block,
/// line breaks preserved as line boundaries.
pub fn phrase_lines(s: &str) -> (r: Vec<String>)
    ensures
        line_models(r@) == spec_lines(s@),
{
    let n = s.unicode_len();
    let mut out: Vec<String> = Vec::new();
    let mut pos: usize = 0;
    proof {
        assert(s@.skip(0) =~= s@);
        assert(line_models(out@) =~= Seq::<Seq<char>>::empty());
    }
    while pos < n
        invariant
            pos <= n == s@.len(),
            line_models(out@) + spec_lines(s@.skip(pos as int)) == spec_lines(s@),
        decreases n - pos,
    {
        let ghost tail = s@.skip(pos as int);
        let ghost prev = out@;
        let mut end = pos;
        while end < n && s.get_char(end) != '\n'
            invariant
                pos <= end <= n == s@.len(),
                forall|j: int| pos <= j < end ==> s@[j] != '\n',
            decreases n - end,
        {
            end = end + 1;
        }
        proof {
            tail.index_of_first_ensures('\n');
            assert(forall|j: int| 0 <= j < end - pos ==> tail[j] == s@[j + pos] && tail[j] != '\n');
        }
        if end == n {
            proof {
                assert(tail.index_of_first('\n') is None);
                assert(s@.subrange(pos as int, n as int) =~= tail);
            }
            out.push(s.substring_char(pos, n).to_owned());
            proof {
                assert(line_models(out@) =~= line_models(prev).push(tail));
                assert(line_models(prev) + spec_lines(tail) =~= line_models(out@));
            }
            pos = n;
        } else {
            proof {
                assert(tail[end - pos] == s@[end as int]);
                assert(tail.index_of_first('\n') == Some(end - pos as int));
                assert(tail.skip(end - pos + 1) =~= s@.skip(end + 1));
            }
            let lend = if end > pos && s.get_char(end - 1) == '\r' {
                end - 1
            } else {
                end
            };
            proof {
                assert(tail.take(end - pos) =~= s@.subrange(pos as int, end as int));
                assert(strip_cr(tail.take(end - pos)) =~= s@.subrange(pos as int, lend as int));
            }
            out.push(s.substring_char(pos, lend).to_owned());
            proof {
                assert(line_models(out@) =~= line_models(prev).push(
                    strip_cr(tail.take(end - pos)),
                ));
                assert(line_models(prev) + (seq![strip_cr(tail.take(end - pos))] + spec_lines(
                    s@.skip(end + 1),
                )) =~= line_models(out@) + spec_lines(s@.skip(end + 1)));
            }
            pos = end + 1;
        }
    }
    proof {
        assert(s@.skip(pos as int).len() == 0);
        assert(line_models(out@) + Seq::<Seq<char>>::empty() =~= line_models(out@));
    }
    out
}

} // verus!
