//! The game state: an ordered sequence of entries, each a text phrase or a
//! drawing's raw image bytes, together with the state machine that decides
//! which input the player must supply next.

use vstd::prelude::*;

verus! {

/// One item in the game sequence: a text phrase or a drawing's raw,
/// directly renderable image bytes.
#[derive(Clone, Debug)]
pub enum Entry {
    Phrase(String),
    Drawing(Vec<u8>),
}

/// Mathematical model of an [`Entry`]: the phrase's characters or the
/// drawing's bytes.
pub enum EntryModel {
    Phrase(Seq<char>),
    Drawing(Seq<u8>),
}

impl View for Entry {
    type V = EntryModel;

    open spec fn view(&self) -> EntryModel {
        match self {
            Entry::Phrase(s) => EntryModel::Phrase(s@),
            Entry::Drawing(b) => EntryModel::Drawing(b@),
        }
    }
}

/// The models of a sequence of entries, in order.
pub open spec fn models(s: Seq<Entry>) -> Seq<EntryModel> {
    s.map(|i: int, e: Entry| e@)
}

/// Persisted-record variant pairing an author identifier with an entry.
/// Declared in the data model but never populated or read by the
/// interactive flow.
#[derive(Clone, Debug)]
pub struct PictionaryEntry {
    pub author: String,
    pub entry: Entry,
}

/// Failure taxonomy for the game's operations.
#[derive(Clone, Copy, Debug, PartialEq, Eq, Structural)]
pub enum GameError {
    /// A file could not be created, written or read.
    IoFailure,
    /// A load file was malformed, truncated or otherwise undecodable.
    DecodeFailure,
    /// A drawing lookup was asked for an index outside the sequence.
    IndexOutOfRange,
    /// A file dialog was dismissed without a choice; a no-op, not a fault.
    EmptySelection,
}

/// Which input the player must supply next.
#[derive(Clone, Copy, Debug, PartialEq, Eq, Structural)]
pub enum InputKind {
    /// The sequence is empty: the first phrase is wanted.
    InitialPhrase,
    /// The last entry is a phrase: a drawing depicting it is wanted.
    Drawing,
    /// The last entry is a drawing: a phrase captioning it is wanted.
    Phrase,
}

/// The input the sequence `s` requires next: a first phrase when empty, a
/// drawing after a phrase, a caption after a drawing.
pub open spec fn spec_next_input_kind(s: Seq<EntryModel>) -> InputKind {
    if s.len() == 0 {
        InputKind::InitialPhrase
    } else {
        match s.last() {
            EntryModel::Phrase(_) => InputKind::Drawing,
            EntryModel::Drawing(_) => InputKind::Phrase,
        }
    }
}

/// One game's history: the ordered, append-only (except clear and replace)
/// sequence of entries. Alternation of kinds is not an invariant of the
/// state itself; it is kept only by which input the view offers next.
pub struct GameState {
    pub entries: Vec<Entry>,
}

impl GameState {
    /// The state's model: the sequence of its entries' models.
    pub open spec fn model(&self) -> Seq<EntryModel> {
        models(self.entries@)
    }

    /// A fresh game with no entries.
    pub fn new() -> (r: GameState)
        ensures
            r.entries@.len() == 0,
    {
        GameState { entries: Vec::new() }
    }

    /// Which input the player must supply next, derived from the last entry.
    pub fn next_input_kind(&self) -> (r: InputKind)
        ensures
            r == spec_next_input_kind(self.model()),
    {
        let n = self.entries.len();
        if n == 0 {
            InputKind::InitialPhrase
        } else {
            match &self.entries[n - 1] {
                Entry::Phrase(_) => InputKind::Drawing,
                Entry::Drawing(_) => InputKind::Phrase,
            }
        }
    }

    /// Pushes `entry` to the end of the sequence. The operation itself does
    /// not check that the entry's kind matches what the state machine asked
    /// for: the view only ever offers the matching widget.
    pub fn append_entry(&mut self, entry: Entry)
        ensures
            final(self).entries@ == old(self).entries@.push(entry),
            final(self).entries@.len() == old(self).entries@.len() + 1,
            forall|i: int|
                0 <= i < old(self).entries@.len() ==> final(self).entries@[i] == old(
                    self,
                ).entries@[i],
            final(self).entries@.last() == entry,
    {
        self.entries.push(entry);
    }

    /// Empties the sequence in place; a no-op when already empty.
    pub fn clear(&mut self)
        ensures
            final(self).entries@.len() == 0,
            final(self).model() == Seq::<EntryModel>::empty(),
    {
        self.entries.clear();
        proof {
            assert(final(self).model() =~= Seq::<EntryModel>::empty());
        }
    }

    /// Wholesale substitution of the sequence, as a load performs.
    pub fn replace(&mut self, new_entries: Vec<Entry>)
        ensures
            final(self).entries@ == new_entries@,
    {
        self.entries = new_entries;
    }

    /// Whether the sequence holds any entry; the "New" and "Save" actions
    /// are offered exactly then.
    pub fn has_entries(&self) -> (r: bool)
        ensures
            r == (self.entries@.len() > 0),
    {
        self.entries.len() > 0
    }
}

} // verus!
