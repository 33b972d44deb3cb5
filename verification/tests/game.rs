use telephone_pictionary::game::Entry;
use telephone_pictionary::game::GameState;
use telephone_pictionary::game::InputKind;
use telephone_pictionary::review::phrase_lines;
use telephone_pictionary::review::review_items;
use telephone_pictionary::review::ReviewItem;
use telephone_pictionary::review::ReviewMode;

fn entries_equal(a: &[Entry], b: &[Entry]) -> bool {
    a.len() == b.len()
        && a.iter().zip(b.iter()).all(|(x, y)| match (x, y) {
            (Entry::Phrase(p), Entry::Phrase(q)) => p == q,
            (Entry::Drawing(v), Entry::Drawing(w)) => v == w,
            _ => false,
        })
}

#[test]
fn next_input_kind_empty_wants_phrase() {
    let state = GameState::new();
    assert_eq!(state.next_input_kind(), InputKind::InitialPhrase);
}

#[test]
fn next_input_kind_alternates() {
    let mut state = GameState::new();
    state.append_entry(Entry::Phrase(String::from("a horse")));
    assert_eq!(state.next_input_kind(), InputKind::Drawing);
    state.append_entry(Entry::Drawing(vec![1, 2, 3]));
    assert_eq!(state.next_input_kind(), InputKind::Phrase);
    state.append_entry(Entry::Phrase(String::from("a dog?")));
    assert_eq!(state.next_input_kind(), InputKind::Drawing);
}

#[test]
fn append_grows_by_one_and_preserves_prefix() {
    let mut state = GameState::new();
    state.append_entry(Entry::Phrase(String::from("one")));
    state.append_entry(Entry::Drawing(vec![9, 8]));
    let before: Vec<Entry> = state.entries.clone();
    state.append_entry(Entry::Phrase(String::from("three")));
    assert_eq!(state.entries.len(), before.len() + 1);
    assert!(entries_equal(&state.entries[..before.len()], &before));
    assert!(matches!(&state.entries[2], Entry::Phrase(p) if p == "three"));
}

#[test]
fn clear_empties_regardless_of_contents() {
    let mut state = GameState::new();
    state.append_entry(Entry::Phrase(String::from("x")));
    state.append_entry(Entry::Drawing(vec![0; 100]));
    state.clear();
    assert_eq!(state.entries.len(), 0);
    state.clear();
    assert_eq!(state.entries.len(), 0);
}

#[test]
fn replace_is_wholesale() {
    let mut state = GameState::new();
    state.append_entry(Entry::Phrase(String::from("old")));
    let fresh = vec![Entry::Drawing(vec![4]), Entry::Phrase(String::from("new"))];
    state.replace(fresh.clone());
    assert!(entries_equal(&state.entries, &fresh));
}

#[test]
fn has_entries_tracks_length() {
    let mut state = GameState::new();
    assert!(!state.has_entries());
    state.append_entry(Entry::Phrase(String::from("p")));
    assert!(state.has_entries());
    state.clear();
    assert!(!state.has_entries());
}

#[test]
fn review_toggle_flips_only_the_flag() {
    let mut mode = ReviewMode::new();
    assert!(!mode.on);
    mode.toggle();
    assert!(mode.on);
    mode.toggle();
    assert!(!mode.on);
}

#[test]
fn review_label_reflects_the_mode() {
    let mut mode = ReviewMode::new();
    assert_eq!(mode.label(), "End Game");
    mode.toggle();
    assert_eq!(mode.label(), "Go Back");
}

#[test]
fn phrase_lines_preserves_line_breaks() {
    assert_eq!(phrase_lines("one\ntwo"), vec!["one", "two"]);
    assert_eq!(phrase_lines("one\r\ntwo\n"), vec!["one", "two"]);
    assert_eq!(phrase_lines("no breaks"), vec!["no breaks"]);
    assert_eq!(phrase_lines(""), Vec::<String>::new());
    assert_eq!(phrase_lines("\n"), vec![""]);
    assert_eq!(phrase_lines("a\n\nb"), vec!["a", "", "b"]);
    assert_eq!(phrase_lines("keeps\rlone returns"), vec!["keeps\rlone returns"]);
}

#[test]
fn first_round_scenario() {
    let mut state = GameState::new();
    assert_eq!(state.next_input_kind(), InputKind::InitialPhrase);
    state.append_entry(Entry::Phrase(String::from("cat")));
    assert_eq!(state.next_input_kind(), InputKind::Drawing);
    state.append_entry(Entry::Drawing(vec![0x89, 0x50, 0x4e, 0x47]));
    assert_eq!(state.next_input_kind(), InputKind::Phrase);
    let mut mode = ReviewMode::new();
    mode.toggle();
    assert!(mode.on);
    let items = review_items(&state);
    assert_eq!(items.len(), 2);
    assert!(matches!(&items[0], ReviewItem::Text(t) if t == "cat"));
    assert!(matches!(&items[1], ReviewItem::ImageRef(i) if *i == 1));
    assert_eq!(state.entries.len(), 2);
}
