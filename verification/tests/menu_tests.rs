use menur::entries::Entry;
use menur::keywords::Keywords;
use menur::menu::{
    activation_index, backspace_deletion, entry_visible, is_letter, list_view_key,
    matches_for_search, search_key, select_position, window_key, Action, MenuKey, Reaction,
    UpState,
};

#[test]
fn backspace_deletes_last_character_or_everything() {
    assert_eq!(backspace_deletion(5, false), Action::DeleteText { start: 4, end: 5 });
    assert_eq!(backspace_deletion(5, true), Action::DeleteText { start: 0, end: 5 });
    assert_eq!(backspace_deletion(0, false), Action::DeleteText { start: -1, end: 0 });
}

#[test]
fn list_view_keys() {
    let r = list_view_key(MenuKey::Escape, false, 0, UpState::NoSelection);
    assert_eq!(r.action, Action::Quit);
    assert_eq!(
        list_view_key(MenuKey::Up, false, 0, UpState::FirstSelected),
        Reaction { action: Action::FocusSearch, stop: true }
    );
    assert_eq!(
        list_view_key(MenuKey::Up, false, 0, UpState::OtherSelected),
        Reaction { action: Action::Nothing, stop: false }
    );
    assert_eq!(
        list_view_key(MenuKey::Up, false, 0, UpState::NoFirstItem),
        Reaction { action: Action::Nothing, stop: true }
    );
    assert_eq!(
        list_view_key(MenuKey::BackSpace, true, 3, UpState::NoSelection),
        Reaction { action: Action::DeleteText { start: 0, end: 3 }, stop: true }
    );
    assert_eq!(
        list_view_key(MenuKey::Letter, false, 3, UpState::NoSelection),
        Reaction { action: Action::TypeLetter, stop: false }
    );
    assert_eq!(
        list_view_key(MenuKey::Down, false, 3, UpState::NoSelection),
        Reaction { action: Action::Nothing, stop: false }
    );
}

#[test]
fn search_keys() {
    assert_eq!(search_key(MenuKey::Escape).action, Action::Quit);
    assert_eq!(search_key(MenuKey::Enter), Reaction { action: Action::ActivateFirst, stop: false });
    assert_eq!(search_key(MenuKey::Down), Reaction { action: Action::SelectSecond, stop: true });
    assert_eq!(search_key(MenuKey::Letter), Reaction { action: Action::Nothing, stop: false });
}

#[test]
fn window_keys() {
    assert_eq!(
        window_key(MenuKey::BackSpace, false, 2),
        Reaction { action: Action::DeleteText { start: 1, end: 2 }, stop: true }
    );
    assert_eq!(window_key(MenuKey::Up, false, 2), Reaction { action: Action::Nothing, stop: false });
}

#[test]
fn letters_are_ascii_letters() {
    assert!(is_letter(Some('a')));
    assert!(is_letter(Some('Z')));
    assert!(!is_letter(Some('1')));
    assert!(!is_letter(Some('\u{e9}')));
    assert!(!is_letter(None));
}

#[test]
fn selected_row() {
    assert_eq!(select_position(false, false, true), None);
    assert_eq!(select_position(true, true, true), Some(1));
    assert_eq!(select_position(true, false, true), Some(0));
    assert_eq!(select_position(true, true, false), Some(0));
}

#[test]
fn activation_needs_an_existing_entry() {
    assert_eq!(activation_index(3, 0), Some(0));
    assert_eq!(activation_index(3, 2), Some(2));
    assert_eq!(activation_index(3, 3), None);
    assert_eq!(activation_index(3, -1), None);
}

#[test]
fn filter_shows_found_entries() {
    let matches = vec!["firefox".to_string()];
    assert!(entry_visible("", &matches, "Files"));
    assert!(entry_visible("fire", &matches, "Firefox"));
    assert!(!entry_visible("fire", &matches, "Files"));
}

#[test]
fn search_gives_matches_unless_empty() {
    let mut e = Entry::default();
    e.name = "Firefox".to_string();
    let k = Keywords::_from(&[e]);
    assert_eq!(matches_for_search(&k, ""), None);
    assert_eq!(matches_for_search(&k, "fire"), Some(vec!["firefox".to_string()]));
    assert_eq!(matches_for_search(&k, "x"), Some(vec![]));
}
