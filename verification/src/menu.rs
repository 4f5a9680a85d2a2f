//! The decisions of the menu's window: what a key press does in the list of
//! applications, in the search entry and in the window, which row gets
//! selected, which entries the filter shows, and which entry a row starts.
//!
//! The window itself is drawn and driven elsewhere; it hands these
//! functions plain values and performs the action that they return.
use crate::entries::Entry;
use crate::keywords::{search_names, Keywords};
use crate::unicode::{chars_of, lowercase, lowercase_of};
use vstd::prelude::*;

verus! {

/// The keys that the menu tells apart.
#[derive(Debug, Clone, Copy, PartialEq, Eq, Structural)]
pub enum MenuKey {
    Escape,
    Up,
    Down,
    BackSpace,
    /// `Return`, `KP_Enter` or `ISO_Enter`.
    Enter,
    /// A key whose character is an ASCII letter.
    Letter,
    Other,
}

/// Where the selection of the list stands, for the `Up` key.
#[derive(Debug, Clone, Copy, PartialEq, Eq, Structural)]
pub enum UpState {
    /// The list has no first item.
    NoFirstItem,
    /// Nothing is selected.
    NoSelection,
    /// The first item is selected.
    FirstSelected,
    /// Another item is selected.
    OtherSelected,
}

/// What the window does after a key press.
#[derive(Debug, Clone, Copy, PartialEq, Eq, Structural)]
pub enum Action {
    /// Nothing.
    Nothing,
    /// Quit the application and end the process.
    Quit,
    /// Give the focus to the search entry.
    FocusSearch,
    /// Give the focus to the search entry and delete the characters from
    /// `start` to `end` of its text.
    DeleteText { start: i32, end: i32 },
    /// Type the key's name into the search entry, focus it, select the first
    /// row, and put the cursor at the end of the text.
    TypeLetter,
    /// Activate the first row of the list.
    ActivateFirst,
    /// Select the second row of the list (the first if there is no second).
    SelectSecond,
}

/// An action, and whether the key press stops there (`true`) or goes on to
/// the other handlers (`false`).
#[derive(Debug, Clone, Copy, PartialEq, Eq, Structural)]
pub struct Reaction {
    pub action: Action,
    pub stop: bool,
}

/// The text that `BackSpace` deletes from a search text of `text_len`
/// bytes: all of it with `Control`, else its last character.
pub open spec fn deletion(text_len: usize, ctrl: bool) -> Action {
    if ctrl {
        Action::DeleteText { start: 0, end: text_len as i32 }
    } else {
        Action::DeleteText { start: ((text_len as i32) - 1) as i32, end: text_len as i32 }
    }
}

/// The deletion that `BackSpace` makes; the position is the byte length of
/// the search text taken as an `i32`, as the search entry counts it.
pub fn backspace_deletion(text_len: usize, ctrl: bool) -> (r: Action)
    requires
        ctrl || (text_len as i32) > i32::MIN,
    ensures
        r == deletion(text_len, ctrl),
{
    let pos = text_len as i32;
    if ctrl {
        Action::DeleteText { start: 0, end: pos }
    } else {
        Action::DeleteText { start: pos - 1, end: pos }
    }
}

/// What a key press in the list of applications does.
pub open spec fn list_view_reaction(key: MenuKey, ctrl: bool, text_len: usize, up: UpState) -> Reaction {
    match key {
        MenuKey::Escape => Reaction { action: Action::Quit, stop: true },
        MenuKey::Up => match up {
            UpState::NoFirstItem => Reaction { action: Action::Nothing, stop: true },
            UpState::NoSelection => Reaction { action: Action::Nothing, stop: true },
            UpState::FirstSelected => Reaction { action: Action::FocusSearch, stop: true },
            UpState::OtherSelected => Reaction { action: Action::Nothing, stop: false },
        },
        MenuKey::BackSpace => Reaction { action: deletion(text_len, ctrl), stop: true },
        MenuKey::Letter => Reaction { action: Action::TypeLetter, stop: false },
        _ => Reaction { action: Action::Nothing, stop: false },
    }
}

/// The key handler of the list of applications: `Escape` quits; `Up` on
/// the first row goes back to the search entry; `BackSpace` edits the
/// search; a letter is typed into the search.
pub fn list_view_key(key: MenuKey, ctrl: bool, text_len: usize, up: UpState) -> (r: Reaction)
    requires
        key != MenuKey::BackSpace || ctrl || (text_len as i32) > i32::MIN,
    ensures
        r == list_view_reaction(key, ctrl, text_len, up),
{
    match key {
        MenuKey::Escape => Reaction { action: Action::Quit, stop: true },
        MenuKey::Up => match up {
            UpState::NoFirstItem => Reaction { action: Action::Nothing, stop: true },
            UpState::NoSelection => Reaction { action: Action::Nothing, stop: true },
            UpState::FirstSelected => Reaction { action: Action::FocusSearch, stop: true },
            UpState::OtherSelected => Reaction { action: Action::Nothing, stop: false },
        },
        MenuKey::BackSpace => Reaction { action: backspace_deletion(text_len, ctrl), stop: true },
        MenuKey::Letter => Reaction { action: Action::TypeLetter, stop: false },
        _ => Reaction { action: Action::Nothing, stop: false },
    }
}

/// The list leaves every other key to the handlers after it: a key other
/// than `Escape`, `Up`, `BackSpace` and a letter (`Enter`, `Down`, and the
/// rest) does nothing there and goes on, whatever the search text and the
/// selection, so `Enter` reaches the list's own start of the selected row.
pub proof fn lemma_list_passes_other_keys(key: MenuKey, ctrl: bool, text_len: usize, up: UpState)
    requires
        key != MenuKey::Escape,
        key != MenuKey::Up,
        key != MenuKey::BackSpace,
        key != MenuKey::Letter,
    ensures
        list_view_reaction(key, ctrl, text_len, up) == (Reaction { action: Action::Nothing, stop: false }),
{
}

/// What a key press in the search entry does.
pub open spec fn search_reaction(key: MenuKey) -> Reaction {
    match key {
        MenuKey::Escape => Reaction { action: Action::Quit, stop: true },
        MenuKey::Enter => Reaction { action: Action::ActivateFirst, stop: false },
        MenuKey::Down => Reaction { action: Action::SelectSecond, stop: true },
        _ => Reaction { action: Action::Nothing, stop: false },
    }
}

/// The key handler of the search entry: `Escape` quits; `Enter` starts the
/// first application of the list; `Down` moves into the list.
pub fn search_key(key: MenuKey) -> (r: Reaction)
    ensures
        r == search_reaction(key),
{
    match key {
        MenuKey::Escape => Reaction { action: Action::Quit, stop: true },
        MenuKey::Enter => Reaction { action: Action::ActivateFirst, stop: false },
        MenuKey::Down => Reaction { action: Action::SelectSecond, stop: true },
        _ => Reaction { action: Action::Nothing, stop: false },
    }
}

/// What a key press in the window does.
pub open spec fn window_reaction(key: MenuKey, ctrl: bool, text_len: usize) -> Reaction {
    if key == MenuKey::BackSpace {
        Reaction { action: deletion(text_len, ctrl), stop: true }
    } else {
        Reaction { action: Action::Nothing, stop: false }
    }
}

/// The window leaves every key but `BackSpace` to the other handlers: it
/// does nothing with it and lets it go on.
pub proof fn lemma_window_passes_other_keys(key: MenuKey, ctrl: bool, text_len: usize)
    requires
        key != MenuKey::BackSpace,
    ensures
        window_reaction(key, ctrl, text_len) == (Reaction { action: Action::Nothing, stop: false }),
{
}

/// The key handler of the window: `BackSpace` edits the search.
pub fn window_key(key: MenuKey, ctrl: bool, text_len: usize) -> (r: Reaction)
    requires
        key != MenuKey::BackSpace || ctrl || (text_len as i32) > i32::MIN,
    ensures
        r == window_reaction(key, ctrl, text_len),
{
    if key == MenuKey::BackSpace {
        Reaction { action: backspace_deletion(text_len, ctrl), stop: true }
    } else {
        Reaction { action: Action::Nothing, stop: false }
    }
}

/// Whether a key's character makes it a letter key: `A`..=`Z` or `a`..=`z`.
pub fn is_letter(c: Option<char>) -> (r: bool)
    ensures
        r == match c {
            Some(c) => ('A' <= c && c <= 'Z') || ('a' <= c && c <= 'z'),
            None => false,
        },
{
    match c {
        Some(c) => ('A' <= c && c <= 'Z') || ('a' <= c && c <= 'z'),
        None => false,
    }
}

/// The row to select: none without a first row; the second when it is
/// asked for and there is one; else the first.
pub fn select_position(has_first: bool, has_second: bool, second: bool) -> (r: Option<u32>)
    ensures
        r == if !has_first {
            None
        } else if second && has_second {
            Some(1u32)
        } else {
            Some(0u32)
        },
{
    if !has_first {
        None
    } else if second && has_second {
        Some(1)
    } else {
        Some(0)
    }
}

/// The entry that the row holding the number `id` starts: the entry at
/// that position, when there is one.
pub fn activation_index(count: usize, id: i32) -> (r: Option<usize>)
    ensures
        r == if 0 <= id && id < count {
            Some(id as usize)
        } else {
            None::<usize>
        },
{
    if id >= 0 && (id as u64) < (count as u64) {
        Some(id as usize)
    } else {
        None
    }
}

/// Whether the filter shows the entry named `name`: always while the search
/// is empty, else when its lowercase name is among the names found.
pub open spec fn shown_by_filter(search: Seq<char>, matches: Seq<Seq<char>>, name: Seq<char>) -> bool {
    search.len() == 0 || matches.contains(lowercase_of(name))
}

/// The filter of the list: whether the entry named `name` is shown, given
/// the search text and the names that the search found.
pub fn entry_visible(search_text: &str, matches: &Vec<String>, name: &str) -> (r: bool)
    ensures
        r == shown_by_filter(search_text@, matches@.map_values(|s: String| s@), name@),
{
    if search_text.is_empty() {
        return true;
    }
    let low = lowercase(name);
    let ghost mv = matches@.map_values(|s: String| s@);
    let mut i: usize = 0;
    while i < matches.len()
        invariant
            i <= matches.len(),
            mv == matches@.map_values(|s: String| s@),
            low@ == lowercase_of(name@),
            forall|j: int| 0 <= j < i ==> mv[j] != low@,
        decreases matches.len() - i,
    {
        if matches[i] == low {
            assert(mv[i as int] == low@);
            return true;
        }
        i = i + 1;
    }
    proof {
        if mv.contains(low@) {
            let j = choose|j: int| 0 <= j < mv.len() && mv[j] == low@;
            assert(mv[j] != low@);
        }
    }
    false
}

/// The names that the search text `text` finds, or `None` when the text is
/// empty (every entry is then shown and nothing is searched).
pub fn matches_for_search(keywords: &Keywords, text: &str) -> (r: Option<Vec<String>>)
    ensures
        match r {
            None => text@.len() == 0,
            Some(v) => text@.len() > 0 && v@.map_values(|s: String| s@) == search_names(
                keywords@,
                text@,
            ),
        },
{
    if text.is_empty() {
        return None;
    }
    let found = keywords.match_keywords(text);
    let mut out: Vec<String> = Vec::new();
    let mut i: usize = 0;
    while i < found.len()
        invariant
            i <= found.len(),
            out@.map_values(|s: String| s@) =~= found@.map_values(|s: &str| s@).take(i as int),
        decreases found.len() - i,
    {
        let ghost prev = out@;
        out.push(String::from_str(found[i]));
        assert(out@.map_values(|s: String| s@) =~= prev.map_values(|s: String| s@).push(found@[i as int]@));
        assert(found@.map_values(|s: &str| s@).take(i + 1) =~= found@.map_values(|s: &str| s@).take(i as int).push(found@[i as int]@));
        i = i + 1;
    }
    assert(found@.map_values(|s: &str| s@).take(found.len() as int) =~= found@.map_values(|s: &str| s@));
    Some(out)
}

} // verus!
