use menur::entries::Entry;
use menur::keywords::Keywords;

fn entry(name: &str, kw: &[&str]) -> Entry {
    let mut e = Entry::default();
    e.name = name.to_string();
    e.key_words = kw.iter().map(|s| s.to_string()).collect();
    e
}

#[test]
fn empty_index_finds_nothing() {
    let k = Keywords::new();
    assert!(k.match_keywords("firefox").is_empty());
}

#[test]
fn names_and_keywords_find_the_entry() {
    let k = Keywords::_from(&[entry("Firefox", &["Web", "Browser"]), entry("Files", &["Folder"])]);
    assert_eq!(k.match_keywords("firefox"), vec!["firefox"]);
    assert_eq!(k.match_keywords("BROWSER"), vec!["firefox"]);
    assert_eq!(k.match_keywords("folder"), vec!["files"]);
}

#[test]
fn prefixes_find_every_key_in_order() {
    let k = Keywords::_from(&[entry("Firefox", &["Web"]), entry("Files", &["Folder"])]);
    assert_eq!(k.match_keywords("f"), vec!["firefox", "files", "files"]);
    assert_eq!(k.match_keywords("fi"), vec!["firefox", "files"]);
    assert!(k.match_keywords("zz").is_empty());
}

#[test]
fn search_words_are_split_at_spaces() {
    let k = Keywords::_from(&[entry("Firefox", &["Web"]), entry("Files", &["Folder"])]);
    assert_eq!(k.match_keywords("  web  folder "), vec!["firefox", "files"]);
    assert!(k.match_keywords("   ").is_empty());
}

#[test]
fn shared_keys_list_every_entry() {
    let mut k = Keywords::new();
    k.gen_keywords_for_entry(&entry("Editor", &["text"]));
    k.gen_keywords_for_entry(&entry("Notes", &["Text", "notes"]));
    assert_eq!(k.match_keywords("text"), vec!["editor", "notes"]);
    assert_eq!(k.match_keywords("notes"), vec!["notes", "notes"]);
}

#[test]
fn entry_found_by_each_alias() {
    let es = [entry("Terminal", &["shell", "Prompt", "CLI"]), entry("Calc", &["math"])];
    let k = Keywords::_from(&es);
    for e in es.iter() {
        let low = e.name.to_lowercase();
        assert!(k.match_keywords(&e.name).contains(&low.as_str()));
        for kw in e.key_words.iter() {
            assert!(k.match_keywords(kw).contains(&low.as_str()));
        }
    }
}

#[test]
fn adding_an_entry_keeps_earlier_results_as_prefix() {
    let mut k = Keywords::_from(&[entry("Editor", &["text", "code"])]);
    let before_text = k.match_keywords("text").iter().map(|s| s.to_string()).collect::<Vec<_>>();
    k.gen_keywords_for_entry(&entry("Notes", &["Text"]));
    let after_text = k.match_keywords("text");
    assert_eq!(&after_text[..before_text.len()], &before_text.iter().map(|s| s.as_str()).collect::<Vec<_>>()[..]);
    assert_eq!(after_text[before_text.len()..].to_vec(), vec!["notes"]);
    assert_eq!(k.match_keywords("code"), vec!["editor"]);
}

#[test]
fn order_of_entries_does_not_change_what_is_found() {
    let es = [entry("Editor", &["text"]), entry("Notes", &["text", "memo"]), entry("Calc", &["math"])];
    let rev = [es[2].clone(), es[0].clone(), es[1].clone()];
    let k1 = Keywords::_from(&es);
    let k2 = Keywords::_from(&rev);
    for word in ["text", "memo", "math", "editor", "notes", "calc", "zz"] {
        let mut a = k1.match_keywords(word);
        let mut b = k2.match_keywords(word);
        a.sort();
        b.sort();
        assert_eq!(a, b);
    }
}
