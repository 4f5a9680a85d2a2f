use menur::cache::{cache_dir_file, create_cache_data, parse_cache_data, parse_entry_cache_line};
use menur::entries::Entry;

fn entry(name: &str, img: &str, path: &str, kw: &[&str], only: Option<&str>, ty: &str) -> Entry {
    Entry {
        name: name.to_string(),
        img_path: img.to_string(),
        entry_path: path.to_string(),
        key_words: kw.iter().map(|s| s.to_string()).collect(),
        only_show_in: only.map(|s| s.to_string()),
        entry_type: ty.to_string(),
    }
}

#[test]
fn cache_paths_are_below_home() {
    let (dir, file) = cache_dir_file("/home/me");
    assert_eq!(dir, "/home/me/.cache/menur/");
    assert_eq!(file, "/home/me/.cache/menur/entries.cache");
}

#[test]
fn cache_line_format() {
    let e = entry("Firefox", "firefox", "/a/firefox.desktop", &["web", "browser"], None, "Application");
    assert_eq!(
        create_cache_data(vec![e]),
        "name: Firefox; img_path: firefox; entry_path: /a/firefox.desktop; key_words: [\"web\", \"browser\"]; only_show_in: None; type: Application\n"
    );
    let f = entry("T", "", "", &[], Some("KDE"), "");
    assert_eq!(
        create_cache_data(vec![f]),
        "name: T; img_path: ; entry_path: ; key_words: []; only_show_in: Some(\"KDE\"); type: \n"
    );
    assert_eq!(create_cache_data(vec![]), "");
}

#[test]
fn cache_escapes_keywords_as_debug_does() {
    let e = entry("a", "", "", &["say \"hi\""], None, "");
    assert_eq!(
        create_cache_data(vec![e]),
        "name: a; img_path: ; entry_path: ; key_words: [\"say \\\"hi\\\"\"]; only_show_in: None; type: \n"
    );
}

#[test]
fn cache_line_is_read_back() {
    let line = "name: Firefox; img_path: firefox; entry_path: /a/f.desktop; key_words: [\"web\", \"browser\"]; only_show_in: Some(\"KDE\"); type: Application";
    let e = parse_entry_cache_line(line);
    assert_eq!(e, entry("Firefox", "firefox", "/a/f.desktop", &["web", "browser"], None, "Application"));
}

#[test]
fn cache_line_fields_are_trimmed_and_unknown_ones_ignored() {
    let e = parse_entry_cache_line("  name:   Spaced  ; colour: red; type");
    assert_eq!(e.name, "Spaced");
    assert_eq!(e.entry_type, "");
    assert!(e.key_words.is_empty());
}

#[test]
fn empty_keyword_list_reads_back_as_one_empty_keyword() {
    let e = parse_entry_cache_line("name: x; key_words: []");
    assert_eq!(e.key_words, vec!["".to_string()]);
}

#[test]
fn cache_round_trip() {
    let es = vec![
        entry("Firefox", "firefox", "/a/f.desktop", &["web", "browser"], Some("GNOME"), "Application"),
        entry("Files", "org.gnome.Nautilus", "/a/n.desktop", &["folder", "manager", "caf\u{e9}"], None, "Application"),
    ];
    let text = create_cache_data(es.clone());
    let back = parse_cache_data(&text);
    let mut expected = es;
    for e in expected.iter_mut() {
        e.only_show_in = None;
    }
    assert_eq!(back, expected);
}

#[test]
fn cache_text_lines_each_give_an_entry() {
    let back = parse_cache_data("name: A\r\nname: B\n\nname: C");
    let names: Vec<&str> = back.iter().map(|e| e.name.as_str()).collect();
    assert_eq!(names, vec!["A", "B", "", "C"]);
    assert!(parse_cache_data("").is_empty());
}

#[test]
fn only_show_in_with_line_end_does_not_break_the_cache() {
    let es = vec![
        entry("A", "a", "/a.desktop", &["x"], Some("GNOME\nKDE"), "Application"),
        entry("B", "b", "/b.desktop", &["y"], None, "Application"),
    ];
    let text = create_cache_data(es.clone());
    assert_eq!(text.lines().count(), 2);
    let back = parse_cache_data(&text);
    let names: Vec<&str> = back.iter().map(|e| e.name.as_str()).collect();
    assert_eq!(names, vec!["A", "B"]);
    assert_eq!(back[0].only_show_in, None);
    let single = create_cache_data(vec![es[0].clone()]);
    let mut expected = es[0].clone();
    expected.only_show_in = None;
    assert_eq!(parse_entry_cache_line(&single[..single.len() - 1]), expected);
}

#[test]
fn plain_keywords_come_back_from_the_cache() {
    let es = vec![
        entry("Web", "web", "/web.desktop", &["web browser", "C++", "a-b!"], Some("GNOME"), "Application"),
        entry("Mail", "mail", "/mail.desktop", &["mail"], None, "Application"),
    ];
    let back = parse_cache_data(&create_cache_data(es.clone()));
    let expected: Vec<_> = es
        .into_iter()
        .map(|mut e| {
            e.only_show_in = None;
            e
        })
        .collect();
    assert_eq!(back, expected);
}

#[test]
fn keywords_that_debug_prints_as_they_are_come_back() {
    let e = entry("Café", "cafe", "/cafe.desktop", &["café", "thé vert"], Some("GNOME"), "Application");
    let text = create_cache_data(vec![e.clone()]);
    let mut expected = e;
    expected.only_show_in = None;
    assert_eq!(parse_entry_cache_line(&text[..text.len() - 1]), expected.clone());
    assert_eq!(parse_cache_data(&text), vec![expected]);
}
