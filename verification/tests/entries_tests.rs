use menur::entries::{
    fetch_entries_from_contents, fetch_entry_from_bytes, fetch_entry_from_contents,
    keep_desktop_paths, parse_desktop_entry, shown_on_desktop, Entry,
};

fn strings(v: &[&str]) -> Vec<String> {
    v.iter().map(|s| s.to_string()).collect()
}

const FIREFOX: &str = "[Desktop Entry]\n\
# a comment line: Name=Nope\n\
Name=Firefox\n\
Comment=Browse the Web\n\
Type=Application\n\
Icon=firefox\n\
Keywords=Internet;WWW;Browser;\n\
Categories=Network;WebBrowser;\n\
Exec=firefox %u\n\
[Desktop Action new-window]\n\
Name=New Window\n";

#[test]
fn parses_a_desktop_file() {
    let e = parse_desktop_entry(FIREFOX).expect("entry");
    assert_eq!(e.name, "Firefox");
    assert_eq!(e.entry_type, "Application");
    assert_eq!(e.img_path, "firefox");
    assert_eq!(e.entry_path, "");
    assert_eq!(e.only_show_in, None);
    assert_eq!(
        e.key_words,
        strings(&["Browse", "the", "Web", "Internet", "WWW", "Browser", "Network", "WebBrowser"])
    );
}

#[test]
fn desktop_action_ends_reading() {
    let e = parse_desktop_entry("Name=A\n[Desktop Action x]\nName=B\nNoDisplay=true\n").unwrap();
    assert_eq!(e.name, "A");
}

#[test]
fn no_display_hides_entry_in_any_case() {
    assert_eq!(parse_desktop_entry("Name=A\nNoDisplay=true\n"), None);
    assert_eq!(parse_desktop_entry("NoDisplay=TRUE\nName=A\n"), None);
    assert_eq!(parse_desktop_entry("NoDisplay=True"), None);
    let e = parse_desktop_entry("Name=A\nNoDisplay=false\n").unwrap();
    assert_eq!(e.name, "A");
}

#[test]
fn value_stops_at_second_equal_sign() {
    let e = parse_desktop_entry("Name=a=b\nIcon=\n").unwrap();
    assert_eq!(e.name, "a");
    assert_eq!(e.img_path, "");
}

#[test]
fn comments_and_lines_without_equal_change_nothing() {
    let e = parse_desktop_entry("#Name=X\nName\nName=Y\n").unwrap();
    assert_eq!(e.name, "Y");
    let empty = parse_desktop_entry("").unwrap();
    assert_eq!(empty, Entry::default());
}

#[test]
fn crlf_lines_are_read_without_carriage_return() {
    let e = parse_desktop_entry("Name=Term\r\nOnlyShowIn=GNOME;KDE;\r\n").unwrap();
    assert_eq!(e.name, "Term");
    assert_eq!(e.only_show_in, Some("GNOME;KDE;".to_string()));
}

#[test]
fn later_keys_override_earlier_ones() {
    let e = parse_desktop_entry("Name=First\nName=Second\nKeywords=a\nDescription=b,c\n").unwrap();
    assert_eq!(e.name, "Second");
    assert_eq!(e.key_words, strings(&["a", "b", "c"]));
}

#[test]
fn bytes_are_decoded_with_replacement() {
    let mut bytes = b"Name=Caf".to_vec();
    bytes.push(0xff);
    bytes.extend_from_slice("\nIcon=caf\u{e9}\n".as_bytes());
    let e = fetch_entry_from_bytes(bytes).unwrap();
    assert_eq!(e.name, "Caf\u{fffd}");
    assert_eq!(e.img_path, "caf\u{e9}");
}

#[test]
fn parse_keywords_splits_and_drops_empty_words() {
    let mut e = Entry::default();
    e.key_words.push("old".to_string());
    e.parse_keywords("a, b;;c  d,");
    assert_eq!(e.key_words, strings(&["old", "a", "b", "c", "d"]));
    e.parse_keywords("");
    assert_eq!(e.key_words.len(), 5);
}

#[test]
fn contents_give_entry_with_its_path() {
    let e = fetch_entry_from_contents("/x/a.desktop".to_string(), Some(b"Name=A".to_vec())).unwrap();
    assert_eq!(e.entry_path, "/x/a.desktop");
    assert_eq!(e.name, "A");
    assert_eq!(fetch_entry_from_contents("/x/b.desktop".to_string(), None), None);
    assert_eq!(
        fetch_entry_from_contents("/x/c.desktop".to_string(), Some(b"NoDisplay=true".to_vec())),
        None
    );
}

#[test]
fn only_show_in_matches_desktop_up_to_case_and_spaces() {
    let mut e = Entry::default();
    e.only_show_in = Some("GNOME; KDE ;".to_string());
    assert!(shown_on_desktop(&e, &Some("kde".to_string())));
    assert!(shown_on_desktop(&e, &Some("Gnome".to_string())));
    assert!(!shown_on_desktop(&e, &Some("XFCE".to_string())));
    assert!(shown_on_desktop(&e, &None));
    let plain = Entry::default();
    assert!(shown_on_desktop(&plain, &Some("XFCE".to_string())));
}

#[test]
fn entries_from_contents_are_filtered() {
    let files = vec![
        ("/a.desktop".to_string(), Some(b"Name=A".to_vec())),
        ("/b.desktop".to_string(), None),
        ("/c.desktop".to_string(), Some(b"Name=C\nOnlyShowIn=KDE;".to_vec())),
        ("/d.desktop".to_string(), Some(b"Name=D\nNoDisplay=true".to_vec())),
        ("/e.desktop".to_string(), Some(b"Name=E\nOnlyShowIn=GNOME;".to_vec())),
    ];
    let shown = fetch_entries_from_contents(files.clone(), Some("GNOME".to_string()));
    let names: Vec<&str> = shown.iter().map(|e| e.name.as_str()).collect();
    assert_eq!(names, vec!["A", "E"]);
    assert_eq!(shown[1].entry_path, "/e.desktop");
    let all = fetch_entries_from_contents(files, None);
    let names: Vec<&str> = all.iter().map(|e| e.name.as_str()).collect();
    assert_eq!(names, vec!["A", "C", "E"]);
}

#[test]
fn only_desktop_paths_are_kept() {
    let paths = strings(&[
        "/usr/share/applications/firefox.desktop",
        "/usr/share/applications/mimeinfo.cache",
        "/usr/share/applications/x.desktop.bak",
        "desktop",
    ]);
    assert_eq!(
        keep_desktop_paths(paths),
        strings(&["/usr/share/applications/firefox.desktop", "/usr/share/applications/x.desktop.bak"])
    );
}

#[test]
fn text_after_action_line_changes_nothing() {
    let a = "Name=App\nKeywords=one;two\n";
    let with_tail = format!("{}[Desktop Action x]\nName=Other\nNoDisplay=true", a);
    assert_eq!(parse_desktop_entry(&with_tail), parse_desktop_entry(a));
    assert_eq!(parse_desktop_entry("[Desktop Action y]\nName=B\n"), Some(Entry::default()));
}

#[test]
fn inserted_comment_line_changes_nothing() {
    let a = "Name=App\n";
    let b = "Icon=app\nComment=hello world";
    let with_comment = format!("{}#NoDisplay=true\r\n{}", a, b);
    assert_eq!(parse_desktop_entry(&with_comment), parse_desktop_entry(&format!("{}{}", a, b)));
}

#[test]
fn bytes_after_action_line_change_nothing() {
    let a = "Name=Café\nKeywords=un;deux\n".as_bytes().to_vec();
    let h = "[Desktop Action neu]".as_bytes().to_vec();
    let b = "Name=Ändern\nNoDisplay=true".as_bytes().to_vec();
    let all = [a.clone(), h, b"\n".to_vec(), b].concat();
    assert_eq!(fetch_entry_from_bytes(all), fetch_entry_from_bytes(a));
}

#[test]
fn comment_bytes_change_nothing() {
    let a = "Name=Café\n".as_bytes().to_vec();
    let c = "# NoDisplay=true é".as_bytes().to_vec();
    let b = "Icon=café\nKeywords=un".as_bytes().to_vec();
    let with_comment = [a.clone(), c, b"\n".to_vec(), b.clone()].concat();
    let without = [a, b].concat();
    let found = fetch_entry_from_bytes(with_comment);
    assert_eq!(found, fetch_entry_from_bytes(without));
    assert_eq!(found.map(|e| e.name), Some("Café".to_string()));
}
