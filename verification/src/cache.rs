//! The entry cache: where it lives, how entries are written to it, and how
//! its lines are read back.
//!
//! Each entry takes one line:
//! `name: N; img_path: I; entry_path: P; key_words: [..]; only_show_in: O; type: T`
//! where the keywords and `only_show_in` are written as `Debug` prints them.
use crate::entries::{empty_entry, entry_views, opt_string_view, Entry, EntryView};
use crate::text::{
    contains_text, is_white_space, lemma_contains_concat, lemma_join_free_char, lemma_join_pair_free,
    lemma_no_text_without_first, lemma_pair_concat, lemma_split_join_char, lemma_split_join_pair,
    lemma_lines_append, lemma_split_lead, lemma_split_no_text, lemma_trimmed_ends, strip_cr, lemma_trim_lead_space, lemma_trim_plain, sep_at,
    trim_end, trim_start, join, lemma_join_push, lemma_split_nonempty, lines, lines_of, same_chars, split, split_chars, trim, trim_chars, trim_set, trim_white, views,
    CharClass, CharSet, Pattern, Sep,
};
use crate::unicode::{
    append_chars, chars_of, debug_quoted, debug_text, is_plain_char, is_plain_text, string_of,
};
use vstd::prelude::*;

verus! {

broadcast use vstd::seq_lib::group_seq_properties;

// ---------------------------------------------------------------------------
// Where the cache lives
// ---------------------------------------------------------------------------

/// `/.cache/menur/`, the cache directory below the home directory.
pub open spec fn cache_dir_suffix() -> Seq<char> {
    seq!['/', '.', 'c', 'a', 'c', 'h', 'e', '/', 'm', 'e', 'n', 'u', 'r', '/']
}

/// `entries.cache`, the name of the cache file.
pub open spec fn cache_file_name() -> Seq<char> {
    seq!['e', 'n', 't', 'r', 'i', 'e', 's', '.', 'c', 'a', 'c', 'h', 'e']
}

/// The cache directory and the cache file for the home directory `home`:
/// `home/.cache/menur/` and `home/.cache/menur/entries.cache`.
pub fn cache_dir_file(home: &str) -> (r: (String, String))
    ensures
        r.0@ == home@ + cache_dir_suffix(),
        r.1@ == home@ + cache_dir_suffix() + cache_file_name(),
{
    let suffix = vec!['/', '.', 'c', 'a', 'c', 'h', 'e', '/', 'm', 'e', 'n', 'u', 'r', '/'];
    let file = vec!['e', 'n', 't', 'r', 'i', 'e', 's', '.', 'c', 'a', 'c', 'h', 'e'];
    assert(suffix@ =~= cache_dir_suffix());
    assert(file@ =~= cache_file_name());
    let mut dir = String::from_str(home);
    append_chars(&mut dir, &suffix);
    let mut path = dir.clone();
    append_chars(&mut path, &file);
    (dir, path)
}

// ---------------------------------------------------------------------------
// Writing
// ---------------------------------------------------------------------------

/// `, `, between the items of a list printed by `Debug`.
pub open spec fn comma_space() -> Seq<char> {
    seq![',', ' ']
}

/// How `Debug` prints a list of strings: `["a", "b"]`.
pub open spec fn debug_list(ws: Seq<Seq<char>>) -> Seq<char> {
    seq!['['] + join(ws.map_values(|w: Seq<char>| debug_text(w)), comma_space()) + seq![']']
}

/// How `Debug` prints an optional string: `None` or `Some("a")`.
pub open spec fn debug_option(o: Option<Seq<char>>) -> Seq<char> {
    match o {
        None => seq!['N', 'o', 'n', 'e'],
        Some(s) => seq!['S', 'o', 'm', 'e', '('] + debug_text(s) + seq![')'],
    }
}

pub open spec fn tag_name() -> Seq<char> {
    seq!['n', 'a', 'm', 'e']
}

pub open spec fn tag_img_path() -> Seq<char> {
    seq!['i', 'm', 'g', '_', 'p', 'a', 't', 'h']
}

pub open spec fn tag_entry_path() -> Seq<char> {
    seq!['e', 'n', 't', 'r', 'y', '_', 'p', 'a', 't', 'h']
}

pub open spec fn tag_key_words() -> Seq<char> {
    seq!['k', 'e', 'y', '_', 'w', 'o', 'r', 'd', 's']
}

pub open spec fn tag_only_show_in() -> Seq<char> {
    seq!['o', 'n', 'l', 'y', '_', 's', 'h', 'o', 'w', '_', 'i', 'n']
}

pub open spec fn tag_type() -> Seq<char> {
    seq!['t', 'y', 'p', 'e']
}

/// `: `, between a field's name and its value.
pub open spec fn colon_space() -> Seq<char> {
    seq![':', ' ']
}

/// One field of a cache line: its name, `: `, its value.
pub open spec fn field(tag: Seq<char>, value: Seq<char>) -> Seq<char> {
    tag + colon_space() + value
}

/// The fields of the cache line of `e`, each but the first led by a space.
pub open spec fn cache_fields_of(e: EntryView) -> Seq<Seq<char>> {
    seq![
        field(tag_name(), e.name),
        field(seq![' '] + tag_img_path(), e.img_path),
        field(seq![' '] + tag_entry_path(), e.entry_path),
        field(seq![' '] + tag_key_words(), debug_list(e.key_words)),
        field(seq![' '] + tag_only_show_in(), debug_option(e.only_show_in)),
        field(seq![' '] + tag_type(), e.entry_type),
    ]
}

/// The cache line of `e` (without its line end): its fields joined by `;`.
pub open spec fn cache_line(e: EntryView) -> Seq<char> {
    join(cache_fields_of(e), seq![';'])
}

/// The cache text of the entries `es`: one line for each, each ended by `\n`.
pub open spec fn cache_data(es: Seq<EntryView>) -> Seq<char>
    decreases es.len(),
{
    if es.len() == 0 {
        seq![]
    } else {
        cache_data(es.drop_last()) + cache_line(es.last()) + seq!['\n']
    }
}

/// Joining one more piece of `fs`: the step that a writer takes.
proof fn lemma_join_take(fs: Seq<Seq<char>>, sep: Seq<char>, k: int)
    requires
        1 <= k < fs.len(),
    ensures
        join(fs.take(k + 1), sep) == join(fs.take(k), sep) + sep + fs[k],
{
    lemma_join_push(fs.take(k), sep, fs[k]);
    assert(fs.take(k).push(fs[k]) =~= fs.take(k + 1));
}

/// Appends `Debug` of the keyword list `ws` to `out`.
fn append_debug_list(out: &mut String, ws: &Vec<String>)
    ensures
        final(out)@ == old(out)@ + debug_list(ws@.map_values(|w: String| w@)),
        debug_plain_kept(ws@.map_values(|w: String| w@)),
{
    let open = vec!['['];
    let close = vec![']'];
    let sep = vec![',', ' '];
    assert(sep@ =~= comma_space());
    let ghost wv = ws@.map_values(|w: String| w@);
    let ghost dv = wv.map_values(|w: Seq<char>| debug_text(w));
    append_chars(out, &open);
    let ghost start = out@;
    let mut j: usize = 0;
    while j < ws.len()
        invariant
            j <= ws.len(),
            wv == ws@.map_values(|w: String| w@),
            dv == wv.map_values(|w: Seq<char>| debug_text(w)),
            sep@ == comma_space(),
            out@ == start + join(dv.take(j as int), comma_space()),
            forall|k: int| 0 <= k < j ==> is_plain_text(#[trigger] wv[k]) ==> debug_text(wv[k])
                == quoted(wv[k]),
        decreases ws.len() - j,
    {
        proof {
            lemma_join_push(dv.take(j as int), comma_space(), dv[j as int]);
            assert(dv.take(j as int).push(dv[j as int]) =~= dv.take(j + 1));
        }
        if j > 0 {
            append_chars(out, &sep);
        }
        let q = debug_quoted(ws[j].as_str());
        assert(q@ == dv[j as int]);
        assert(wv[j as int] == ws@[j as int]@);
        out.append(q.as_str());
        j = j + 1;
    }
    append_chars(out, &close);
    assert(dv.take(ws.len() as int) =~= dv);
    assert(out@ =~= old(out)@ + debug_list(wv));
}

/// Appends `tag: value` to `out`, led by `;` unless it is the first field.
fn append_field(out: &mut String, first: bool, tag: &Vec<char>, value: &str)
    ensures
        final(out)@ == old(out)@ + (if first {
            seq![]
        } else {
            seq![';']
        }) + field(tag@, value@),
{
    let semi = vec![';'];
    let colon = vec![':', ' '];
    assert(semi@ =~= seq![';']);
    assert(colon@ =~= colon_space());
    if !first {
        append_chars(out, &semi);
    }
    append_chars(out, tag);
    append_chars(out, &colon);
    out.append(value);
    assert(out@ =~= old(out)@ + (if first { seq![] } else { seq![';'] }) + field(tag@, value@));
}

/// Appends `Debug` of an optional string to `out`.
fn append_debug_option(out: &mut String, o: &Option<String>)
    ensures
        final(out)@ == old(out)@ + debug_option(opt_string_view(*o)),
        debug_option_safe(opt_string_view(*o)),
{
    match o {
        None => {
            let none = vec!['N', 'o', 'n', 'e'];
            assert(none@ =~= seq!['N', 'o', 'n', 'e']);
            append_chars(out, &none);
        },
        Some(s) => {
            let some_open = vec!['S', 'o', 'm', 'e', '('];
            let some_close = vec![')'];
            assert(some_open@ =~= seq!['S', 'o', 'm', 'e', '(']);
            assert(some_close@ =~= seq![')']);
            append_chars(out, &some_open);
            let q = debug_quoted(s.as_str());
            out.append(q.as_str());
            append_chars(out, &some_close);
            proof {
                let d = seq!['S', 'o', 'm', 'e', '('] + q@ + seq![')'];
                lemma_contains_concat(seq!['S', 'o', 'm', 'e', '('], q@, ';');
                lemma_contains_concat(seq!['S', 'o', 'm', 'e', '('] + q@, seq![')'], ';');
                lemma_contains_concat(seq!['S', 'o', 'm', 'e', '('], q@, '\n');
                lemma_contains_concat(seq!['S', 'o', 'm', 'e', '('] + q@, seq![')'], '\n');
                assert(d == debug_option(opt_string_view(*o)));
            }
        },
    }
    assert(out@ =~= old(out)@ + debug_option(opt_string_view(*o)));
}

/// Appends the cache line of `e`, with its `\n`, to `out`.
fn append_cache_line(out: &mut String, e: &Entry)
    ensures
        final(out)@ == old(out)@ + cache_line(e@) + seq!['\n'],
        debug_option_safe(e@.only_show_in),
        debug_plain_kept(e@.key_words),
{
    let t_name = vec!['n', 'a', 'm', 'e'];
    let t_img = vec![' ', 'i', 'm', 'g', '_', 'p', 'a', 't', 'h'];
    let t_path = vec![' ', 'e', 'n', 't', 'r', 'y', '_', 'p', 'a', 't', 'h'];
    let t_kw = vec![' ', 'k', 'e', 'y', '_', 'w', 'o', 'r', 'd', 's'];
    let t_only = vec![' ', 'o', 'n', 'l', 'y', '_', 's', 'h', 'o', 'w', '_', 'i', 'n'];
    let t_type = vec![' ', 't', 'y', 'p', 'e'];
    let ghost fs = cache_fields_of(e@);
    let ghost e0 = old(out)@;
    proof {
        assert(t_name@ =~= tag_name());
        assert(t_img@ =~= seq![' '] + tag_img_path());
        assert(t_path@ =~= seq![' '] + tag_entry_path());
        assert(t_kw@ =~= seq![' '] + tag_key_words());
        assert(t_only@ =~= seq![' '] + tag_only_show_in());
        assert(t_type@ =~= seq![' '] + tag_type());
        assert(fs.take(1) =~= seq![fs[0]]);
    }
    append_field(out, true, &t_name, e.name.as_str());
    assert(out@ =~= e0 + join(fs.take(1), seq![';']));
    append_field(out, false, &t_img, e.img_path.as_str());
    proof { lemma_join_take(fs, seq![';'], 1); }
    append_field(out, false, &t_path, e.entry_path.as_str());
    proof { lemma_join_take(fs, seq![';'], 2); }
    let mut list = String::new();
    append_debug_list(&mut list, &e.key_words);
    append_field(out, false, &t_kw, list.as_str());
    proof { lemma_join_take(fs, seq![';'], 3); }
    let mut opt = String::new();
    append_debug_option(&mut opt, &e.only_show_in);
    append_field(out, false, &t_only, opt.as_str());
    proof { lemma_join_take(fs, seq![';'], 4); }
    append_field(out, false, &t_type, e.entry_type.as_str());
    proof { lemma_join_take(fs, seq![';'], 5); }
    assert(fs.take(6) =~= fs);
    let nl = vec!['\n'];
    assert(nl@ =~= seq!['\n']);
    append_chars(out, &nl);
}

/// The cache text of `entries`: one line for each entry, in order.
pub fn create_cache_data(entries: Vec<Entry>) -> (r: String)
    ensures
        r@ == cache_data(entry_views(entries@)),
        (forall|i: int| 0 <= i < entries.len() ==> cache_keeps_own(#[trigger] entries@[i]@))
            ==> parse_cache_text(r@) == entry_views(entries@).map_values(|e: EntryView| cached(e)),
        entries.len() == 1 && cache_keeps_own(entries@[0]@) ==> parse_cache_line(r@.drop_last())
            == cached(entries@[0]@),
{
    let mut result = String::new();
    let ghost ev = entry_views(entries@);
    let mut i: usize = 0;
    while i < entries.len()
        invariant
            i <= entries.len(),
            ev == entry_views(entries@),
            result@ == cache_data(ev.take(i as int)),
            forall|j: int| 0 <= j < i ==> debug_option_safe(#[trigger] ev[j].only_show_in),
            forall|j: int| 0 <= j < i ==> debug_plain_kept(#[trigger] ev[j].key_words),
        decreases entries.len() - i,
    {
        proof {
            assert(ev.take(i + 1).drop_last() =~= ev.take(i as int));
            assert(ev.take(i + 1).last() == entries@[i as int]@);
        }
        append_cache_line(&mut result, &entries[i]);
        assert(ev[i as int] == entries@[i as int]@);
        i = i + 1;
    }
    assert(ev.take(entries.len() as int) =~= ev);
    proof {
        if forall|i: int| 0 <= i < entries.len() ==> cache_keeps_own(#[trigger] entries@[i]@) {
            assert forall|i: int| 0 <= i < ev.len() implies cache_keeps(#[trigger] ev[i]) by {
                assert(ev[i] == entries@[i]@);
                assert(cache_keeps_own(entries@[i]@));
                assert(debug_option_safe(ev[i].only_show_in));
                assert(debug_plain_kept(ev[i].key_words));
                assert forall|k: int| 0 <= k < ev[i].key_words.len() implies keeps_keyword(
                    #[trigger] ev[i].key_words[k],
                ) by {
                    let w = ev[i].key_words[k];
                    if !keeps_keyword(w) {
                        assert(keeps_keyword_own(w));
                        if w.len() > 0 {
                            assert(is_plain_char(w[0]));
                            assert(is_plain_char(w[w.len() - 1]));
                        }
                        if w.contains('\n') {
                            let m = choose|m: int| 0 <= m < w.len() && w[m] == '\n';
                            assert(is_plain_char(w[m]));
                        }
                    }
                }
            }
            lemma_cache_round_trip(ev);
            if entries.len() == 1 {
                assert(ev.drop_last() =~= Seq::<EntryView>::empty());
                assert(cache_data(ev.drop_last()) == Seq::<char>::empty());
                assert(ev.last() == ev[0]);
                assert(result@ == cache_data(ev));
                assert(result@ =~= cache_line(ev[0]) + seq!['\n']);
                assert(result@.drop_last() =~= cache_line(ev[0]));
                lemma_cache_line_round_trip(ev[0]);
            }
        }
    }
    result
}

// ---------------------------------------------------------------------------
// Reading
// ---------------------------------------------------------------------------

/// The name and the value of one `;`-separated field of a cache line: the
/// first two pieces between `: ` (the second empty when there is none), trimmed.
pub open spec fn field_key_value(piece: Seq<char>) -> (Seq<char>, Seq<char>) {
    let kv = split(piece, Sep::Text(colon_space()));
    (trim(kv[0]), trim(if kv.len() > 1 { kv[1] } else { seq![] }))
}

/// The keywords of a `key_words` value: without `[` and `]` at its ends,
/// split at `, `, each without `"` at its ends.
pub open spec fn keyword_list(value: Seq<char>) -> Seq<Seq<char>> {
    split(trim_set(value, CharSet::AnyOf(seq!['[', ']'])), Sep::Text(comma_space())).map_values(
        |k: Seq<char>| trim_set(k, CharSet::AnyOf(seq!['"'])),
    )
}

/// The entry `e` after the field `piece` of a cache line.  The names `name`,
/// `img_path`, `entry_path` and `type` set their field, `key_words` adds to
/// the keywords; other fields (`only_show_in` among them) change nothing.
pub open spec fn apply_cache_field(e: EntryView, piece: Seq<char>) -> EntryView {
    let (k, v) = field_key_value(piece);
    if k == tag_name() {
        EntryView { name: v, ..e }
    } else if k == tag_img_path() {
        EntryView { img_path: v, ..e }
    } else if k == tag_entry_path() {
        EntryView { entry_path: v, ..e }
    } else if k == tag_key_words() {
        EntryView { key_words: e.key_words + keyword_list(v), ..e }
    } else if k == tag_type() {
        EntryView { entry_type: v, ..e }
    } else {
        e
    }
}

/// The entry read from the fields `pieces`, starting from `e`.
pub open spec fn apply_cache_fields(pieces: Seq<Seq<char>>, e: EntryView) -> EntryView
    decreases pieces.len(),
{
    if pieces.len() == 0 {
        e
    } else {
        apply_cache_fields(pieces.drop_first(), apply_cache_field(e, pieces[0]))
    }
}

/// The entry read from one cache line: its `;`-separated fields applied in
/// order to the empty entry.
pub open spec fn parse_cache_line(line: Seq<char>) -> EntryView {
    apply_cache_fields(split(line, Sep::AnyOf(seq![';'])), empty_entry())
}

/// The entries read from a cache text: one for each of its lines.
pub open spec fn parse_cache_text(text: Seq<char>) -> Seq<EntryView> {
    lines(text).map_values(|l: Seq<char>| parse_cache_line(l))
}

/// The keywords of a `key_words` value, as strings.
fn keyword_list_of(value: &Vec<char>) -> (r: Vec<String>)
    ensures
        r@.map_values(|s: String| s@) == keyword_list(value@),
{
    let brackets = vec!['[', ']'];
    let quote = vec!['"'];
    let sep = vec![',', ' '];
    assert(brackets@ =~= seq!['[', ']']);
    assert(quote@ =~= seq!['"']);
    assert(sep@ =~= comma_space());
    let inner = trim_chars(value, &CharClass::AnyOf(brackets));
    let parts = split_chars(&inner, &Pattern::Text(sep));
    let ghost pv = views(parts@);
    let quote_class = CharClass::AnyOf(quote);
    let mut out: Vec<String> = Vec::new();
    let mut i: usize = 0;
    while i < parts.len()
        invariant
            i <= parts.len(),
            pv == views(parts@),
            pv == split(trim_set(value@, CharSet::AnyOf(seq!['[', ']'])), Sep::Text(comma_space())),
            quote_class@ == CharSet::AnyOf(seq!['"']),
            out@.map_values(|s: String| s@) =~= pv.take(i as int).map_values(
                |k: Seq<char>| trim_set(k, CharSet::AnyOf(seq!['"'])),
            ),
        decreases parts.len() - i,
    {
        let k = trim_chars(&parts[i], &quote_class);
        assert(pv[i as int] == parts@[i as int]@);
        let ghost prev = out@;
        out.push(string_of(&k));
        proof {
            let f = |k: Seq<char>| trim_set(k, CharSet::AnyOf(seq!['"']));
            assert(pv.take(i + 1) =~= pv.take(i as int).push(pv[i as int]));
            assert(pv.take(i + 1).map_values(f) =~= pv.take(i as int).map_values(f).push(f(pv[i as int])));
            assert(out@.map_values(|s: String| s@) =~= prev.map_values(|s: String| s@).push(k@));
        }
        i = i + 1;
    }
    assert(pv.take(parts.len() as int) =~= pv);
    out
}

/// Reads an entry from one line of the cache.  The line is split at `;`;
/// each field is split at `: ` into a name and a value, both trimmed; the
/// names `name`, `img_path`, `entry_path` and `type` set their field and
/// `key_words` adds its keywords.  `only_show_in` is not read back: entries
/// that a desktop hides are not written to the cache.
pub fn parse_entry_cache_line(line: &str) -> (r: Entry)
    ensures
        r@ == parse_cache_line(line@),
{
    let chars = chars_of(line);
    let semi = vec![';'];
    let colon = vec![':', ' '];
    let t_name = vec!['n', 'a', 'm', 'e'];
    let t_img = vec!['i', 'm', 'g', '_', 'p', 'a', 't', 'h'];
    let t_path = vec!['e', 'n', 't', 'r', 'y', '_', 'p', 'a', 't', 'h'];
    let t_kw = vec!['k', 'e', 'y', '_', 'w', 'o', 'r', 'd', 's'];
    let t_type = vec!['t', 'y', 'p', 'e'];
    proof {
        assert(semi@ =~= seq![';']);
        assert(colon@ =~= colon_space());
        assert(t_name@ =~= tag_name());
        assert(t_img@ =~= tag_img_path());
        assert(t_path@ =~= tag_entry_path());
        assert(t_kw@ =~= tag_key_words());
        assert(t_type@ =~= tag_type());
    }
    let colon_pat = Pattern::Text(colon);
    let pieces = split_chars(&chars, &Pattern::AnyOf(semi));
    let ghost pv = views(pieces@);
    let mut res = Entry::default();
    let mut i: usize = 0;
    while i < pieces.len()
        invariant
            i <= pieces.len(),
            pv == views(pieces@),
            parse_cache_line(line@) == apply_cache_fields(pv.skip(i as int), res@),
            colon_pat@ == Sep::Text(colon_space()),
            t_name@ == tag_name(),
            t_img@ == tag_img_path(),
            t_path@ == tag_entry_path(),
            t_kw@ == tag_key_words(),
            t_type@ == tag_type(),
        decreases pieces.len() - i,
    {
        let ghost before = res@;
        let piece = &pieces[i];
        proof {
            assert(pv.skip(i as int)[0] == piece@);
            assert(pv.skip(i as int).drop_first() =~= pv.skip(i + 1));
            lemma_split_nonempty(piece@, Sep::Text(colon_space()));
        }
        let kv = split_chars(piece, &colon_pat);
        let key = trim_white(&kv[0]);
        let value = if kv.len() > 1 {
            trim_white(&kv[1])
        } else {
            Vec::new()
        };
        proof {
            let kvv = split(piece@, Sep::Text(colon_space()));
            assert(views(kv@) == kvv);
            assert(kvv[0] == kv@[0]@);
            if kv.len() > 1 {
                assert(kvv[1] == kv@[1]@);
            } else {
                assert(trim(seq![]) == Seq::<char>::empty());
            }
            assert(key@ == field_key_value(piece@).0);
            assert(value@ =~= field_key_value(piece@).1);
        }
        if same_chars(&key, &t_name) {
            res.name = string_of(&value);
        } else if same_chars(&key, &t_img) {
            res.img_path = string_of(&value);
        } else if same_chars(&key, &t_path) {
            res.entry_path = string_of(&value);
        } else if same_chars(&key, &t_kw) {
            let mut words = keyword_list_of(&value);
            res.key_words.append(&mut words);
            assert(res@ =~= apply_cache_field(before, piece@));
        } else if same_chars(&key, &t_type) {
            res.entry_type = string_of(&value);
        }
        assert(res@ == apply_cache_field(before, piece@));
        i = i + 1;
    }
    res
}

/// Reads the entries of a cache text, one from each line: the computation
/// that reading the cache file makes once the file is read.
pub fn parse_cache_data(text: &str) -> (r: Vec<Entry>)
    ensures
        entry_views(r@) == parse_cache_text(text@),
{
    let chars = chars_of(text);
    let ls = lines_of(&chars);
    let ghost lv = views(ls@);
    let mut out: Vec<Entry> = Vec::new();
    let mut i: usize = 0;
    while i < ls.len()
        invariant
            i <= ls.len(),
            lv == views(ls@),
            lv == lines(text@),
            entry_views(out@) =~= lv.take(i as int).map_values(|l: Seq<char>| parse_cache_line(l)),
        decreases ls.len() - i,
    {
        let line = string_of(&ls[i]);
        assert(lv[i as int] == ls@[i as int]@);
        let e = parse_entry_cache_line(line.as_str());
        let ghost prev = out@;
        out.push(e);
        proof {
            let f = |l: Seq<char>| parse_cache_line(l);
            assert(lv.take(i + 1) =~= lv.take(i as int).push(lv[i as int]));
            assert(lv.take(i + 1).map_values(f) =~= lv.take(i as int).map_values(f).push(f(lv[i as int])));
            assert(entry_views(out@) =~= entry_views(prev).push(out@[i as int]@));
        }
        i = i + 1;
    }
    assert(lv.take(ls.len() as int) =~= lv);
    out
}

// ---------------------------------------------------------------------------
// What a cache line gives back
// ---------------------------------------------------------------------------

/// A text between two `"`: how `Debug` prints a string that it does not escape.
pub open spec fn quoted(k: Seq<char>) -> Seq<char> {
    seq!['"'] + k + seq!['"']
}

/// A text field that its cache line gives back as it is: no `;`, no `: `,
/// no line end, no white space at its ends.
pub open spec fn keeps_field(s: Seq<char>) -> bool {
    &&& !s.contains(';')
    &&& !s.contains('\n')
    &&& !contains_text(s, colon_space())
    &&& trim(s) == s
}

/// A keyword that its cache line gives back as it is: `Debug` prints it
/// between quotes without escaping anything, it does not begin or end with
/// `"`, and it holds no `;`, no `, `, no `: ` and no line end.
pub open spec fn keeps_keyword(k: Seq<char>) -> bool {
    &&& debug_text(k) == quoted(k)
    &&& (k.len() == 0 || (k[0] != '"' && k.last() != '"'))
    &&& !k.contains(';')
    &&& !k.contains('\n')
    &&& !contains_text(k, comma_space())
    &&& !contains_text(k, colon_space())
}

/// An entry that its cache line gives back: its text fields and keywords
/// are kept, it has at least one keyword, and the `Debug` form of its
/// `only_show_in` holds no `;` and no line end.
pub open spec fn cache_keeps(e: EntryView) -> bool {
    &&& keeps_field(e.name)
    &&& keeps_field(e.img_path)
    &&& keeps_field(e.entry_path)
    &&& keeps_field(e.entry_type)
    &&& e.key_words.len() > 0
    &&& forall|i: int| 0 <= i < e.key_words.len() ==> keeps_keyword(#[trigger] e.key_words[i])
    &&& !debug_option(e.only_show_in).contains(';')
    &&& !debug_option(e.only_show_in).contains('\n')
}

/// The `Debug` form of an optional string adds no line end, and no `;`
/// that the string does not hold.
pub open spec fn debug_option_safe(o: Option<Seq<char>>) -> bool {
    &&& !debug_option(o).contains('\n')
    &&& (match o {
        Some(x) => !x.contains(';'),
        None => true,
    }) ==> !debug_option(o).contains(';')
}

/// The `Debug` form of each plain text among `ws` is that text between quotes.
pub open spec fn debug_plain_kept(ws: Seq<Seq<char>>) -> bool {
    forall|i: int| 0 <= i < ws.len() ==> is_plain_text(#[trigger] ws[i]) ==> debug_text(ws[i])
        == quoted(ws[i])
}

/// A keyword that its cache line gives back, stated over its own
/// characters: printable ASCII other than `"` and `\\`, with no `;`, no `, `
/// and no `: `.
pub open spec fn keeps_keyword_own(k: Seq<char>) -> bool {
    &&& is_plain_text(k)
    &&& !k.contains(';')
    &&& !contains_text(k, comma_space())
    &&& !contains_text(k, colon_space())
}

/// An entry that its cache line gives back, stated over its own fields: as
/// [`cache_keeps`], with each keyword one that `Debug` prints between quotes
/// as it is ([`keeps_keyword`]) or a plain one ([`keeps_keyword_own`]), and
/// only `;` ruled out of its `only_show_in`.
pub open spec fn cache_keeps_own(e: EntryView) -> bool {
    &&& keeps_field(e.name)
    &&& keeps_field(e.img_path)
    &&& keeps_field(e.entry_path)
    &&& keeps_field(e.entry_type)
    &&& e.key_words.len() > 0
    &&& forall|i: int|
        0 <= i < e.key_words.len() ==> keeps_keyword(#[trigger] e.key_words[i]) || keeps_keyword_own(
            e.key_words[i],
        )
    &&& match e.only_show_in {
        Some(x) => !x.contains(';'),
        None => true,
    }
}

/// `e` as the cache gives it back: without its `only_show_in`.
pub open spec fn cached(e: EntryView) -> EntryView {
    EntryView { only_show_in: None, ..e }
}

/// A quoted keyword holds a two-character pattern only if the keyword does,
/// when neither character of the pattern is `"`.
proof fn lemma_quoted_pair_free(k: Seq<char>, p: Seq<char>)
    requires
        p.len() == 2,
        p[0] != '"',
        p[1] != '"',
        !contains_text(k, p),
    ensures
        !contains_text(quoted(k), p),
{
    let q = seq!['"'];
    assert(!contains_text(q, p)) by {
        if contains_text(q, p) {
            let i = choose|i: int| sep_at(q, Sep::Text(p), i);
        }
    }
    lemma_pair_concat(q, k, p);
    assert((q + k).len() > 0 ==> (q + k).last() == if k.len() > 0 { k.last() } else { '"' });
    lemma_pair_concat(q + k, q, p);
}

/// Trimming the quotes off a quoted keyword gives the keyword back.
proof fn lemma_unquote(k: Seq<char>)
    requires
        k.len() == 0 || (k[0] != '"' && k.last() != '"'),
    ensures
        trim_set(quoted(k), CharSet::AnyOf(seq!['"'])) == k,
{
    let set = CharSet::AnyOf(seq!['"']);
    let s = quoted(k);
    assert(set.has('"'));
    assert(s.drop_first() =~= k + seq!['"']);
    assert(trim_start(s, set) == trim_start(k + seq!['"'], set));
    if k.len() == 0 {
        let t = k + seq!['"'];
        assert(t[0] == '"');
        assert(t.drop_first() =~= Seq::<char>::empty());
        assert(trim_start(Seq::<char>::empty(), set) == Seq::<char>::empty());
        assert(trim_start(t, set) == Seq::<char>::empty());
        assert(trim_end(Seq::<char>::empty(), set) == Seq::<char>::empty());
        assert(k =~= Seq::<char>::empty());
    } else {
        let t = k + seq!['"'];
        assert(s[0] == '"');
        assert(!set.has(k[0]));
        assert(t[0] == k[0]);
        assert(trim_start(t, set) == t);
        assert(t.last() == '"');
        assert(t.drop_last() =~= k);
        assert(trim_end(t, set) == trim_end(k, set));
        assert(!set.has(k.last()));
        assert(trim_end(k, set) == k);
    }
}

/// A field name, alone or led by a space, holds no `;`, `:` or line end,
/// and trims to itself.
proof fn lemma_tag(t: Seq<char>)
    requires
        t.len() > 0,
        !t.contains(';') && !t.contains(':') && !t.contains('\n'),
        !is_white_space(t[0]),
        !is_white_space(t.last()),
    ensures
        !(seq![' '] + t).contains(';') && !(seq![' '] + t).contains(':') && !(seq![' '] + t).contains('\n'),
        trim(seq![' '] + t) == t,
        trim(t) == t,
{
    lemma_contains_concat(seq![' '], t, ';');
    lemma_contains_concat(seq![' '], t, ':');
    lemma_contains_concat(seq![' '], t, '\n');
    lemma_trim_lead_space(t);
}

/// The separators of a cache line hold none of the other separators.
proof fn lemma_separators()
    ensures
        !colon_space().contains(';') && !colon_space().contains('\n'),
        !comma_space().contains(':') && !comma_space().contains(';') && !comma_space().contains('\n'),
{
}

/// A field gives back its name and its value.
proof fn lemma_kv(t: Seq<char>, tag: Seq<char>, v: Seq<char>)
    requires
        !t.contains(':'),
        trim(t) == tag,
        !contains_text(v, colon_space()),
        trim(v) == v,
    ensures
        field_key_value(field(t, v)) == (tag, v),
{
    lemma_field_key_value(t, v);
}

/// The key and value of one field of a cache line: the name without its
/// leading space, and the value up to its first `: `, trimmed.
proof fn lemma_field_key_value(t: Seq<char>, v: Seq<char>)
    requires
        !t.contains(':'),
    ensures
        field_key_value(field(t, v)).0 == trim(t),
        !contains_text(v, colon_space()) ==> field_key_value(field(t, v)).1 == trim(v),
{
    lemma_split_lead(t, colon_space(), v);
    if !contains_text(v, colon_space()) {
        lemma_split_no_text(v, colon_space());
    }
    lemma_split_nonempty(v, Sep::Text(colon_space()));
}

/// What the `key_words` field of a cache line holds, and that it holds no
/// `;`, no `: ` and no line end, and has no white space at its ends.
proof fn lemma_debug_list(ks: Seq<Seq<char>>)
    requires
        ks.len() > 0,
        forall|i: int| 0 <= i < ks.len() ==> keeps_keyword(#[trigger] ks[i]),
    ensures
        keyword_list(debug_list(ks)) == ks,
        !debug_list(ks).contains(';'),
        !debug_list(ks).contains('\n'),
        !contains_text(debug_list(ks), colon_space()),
        trim(debug_list(ks)) == debug_list(ks),
{
    let qs = ks.map_values(|w: Seq<char>| debug_text(w));
    let sep = comma_space();
    assert forall|i: int| 0 <= i < qs.len() implies #[trigger] qs[i] == quoted(ks[i]) by {
        assert(keeps_keyword(ks[i]));
    }
    // the pieces and the separator are free of `;`, of line ends, and of `: `
    lemma_separators();
    assert forall|i: int| 0 <= i < qs.len() implies !(#[trigger] qs[i]).contains(';') && !qs[i].contains('\n') by {
        assert(keeps_keyword(ks[i]));
        lemma_contains_concat(seq!['"'], ks[i], ';');
        lemma_contains_concat(seq!['"'] + ks[i], seq!['"'], ';');
        lemma_contains_concat(seq!['"'], ks[i], '\n');
        lemma_contains_concat(seq!['"'] + ks[i], seq!['"'], '\n');
    }
    lemma_join_free_char(qs, sep, ';');
    lemma_join_free_char(qs, sep, '\n');
    let j = join(qs, sep);
    assert forall|i: int|
        0 <= i < qs.len() implies (#[trigger] qs[i]).len() > 0 && !contains_text(qs[i], colon_space())
        && qs[i][0] != colon_space()[1] && qs[i].last() != colon_space()[0] by {
        assert(keeps_keyword(ks[i]));
        lemma_quoted_pair_free(ks[i], colon_space());
    }
    lemma_no_text_without_first(sep, colon_space());
    lemma_join_pair_free(qs, sep, colon_space());
    let open = seq!['['];
    let close = seq![']'];
    assert(!contains_text(open, colon_space())) by {
        lemma_no_text_without_first(open, colon_space());
    }
    assert(!contains_text(close, colon_space())) by {
        lemma_no_text_without_first(close, colon_space());
    }
    lemma_pair_concat(open, j, colon_space());
    assert((open + j).last() == j.last());
    lemma_pair_concat(open + j, close, colon_space());
    lemma_contains_concat(open, j, ';');
    lemma_contains_concat(open + j, close, ';');
    lemma_contains_concat(open, j, '\n');
    lemma_contains_concat(open + j, close, '\n');
    let d = open + j + close;
    assert(d == debug_list(ks));
    assert(d[0] == '[' && d.last() == ']');
    lemma_trim_plain(d, CharSet::WhiteSpace);
    // the list gives its keywords back
    let brackets = CharSet::AnyOf(seq!['[', ']']);
    assert(d.drop_first() =~= j + close);
    assert(brackets.has('['));
    assert(trim_start(d, brackets) == trim_start(j + close, brackets));
    assert(j[0] == qs[0][0] && qs[0][0] == '"');
    assert(!brackets.has('"'));
    assert((j + close)[0] == j[0]);
    assert(trim_start(j + close, brackets) == j + close);
    assert((j + close).drop_last() =~= j);
    assert(brackets.has(']'));
    assert(trim_end(j + close, brackets) == trim_end(j, brackets));
    assert(j.last() == qs.last().last() && qs.last() == quoted(ks.last()));
    assert(trim_end(j, brackets) == j);
    assert(trim_set(d, brackets) == j);
    assert forall|i: int|
        0 <= i < qs.len() implies !contains_text(#[trigger] qs[i], comma_space()) && (qs[i].len()
        == 0 || qs[i].last() != comma_space()[0]) by {
        assert(keeps_keyword(ks[i]));
        lemma_quoted_pair_free(ks[i], comma_space());
    }
    lemma_split_join_pair(qs, comma_space());
    let f = |k: Seq<char>| trim_set(k, CharSet::AnyOf(seq!['"']));
    assert forall|i: int| 0 <= i < qs.len() implies #[trigger] f(qs[i]) == ks[i] by {
        assert(keeps_keyword(ks[i]));
        lemma_unquote(ks[i]);
    }
    assert(qs.map_values(f) =~= ks);
}

/// A field holds a character only if its name or its value does.
proof fn lemma_field_free(t: Seq<char>, v: Seq<char>, c: char)
    requires
        !t.contains(c),
        !colon_space().contains(c),
        !v.contains(c),
    ensures
        !field(t, v).contains(c),
{
    lemma_contains_concat(t, colon_space(), c);
    lemma_contains_concat(t + colon_space(), v, c);
}

/// The fields of a kept entry are free of `;`.
#[verifier::spinoff_prover]
proof fn lemma_cache_fields_free(e: EntryView)
    requires
        cache_keeps(e),
    ensures
        forall|i: int| 0 <= i < cache_fields_of(e).len() ==> !(#[trigger] cache_fields_of(e)[i]).contains(';'),
{
    lemma_separators();
    lemma_debug_list(e.key_words);
    lemma_tag(tag_name());
    lemma_tag(tag_img_path());
    lemma_tag(tag_entry_path());
    lemma_tag(tag_key_words());
    lemma_tag(tag_only_show_in());
    lemma_tag(tag_type());
    lemma_field_free(tag_name(), e.name, ';');
    lemma_field_free(seq![' '] + tag_img_path(), e.img_path, ';');
    lemma_field_free(seq![' '] + tag_entry_path(), e.entry_path, ';');
    lemma_field_free(seq![' '] + tag_key_words(), debug_list(e.key_words), ';');
    lemma_field_free(seq![' '] + tag_only_show_in(), debug_option(e.only_show_in), ';');
    lemma_field_free(seq![' '] + tag_type(), e.entry_type, ';');
}

/// Each field of the cache line of a kept entry gives its key and value back.
#[verifier::spinoff_prover]
proof fn lemma_cache_fields_kv(e: EntryView)
    requires
        cache_keeps(e),
    ensures
        field_key_value(cache_fields_of(e)[0]) == (tag_name(), e.name),
        field_key_value(cache_fields_of(e)[1]) == (tag_img_path(), e.img_path),
        field_key_value(cache_fields_of(e)[2]) == (tag_entry_path(), e.entry_path),
        field_key_value(cache_fields_of(e)[3]) == (tag_key_words(), debug_list(e.key_words)),
        field_key_value(cache_fields_of(e)[4]).0 == tag_only_show_in(),
        field_key_value(cache_fields_of(e)[5]) == (tag_type(), e.entry_type),
{
    lemma_debug_list(e.key_words);
    lemma_tag(tag_name());
    lemma_kv(tag_name(), tag_name(), e.name);
    lemma_tag(tag_img_path());
    lemma_kv(seq![' '] + tag_img_path(), tag_img_path(), e.img_path);
    lemma_tag(tag_entry_path());
    lemma_kv(seq![' '] + tag_entry_path(), tag_entry_path(), e.entry_path);
    lemma_tag(tag_key_words());
    lemma_kv(seq![' '] + tag_key_words(), tag_key_words(), debug_list(e.key_words));
    lemma_tag(tag_only_show_in());
    lemma_field_key_value(seq![' '] + tag_only_show_in(), debug_option(e.only_show_in));
    lemma_tag(tag_type());
    lemma_kv(seq![' '] + tag_type(), tag_type(), e.entry_type);
}

/// The fields of a kept entry, read in order, give the entry back.
#[verifier::spinoff_prover]
proof fn lemma_apply_fields(e: EntryView, fs: Seq<Seq<char>>)
    requires
        fs.len() == 6,
        field_key_value(fs[0]) == (tag_name(), e.name),
        field_key_value(fs[1]) == (tag_img_path(), e.img_path),
        field_key_value(fs[2]) == (tag_entry_path(), e.entry_path),
        field_key_value(fs[3]) == (tag_key_words(), debug_list(e.key_words)),
        field_key_value(fs[4]).0 == tag_only_show_in(),
        field_key_value(fs[5]) == (tag_type(), e.entry_type),
        keyword_list(debug_list(e.key_words)) == e.key_words,
    ensures
        apply_cache_fields(fs, empty_entry()) == cached(e),
{
    assert(tag_only_show_in() != tag_name() && tag_only_show_in() != tag_img_path()
        && tag_only_show_in() != tag_entry_path() && tag_only_show_in() != tag_key_words()
        && tag_only_show_in() != tag_type());
    let e0 = empty_entry();
    let e1 = apply_cache_field(e0, fs[0]);
    assert(e1 == EntryView { name: e.name, ..e0 });
    let e2 = apply_cache_field(e1, fs[1]);
    assert(e2 == EntryView { img_path: e.img_path, ..e1 });
    let e3 = apply_cache_field(e2, fs[2]);
    assert(e3 == EntryView { entry_path: e.entry_path, ..e2 });
    let e4 = apply_cache_field(e3, fs[3]);
    assert(e3.key_words + e.key_words =~= e.key_words);
    assert(e4 == EntryView { key_words: e.key_words, ..e3 });
    let e5 = apply_cache_field(e4, fs[4]);
    assert(e5 == e4);
    let e6 = apply_cache_field(e5, fs[5]);
    assert(e6 == EntryView { entry_type: e.entry_type, ..e5 });
    let r1 = fs.drop_first();
    let r2 = r1.drop_first();
    let r3 = r2.drop_first();
    let r4 = r3.drop_first();
    let r5 = r4.drop_first();
    assert(r5.drop_first() =~= Seq::<Seq<char>>::empty());
    assert(r1[0] == fs[1] && r2[0] == fs[2] && r3[0] == fs[3] && r4[0] == fs[4] && r5[0] == fs[5]);
    assert(r5.len() == 1);
    assert(apply_cache_fields(r5.drop_first(), e6) == e6);
    assert(apply_cache_fields(r5, e5) == e6);
    assert(apply_cache_fields(r4, e4) == e6);
    assert(apply_cache_fields(r3, e3) == e6);
    assert(apply_cache_fields(r2, e2) == e6);
    assert(apply_cache_fields(r1, e1) == e6);
    assert(e6 =~= cached(e));
}

/// The cache line of `e`, cut before and after its `only_show_in` field.
proof fn lemma_cache_line_parts(e: EntryView)
    ensures
        cache_line(e) == join(cache_fields_of(e).take(4), seq![';']) + seq![';']
            + cache_fields_of(e)[4] + seq![';'] + cache_fields_of(e)[5],
{
    let fs = cache_fields_of(e);
    lemma_join_take(fs, seq![';'], 4);
    lemma_join_take(fs, seq![';'], 5);
    assert(fs.take(6) =~= fs);
}

/// The cache line writes `only_show_in` whatever it holds: for every text
/// `s` (`;` and line ends included) the line of an entry with
/// `only_show_in` set to `s` holds `Some(`, the `Debug` form of `s`, and `)`,
/// and differs from the line of the same entry without `only_show_in`.
pub proof fn lemma_only_show_in_written(e: EntryView, s: Seq<char>)
    ensures
        contains_text(
            cache_line(EntryView { only_show_in: Some(s), ..e }),
            seq!['S', 'o', 'm', 'e', '('] + debug_text(s) + seq![')'],
        ),
        cache_line(EntryView { only_show_in: Some(s), ..e }) != cache_line(
            EntryView { only_show_in: None, ..e },
        ),
{
    let es = EntryView { only_show_in: Some(s), ..e };
    let en = EntryView { only_show_in: None, ..e };
    lemma_cache_line_parts(es);
    lemma_cache_line_parts(en);
    let fs = cache_fields_of(es);
    let fn_ = cache_fields_of(en);
    assert(fs.take(4) =~= fn_.take(4));
    let head = join(fs.take(4), seq![';']) + seq![';'] + seq![' '] + tag_only_show_in()
        + colon_space();
    let v = seq!['S', 'o', 'm', 'e', '('] + debug_text(s) + seq![')'];
    let ls = cache_line(es);
    let ln = cache_line(en);
    assert(ls =~= head + v + (seq![';'] + fs[5]));
    assert(ln =~= head + seq!['N', 'o', 'n', 'e'] + (seq![';'] + fn_[5]));
    let k = head.len() as int;
    assert(ls.subrange(k, k + v.len()) =~= v);
    assert(sep_at(ls, Sep::Text(v), k));
    assert(ls[k] == 'S');
    assert(ln[k] == 'N');
}

/// Reading back the cache line of an entry gives the entry without its
/// `only_show_in`, for every entry whose fields the line keeps: text
/// fields without `;`, `: `, line ends and white space at their ends, at
/// least one keyword, and keywords that `Debug` prints between quotes
/// unescaped, without `;`, `, `, `: ` and line ends.
pub proof fn lemma_cache_line_round_trip(e: EntryView)
    requires
        cache_keeps(e),
    ensures
        parse_cache_line(cache_line(e)) == cached(e),
{
    let fs = cache_fields_of(e);
    lemma_cache_fields_free(e);
    lemma_split_join_char(fs, ';');
    lemma_cache_fields_kv(e);
    lemma_debug_list(e.key_words);
    lemma_apply_fields(e, fs);
}

/// The cache line of a kept entry is one line: no line end in it, and no
/// carriage return at its end.
#[verifier::spinoff_prover]
proof fn lemma_cache_line_one_line(e: EntryView)
    requires
        cache_keeps(e),
    ensures
        !cache_line(e).contains('\n'),
        strip_cr(cache_line(e)) == cache_line(e),
{
    let fs = cache_fields_of(e);
    lemma_separators();
    lemma_tag(tag_name());
    lemma_tag(tag_img_path());
    lemma_tag(tag_entry_path());
    lemma_tag(tag_key_words());
    lemma_tag(tag_only_show_in());
    lemma_tag(tag_type());
    lemma_debug_list(e.key_words);
    lemma_field_free(tag_name(), e.name, '\n');
    lemma_field_free(seq![' '] + tag_img_path(), e.img_path, '\n');
    lemma_field_free(seq![' '] + tag_entry_path(), e.entry_path, '\n');
    lemma_field_free(seq![' '] + tag_key_words(), debug_list(e.key_words), '\n');
    lemma_field_free(seq![' '] + tag_only_show_in(), debug_option(e.only_show_in), '\n');
    lemma_field_free(seq![' '] + tag_type(), e.entry_type, '\n');
    assert forall|i: int| 0 <= i < fs.len() implies !(#[trigger] fs[i]).contains('\n') by {}
    lemma_join_free_char(fs, seq![';'], '\n');
    // the line ends as its last field does
    lemma_join_push(fs.take(5), seq![';'], fs[5]);
    assert(fs.take(5).push(fs[5]) =~= fs);
    let line = cache_line(e);
    let t = e.entry_type;
    assert(line == join(fs.take(5), seq![';']) + seq![';'] + fs[5]);
    assert(line.last() == fs[5].last());
    if t.len() > 0 {
        lemma_trimmed_ends(t, CharSet::WhiteSpace);
        assert(fs[5].last() == t.last());
    } else {
        assert(fs[5].last() == ' ');
    }
}

/// The lines of the cache text of kept entries are their cache lines.
proof fn lemma_cache_data_lines(es: Seq<EntryView>)
    requires
        forall|i: int| 0 <= i < es.len() ==> cache_keeps(#[trigger] es[i]),
    ensures
        lines(cache_data(es)) == es.map_values(|e: EntryView| cache_line(e)),
    decreases es.len(),
{
    if es.len() == 0 {
        assert(lines(Seq::<char>::empty()) =~= Seq::<Seq<char>>::empty());
        assert(es.map_values(|e: EntryView| cache_line(e)) =~= Seq::<Seq<char>>::empty());
    } else {
        let prev = es.drop_last();
        assert forall|i: int| 0 <= i < prev.len() implies cache_keeps(#[trigger] prev[i]) by {
            assert(prev[i] == es[i]);
        }
        lemma_cache_data_lines(prev);
        let x = cache_data(prev);
        if x.len() > 0 {
            assert(prev.len() > 0);
            assert(x.last() == '\n');
        }
        assert(cache_keeps(es[es.len() - 1]));
        lemma_cache_line_one_line(es.last());
        lemma_lines_append(x, cache_line(es.last()));
        assert(es.map_values(|e: EntryView| cache_line(e)) =~= prev.map_values(
            |e: EntryView| cache_line(e),
        ).push(cache_line(es.last())));
    }
}

/// Reading back the cache text of entries gives the entries without their
/// `only_show_in`, in order, when the cache keeps every one of them (see
/// [`lemma_cache_line_round_trip`]).
pub proof fn lemma_cache_round_trip(es: Seq<EntryView>)
    requires
        forall|i: int| 0 <= i < es.len() ==> cache_keeps(#[trigger] es[i]),
    ensures
        parse_cache_text(cache_data(es)) == es.map_values(|e: EntryView| cached(e)),
{
    lemma_cache_data_lines(es);
    let ls = es.map_values(|e: EntryView| cache_line(e));
    assert forall|i: int| 0 <= i < es.len() implies #[trigger] parse_cache_line(ls[i]) == cached(es[i]) by {
        lemma_cache_line_round_trip(es[i]);
    }
    assert(parse_cache_text(cache_data(es)) =~= es.map_values(|e: EntryView| cached(e)));
}

} // verus!
