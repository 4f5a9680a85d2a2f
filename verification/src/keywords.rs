//! The search index of the menu: every lowercase name and keyword of an
//! entry is a key, and each key lists the lowercase names of the entries
//! that it stands for.  A search finds the names listed under every key
//! that starts with one of its words.
//!
//! Keys are kept in the order in which they were first added, and a search
//! reports them in that order.
use crate::entries::{entry_views, Entry, EntryView};
use crate::text::{
    begins_with, lemma_no_text_without_first, lemma_split_lead, lemma_split_no_text,
    lemma_trim_plain, lemma_trimmed_ends, split, split_chars, starts_with, trim, trim_white,
    CharSet, Pattern, Sep,
};
use crate::unicode::{chars_of, lowercase, lowercase_of};
use vstd::multiset::Multiset;
use vstd::prelude::*;

verus! {

broadcast use vstd::seq_lib::group_seq_properties;

/// A key and the names listed under it.
pub type KeyNames = (Seq<char>, Seq<Seq<char>>);

/// The search index: each key with the names of the entries that it finds.
#[derive(Debug)]
pub struct Keywords(Vec<(String, Vec<String>)>);

/// The value of one key of the index.
pub open spec fn key_names_view(p: (String, Vec<String>)) -> KeyNames {
    (p.0@, p.1@.map_values(|s: String| s@))
}

/// The value of a sequence of keys with their names.
pub open spec fn pairs_view(v: Seq<(String, Vec<String>)>) -> Seq<KeyNames> {
    v.map_values(|p: (String, Vec<String>)| key_names_view(p))
}

impl View for Keywords {
    type V = Seq<KeyNames>;

    closed spec fn view(&self) -> Seq<KeyNames> {
        pairs_view(self.0@)
    }
}

/// No key occurs twice.
pub open spec fn distinct_keys(m: Seq<KeyNames>) -> bool {
    forall|i: int, j: int| 0 <= i < m.len() && 0 <= j < m.len() && i != j ==> m[i].0 != m[j].0
}

/// Whether `key` is a key of `m`.
pub open spec fn has_key(m: Seq<KeyNames>, key: Seq<char>) -> bool {
    exists|i: int| 0 <= i < m.len() && #[trigger] m[i].0 == key
}

/// A position of `key` in `m`, when it is a key.
pub open spec fn key_pos(m: Seq<KeyNames>, key: Seq<char>) -> int {
    choose|i: int| 0 <= i < m.len() && #[trigger] m[i].0 == key
}

/// The index `m` after listing `name` under `key`: appended to the names of
/// `key` if it is a key, else under a new last key.
pub open spec fn add_name(m: Seq<KeyNames>, key: Seq<char>, name: Seq<char>) -> Seq<KeyNames> {
    if has_key(m, key) {
        let i = key_pos(m, key);
        m.update(i, (key, m[i].1.push(name)))
    } else {
        m.push((key, seq![name]))
    }
}

/// The index `m` after listing `name` under each of `keys`, in order.
pub open spec fn add_names(m: Seq<KeyNames>, keys: Seq<Seq<char>>, name: Seq<char>) -> Seq<
    KeyNames,
>
    decreases keys.len(),
{
    if keys.len() == 0 {
        m
    } else {
        add_names(add_name(m, keys[0], name), keys.drop_first(), name)
    }
}

/// The keys of an entry: its lowercase name, then its lowercase keywords.
pub open spec fn entry_keys(e: EntryView) -> Seq<Seq<char>> {
    seq![lowercase_of(e.name)] + e.key_words.map_values(|k: Seq<char>| lowercase_of(k))
}

/// The index `m` after adding the entry `e`: its lowercase name is listed
/// under each of its keys.
pub open spec fn add_entry(m: Seq<KeyNames>, e: EntryView) -> Seq<KeyNames> {
    add_names(m, entry_keys(e), lowercase_of(e.name))
}

/// The index of the entries `es`, added in order to the empty index.
pub open spec fn index_of(es: Seq<EntryView>) -> Seq<KeyNames>
    decreases es.len(),
{
    if es.len() == 0 {
        seq![]
    } else {
        add_entry(index_of(es.drop_last()), es.last())
    }
}

/// The names listed under the keys of `m` that start with `word`, key by key.
pub open spec fn names_for_word(m: Seq<KeyNames>, word: Seq<char>) -> Seq<Seq<char>>
    decreases m.len(),
{
    if m.len() == 0 {
        seq![]
    } else {
        names_for_word(m.drop_last(), word) + if starts_with(m.last().0, word) {
            m.last().1
        } else {
            seq![]
        }
    }
}

/// The names found for the words `words`, word by word; empty words find nothing.
pub open spec fn names_for_words(m: Seq<KeyNames>, words: Seq<Seq<char>>) -> Seq<Seq<char>>
    decreases words.len(),
{
    if words.len() == 0 {
        seq![]
    } else {
        names_for_words(m, words.drop_last()) + if words.last().len() == 0 {
            seq![]
        } else {
            names_for_word(m, words.last())
        }
    }
}

/// The words of a search: the search lowercased, trimmed, and split at spaces.
pub open spec fn search_words(search: Seq<char>) -> Seq<Seq<char>> {
    split(trim(lowercase_of(search)), Sep::Text(seq![' ']))
}

/// The names that the search `search` finds in `m`.
pub open spec fn search_names(m: Seq<KeyNames>, search: Seq<char>) -> Seq<Seq<char>> {
    names_for_words(m, search_words(search))
}

// ---------------------------------------------------------------------------
// Lemmas on the index
// ---------------------------------------------------------------------------

/// Adding a name keeps the keys distinct.
pub proof fn lemma_add_name_distinct(m: Seq<KeyNames>, key: Seq<char>, name: Seq<char>)
    requires
        distinct_keys(m),
    ensures
        distinct_keys(add_name(m, key, name)),
{
}

/// Adding names keeps the keys distinct.
pub proof fn lemma_add_names_distinct(m: Seq<KeyNames>, keys: Seq<Seq<char>>, name: Seq<char>)
    requires
        distinct_keys(m),
    ensures
        distinct_keys(add_names(m, keys, name)),
    decreases keys.len(),
{
    if keys.len() > 0 {
        lemma_add_name_distinct(m, keys[0], name);
        lemma_add_names_distinct(add_name(m, keys[0], name), keys.drop_first(), name);
    }
}

/// The index of any entries has distinct keys.
pub proof fn lemma_index_distinct(es: Seq<EntryView>)
    ensures
        distinct_keys(index_of(es)),
    decreases es.len(),
{
    if es.len() > 0 {
        lemma_index_distinct(es.drop_last());
        lemma_add_names_distinct(index_of(es.drop_last()), entry_keys(es.last()), lowercase_of(es.last().name));
    }
}

/// Whether `name` is listed under `key` in `m`.
pub open spec fn lists(m: Seq<KeyNames>, key: Seq<char>, name: Seq<char>) -> bool {
    exists|i: int| 0 <= i < m.len() && #[trigger] m[i].0 == key && m[i].1.contains(name)
}

/// Adding a name lists it under its key and keeps every name listed.
pub proof fn lemma_add_name_lists(
    m: Seq<KeyNames>,
    key: Seq<char>,
    name: Seq<char>,
    k2: Seq<char>,
    n2: Seq<char>,
)
    ensures
        lists(add_name(m, key, name), key, name),
        lists(m, k2, n2) ==> lists(add_name(m, key, name), k2, n2),
{
    let r = add_name(m, key, name);
    if has_key(m, key) {
        let i = key_pos(m, key);
        assert(r[i] == (key, m[i].1.push(name)));
        assert(r[i].1[r[i].1.len() - 1] == name);
        assert(r[i].1.contains(name));
        if lists(m, k2, n2) {
            let j = choose|j: int| 0 <= j < m.len() && #[trigger] m[j].0 == k2 && m[j].1.contains(n2);
            if j == i {
                let t = choose|t: int| 0 <= t < m[j].1.len() && m[j].1[t] == n2;
                assert(r[j].1[t] == n2);
                assert(r[j].0 == k2);
            } else {
                assert(r[j] == m[j]);
            }
        }
    } else {
        assert(r[m.len() as int].0 == key);
        assert(r[m.len() as int].1[0] == name);
        if lists(m, k2, n2) {
            let j = choose|j: int| 0 <= j < m.len() && #[trigger] m[j].0 == k2 && m[j].1.contains(n2);
            assert(r[j] == m[j]);
        }
    }
}

/// Adding names lists the name under each of the keys and keeps every name listed.
pub proof fn lemma_add_names_lists(
    m: Seq<KeyNames>,
    keys: Seq<Seq<char>>,
    name: Seq<char>,
    k2: Seq<char>,
    n2: Seq<char>,
)
    ensures
        keys.contains(k2) && n2 == name ==> lists(add_names(m, keys, name), k2, n2),
        lists(m, k2, n2) ==> lists(add_names(m, keys, name), k2, n2),
    decreases keys.len(),
{
    if keys.len() > 0 {
        let m1 = add_name(m, keys[0], name);
        lemma_add_name_lists(m, keys[0], name, k2, n2);
        lemma_add_names_lists(m1, keys.drop_first(), name, k2, n2);
        if keys.contains(k2) && n2 == name {
            if keys[0] == k2 {
            } else {
                let t = choose|t: int| 0 <= t < keys.len() && keys[t] == k2;
                assert(keys.drop_first()[t - 1] == k2);
            }
        }
    }
}

/// The index of `es` lists the lowercase name of each entry under each of its keys.
pub proof fn lemma_index_lists(es: Seq<EntryView>, i: int, key: Seq<char>)
    requires
        0 <= i < es.len(),
        entry_keys(es[i]).contains(key),
    ensures
        lists(index_of(es), key, lowercase_of(es[i].name)),
    decreases es.len(),
{
    let prev = es.drop_last();
    let e = es.last();
    if i == es.len() - 1 {
        lemma_add_names_lists(index_of(prev), entry_keys(e), lowercase_of(e.name), key, lowercase_of(e.name));
    } else {
        assert(prev[i] == es[i]);
        lemma_index_lists(prev, i, key);
        lemma_add_names_lists(index_of(prev), entry_keys(e), lowercase_of(e.name), key, lowercase_of(es[i].name));
    }
}

/// A search for one word finds every name listed under a key starting with it.
pub proof fn lemma_names_for_word(m: Seq<KeyNames>, word: Seq<char>, key: Seq<char>, name: Seq<char>)
    requires
        lists(m, key, name),
        starts_with(key, word),
    ensures
        names_for_word(m, word).contains(name),
    decreases m.len(),
{
    let j = choose|j: int| 0 <= j < m.len() && #[trigger] m[j].0 == key && m[j].1.contains(name);
    if j == m.len() - 1 {
        let t = choose|t: int| 0 <= t < m[j].1.len() && m[j].1[t] == name;
        let prev = names_for_word(m.drop_last(), word);
        assert(names_for_word(m, word)[prev.len() + t] == name);
    } else {
        assert(m.drop_last()[j] == m[j]);
        lemma_names_for_word(m.drop_last(), word, key, name);
        let prev = names_for_word(m.drop_last(), word);
        let t = choose|t: int| 0 <= t < prev.len() && prev[t] == name;
        assert(names_for_word(m, word)[t] == name);
    }
}

/// A search for one word finds only names listed under a key that starts
/// with the word.
proof fn lemma_word_finds_only_listed(m: Seq<KeyNames>, word: Seq<char>, name: Seq<char>)
    requires
        names_for_word(m, word).contains(name),
    ensures
        exists|key: Seq<char>| #[trigger] lists(m, key, name) && starts_with(key, word),
    decreases m.len(),
{
    let prev = names_for_word(m.drop_last(), word);
    let r = names_for_word(m, word);
    let t = choose|t: int| 0 <= t < r.len() && r[t] == name;
    if t < prev.len() {
        assert(prev[t] == name);
        lemma_word_finds_only_listed(m.drop_last(), word, name);
        let key = choose|key: Seq<char>| #[trigger] lists(m.drop_last(), key, name) && starts_with(key, word);
        let j = choose|j: int| 0 <= j < m.drop_last().len() && #[trigger] m.drop_last()[j].0 == key
            && m.drop_last()[j].1.contains(name);
        assert(m[j] == m.drop_last()[j]);
        assert(lists(m, key, name));
    } else {
        let j = m.len() - 1;
        assert(starts_with(m.last().0, word));
        assert(m.last().1[t - prev.len()] == name);
        assert(m[j] == m.last());
        assert(lists(m, m.last().0, name));
    }
}

/// A search finds only what the index lists under a key that starts with
/// one of its words: every name that the search `s` finds in `m` is listed
/// under some key of `m` that starts with a non-empty word of `s`.
pub proof fn lemma_search_finds_only_listed(m: Seq<KeyNames>, s: Seq<char>, name: Seq<char>)
    requires
        search_names(m, s).contains(name),
    ensures
        exists|q: int, key: Seq<char>|
            0 <= q < search_words(s).len() && search_words(s)[q].len() > 0 && #[trigger] lists(
                m,
                key,
                name,
            ) && starts_with(key, #[trigger] search_words(s)[q]),
{
    lemma_words_find_only_listed(m, search_words(s), name);
}

/// [`lemma_search_finds_only_listed`], for any sequence of words.
proof fn lemma_words_find_only_listed(m: Seq<KeyNames>, ws: Seq<Seq<char>>, name: Seq<char>)
    requires
        names_for_words(m, ws).contains(name),
    ensures
        exists|q: int, key: Seq<char>|
            0 <= q < ws.len() && ws[q].len() > 0 && #[trigger] lists(m, key, name) && starts_with(
                key,
                #[trigger] ws[q],
            ),
    decreases ws.len(),
{
    let prev = names_for_words(m, ws.drop_last());
    let r = names_for_words(m, ws);
    let t = choose|t: int| 0 <= t < r.len() && r[t] == name;
    if t < prev.len() {
        assert(prev[t] == name);
        lemma_words_find_only_listed(m, ws.drop_last(), name);
        let (q, key) = choose|q: int, key: Seq<char>|
            0 <= q < ws.drop_last().len() && ws.drop_last()[q].len() > 0 && #[trigger] lists(
                m,
                key,
                name,
            ) && starts_with(key, #[trigger] ws.drop_last()[q]);
        assert(ws[q] == ws.drop_last()[q]);
    } else {
        let q = ws.len() - 1;
        assert(ws.last().len() > 0);
        assert(names_for_word(m, ws.last())[t - prev.len()] == name);
        lemma_word_finds_only_listed(m, ws.last(), name);
        let key = choose|key: Seq<char>| #[trigger] lists(m, key, name) && starts_with(key, ws.last());
        assert(ws[q] == ws.last());
    }
}

/// A search made of one word, already lowercase and without spaces at its
/// ends or inside, has that word as its only word.
pub proof fn lemma_one_word(alias: Seq<char>)
    requires
        lowercase_of(alias).len() > 0,
        !lowercase_of(alias).contains(' '),
        trim(lowercase_of(alias)) == lowercase_of(alias),
    ensures
        search_words(alias) == seq![lowercase_of(alias)],
{
    let w = lowercase_of(alias);
    assert forall|k: int| 0 <= k < w.len() implies !#[trigger] crate::text::sep_at(
        w,
        Sep::Text(seq![' ']),
        k,
    ) by {
        if crate::text::sep_at(w, Sep::Text(seq![' ']), k) {
            assert(w.subrange(k, k + 1)[0] == ' ');
            assert(w[k] == ' ');
        }
    }
    crate::text::lemma_split_none(w, Sep::Text(seq![' ']));
}

/// The search ignores case: two searches whose lowercase forms are equal
/// find the same names, in the same order, whatever else differs between them
/// (`Web Browser` and `web browser`, for instance).
pub proof fn lemma_search_case_free(m: Seq<KeyNames>, s: Seq<char>, t: Seq<char>)
    requires
        lowercase_of(s) == lowercase_of(t),
    ensures
        search_names(m, s) == search_names(m, t),
{
}

/// A search of two words finds what the two one-word searches find, one
/// after the other: when the lowercase form of `s` is the lowercase form of
/// `s1`, a space, and the lowercase form of `s2`, each of these one word (not
/// empty, no space in it, no white space at its ends).
pub proof fn lemma_two_word_search(m: Seq<KeyNames>, s: Seq<char>, s1: Seq<char>, s2: Seq<char>)
    requires
        lowercase_of(s) == lowercase_of(s1) + seq![' '] + lowercase_of(s2),
        lowercase_of(s1).len() > 0,
        !lowercase_of(s1).contains(' '),
        trim(lowercase_of(s1)) == lowercase_of(s1),
        lowercase_of(s2).len() > 0,
        !lowercase_of(s2).contains(' '),
        trim(lowercase_of(s2)) == lowercase_of(s2),
    ensures
        search_names(m, s) == search_names(m, s1) + search_names(m, s2),
{
    let w1 = lowercase_of(s1);
    let w2 = lowercase_of(s2);
    let w = lowercase_of(s);
    let sp = seq![' '];
    lemma_one_word(s1);
    lemma_one_word(s2);
    lemma_trimmed_ends(w1, CharSet::WhiteSpace);
    lemma_trimmed_ends(w2, CharSet::WhiteSpace);
    assert(w[0] == w1[0]);
    assert(w.last() == w2.last());
    lemma_trim_plain(w, CharSet::WhiteSpace);
    assert(sp[0] == ' ');
    lemma_split_lead(w1, sp, w2);
    lemma_no_text_without_first(w2, sp);
    lemma_split_no_text(w2, sp);
    let words = search_words(s);
    assert(words =~= seq![w1, w2]);
    assert(words.drop_last() =~= seq![w1]);
    assert(seq![w1].drop_last() =~= Seq::<Seq<char>>::empty());
    assert(seq![w2].drop_last() =~= Seq::<Seq<char>>::empty());
    assert(names_for_words(m, Seq::<Seq<char>>::empty()) =~= Seq::<Seq<char>>::empty());
    assert(names_for_words(m, seq![w1]) =~= names_for_word(m, w1));
    assert(names_for_words(m, seq![w2]) =~= names_for_word(m, w2));
}

/// Searching for the name or for a keyword of an entry finds that entry:
/// in the index of `es`, a search for the name or a keyword `alias` of the
/// entry `es[i]` finds the lowercase name of `es[i]`, provided that the
/// lowercase of `alias` is one word (not empty, no space in it, no white
/// space at its ends).
pub proof fn lemma_entry_found_by_alias(es: Seq<EntryView>, i: int, alias: Seq<char>)
    requires
        0 <= i < es.len(),
        alias == es[i].name || es[i].key_words.contains(alias),
        lowercase_of(alias).len() > 0,
        !lowercase_of(alias).contains(' '),
        trim(lowercase_of(alias)) == lowercase_of(alias),
    ensures
        search_names(index_of(es), alias).contains(lowercase_of(es[i].name)),
{
    let w = lowercase_of(alias);
    let keys = entry_keys(es[i]);
    if alias == es[i].name {
        assert(keys[0] == w);
    } else {
        let t = choose|t: int| 0 <= t < es[i].key_words.len() && es[i].key_words[t] == alias;
        assert(keys[1 + t] == w);
    }
    assert(keys.contains(w));
    lemma_index_lists(es, i, w);
    assert(starts_with(w, w)) by {
        assert(w.take(w.len() as int) =~= w);
    }
    lemma_names_for_word(index_of(es), w, w, lowercase_of(es[i].name));
    lemma_one_word(alias);
    let words = seq![w];
    assert(words.drop_last() =~= Seq::<Seq<char>>::empty());
    assert(words.last() == w);
    assert(names_for_words(index_of(es), words.drop_last()) == Seq::<Seq<char>>::empty());
    assert(names_for_words(index_of(es), words) =~= names_for_word(index_of(es), w));
}

// ---------------------------------------------------------------------------
// How the index grows
// ---------------------------------------------------------------------------

/// Every key of `m` lists at least one name.
pub open spec fn lists_nonempty(m: Seq<KeyNames>) -> bool {
    forall|i: int| 0 <= i < m.len() ==> (#[trigger] m[i]).1.len() > 0
}

/// `m2` is `m` with `name` added and nothing else: the keys of `m` keep
/// their places and their names as a prefix, every name added is `name`,
/// and every new key is one of `keys`.
pub open spec fn grows_by(m: Seq<KeyNames>, m2: Seq<KeyNames>, keys: Seq<Seq<char>>, name: Seq<char>) -> bool {
    &&& m.len() <= m2.len()
    &&& forall|i: int|
        0 <= i < m.len() ==> (#[trigger] m2[i]).0 == m[i].0 && m[i].1.len() <= m2[i].1.len()
            && m2[i].1.take(m[i].1.len() as int) == m[i].1
    &&& forall|i: int, j: int|
        0 <= i < m2.len() && 0 <= j < m2[i].1.len() && (i >= m.len() || j >= m[i].1.len())
            ==> #[trigger] m2[i].1[j] == name
    &&& forall|i: int| m.len() <= i < m2.len() ==> keys.contains(#[trigger] m2[i].0)
}

/// Listing a name under a key grows the index by that name alone.
proof fn lemma_add_name_grows(m: Seq<KeyNames>, key: Seq<char>, name: Seq<char>, keys: Seq<Seq<char>>)
    requires
        keys.contains(key),
    ensures
        grows_by(m, add_name(m, key, name), keys, name),
        lists_nonempty(m) ==> lists_nonempty(add_name(m, key, name)),
{
    let r = add_name(m, key, name);
    if has_key(m, key) {
        let p = key_pos(m, key);
        assert(r[p].1 == m[p].1.push(name));
        assert(r[p].1.take(m[p].1.len() as int) =~= m[p].1);
        assert forall|i: int, j: int|
            0 <= i < r.len() && 0 <= j < r[i].1.len() && (i >= m.len() || j >= m[i].1.len())
            implies #[trigger] r[i].1[j] == name by {
            if i != p {
                assert(r[i] == m[i]);
            }
        }
        assert forall|i: int| 0 <= i < m.len() implies (#[trigger] r[i]).0 == m[i].0
            && m[i].1.len() <= r[i].1.len() && r[i].1.take(m[i].1.len() as int) == m[i].1 by {
            if i != p {
                assert(r[i] == m[i]);
                assert(m[i].1.take(m[i].1.len() as int) =~= m[i].1);
            }
        }
        if lists_nonempty(m) {
            assert forall|i: int| 0 <= i < r.len() implies (#[trigger] r[i]).1.len() > 0 by {
                if i != p {
                    assert(r[i] == m[i]);
                }
            }
        }
    } else {
        assert(r[m.len() as int] == (key, seq![name]));
        assert forall|i: int| 0 <= i < m.len() implies (#[trigger] r[i]).0 == m[i].0
            && m[i].1.len() <= r[i].1.len() && r[i].1.take(m[i].1.len() as int) == m[i].1 by {
            assert(r[i] == m[i]);
            assert(m[i].1.take(m[i].1.len() as int) =~= m[i].1);
        }
        assert forall|i: int, j: int|
            0 <= i < r.len() && 0 <= j < r[i].1.len() && (i >= m.len() || j >= m[i].1.len())
            implies #[trigger] r[i].1[j] == name by {
            if i < m.len() {
                assert(r[i] == m[i]);
            }
        }
        if lists_nonempty(m) {
            assert forall|i: int| 0 <= i < r.len() implies (#[trigger] r[i]).1.len() > 0 by {
                if i < m.len() {
                    assert(r[i] == m[i]);
                }
            }
        }
    }
}

/// Growing by a name twice is growing by it once.
proof fn lemma_grows_trans(
    m1: Seq<KeyNames>,
    m2: Seq<KeyNames>,
    m3: Seq<KeyNames>,
    keys: Seq<Seq<char>>,
    name: Seq<char>,
)
    requires
        grows_by(m1, m2, keys, name),
        grows_by(m2, m3, keys, name),
    ensures
        grows_by(m1, m3, keys, name),
{
    assert forall|i: int| 0 <= i < m1.len() implies (#[trigger] m3[i]).0 == m1[i].0
        && m1[i].1.len() <= m3[i].1.len() && m3[i].1.take(m1[i].1.len() as int) == m1[i].1 by {
        assert(m2[i].0 == m1[i].0);
        assert(m3[i].0 == m2[i].0);
        assert(m3[i].1.take(m1[i].1.len() as int) =~= m3[i].1.take(m2[i].1.len() as int).take(
            m1[i].1.len() as int,
        ));
    }
    assert forall|i: int, j: int|
        0 <= i < m3.len() && 0 <= j < m3[i].1.len() && (i >= m1.len() || j >= m1[i].1.len())
        implies #[trigger] m3[i].1[j] == name by {
        if i < m2.len() && j < m2[i].1.len() {
            assert(m3[i].1.take(m2[i].1.len() as int)[j] == m3[i].1[j]);
            assert(m2[i].1[j] == name);
        } else {
            assert(m3[i].1[j] == name);
        }
    }
    assert forall|i: int| m1.len() <= i < m3.len() implies keys.contains(#[trigger] m3[i].0) by {
        if i < m2.len() {
            assert(m2[i].0 == m3[i].0);
        }
    }
}

/// Listing a name under several keys grows the index by that name alone.
proof fn lemma_add_names_grows(m: Seq<KeyNames>, ks: Seq<Seq<char>>, name: Seq<char>, keys: Seq<Seq<char>>)
    requires
        forall|i: int| 0 <= i < ks.len() ==> keys.contains(#[trigger] ks[i]),
    ensures
        grows_by(m, add_names(m, ks, name), keys, name),
        lists_nonempty(m) ==> lists_nonempty(add_names(m, ks, name)),
    decreases ks.len(),
{
    if ks.len() == 0 {
        assert forall|i: int| 0 <= i < m.len() implies (#[trigger] m[i]).0 == m[i].0
            && m[i].1.len() <= m[i].1.len() && m[i].1.take(m[i].1.len() as int) == m[i].1 by {
            assert(m[i].1.take(m[i].1.len() as int) =~= m[i].1);
        }
    } else {
        let m1 = add_name(m, ks[0], name);
        lemma_add_name_grows(m, ks[0], name, keys);
        let rest = ks.drop_first();
        assert forall|i: int| 0 <= i < rest.len() implies keys.contains(#[trigger] rest[i]) by {
            assert(rest[i] == ks[i + 1]);
        }
        lemma_add_names_grows(m1, rest, name, keys);
        lemma_grows_trans(m, m1, add_names(m1, rest, name), keys, name);
    }
}

/// Adding an entry only adds its lowercase name: the old keys keep their
/// places and their names as a prefix, what is added is the entry's
/// lowercase name, every new key is one of the entry's keys, and when every
/// key listed a name before, every key still does.
pub proof fn lemma_add_entry_grows(m: Seq<KeyNames>, e: EntryView)
    ensures
        grows_by(m, add_entry(m, e), entry_keys(e), lowercase_of(e.name)),
        lists_nonempty(m) ==> lists_nonempty(add_entry(m, e)),
{
    let ks = entry_keys(e);
    assert forall|i: int| 0 <= i < ks.len() implies ks.contains(#[trigger] ks[i]) by {}
    lemma_add_names_grows(m, ks, lowercase_of(e.name), ks);
}

/// Every key of the index of any entries lists at least one name.
pub proof fn lemma_index_nonempty(es: Seq<EntryView>)
    ensures
        lists_nonempty(index_of(es)),
    decreases es.len(),
{
    if es.len() > 0 {
        lemma_index_nonempty(es.drop_last());
        lemma_add_entry_grows(index_of(es.drop_last()), es.last());
    }
}

// ---------------------------------------------------------------------------
// The index does not depend on the order of the entries
// ---------------------------------------------------------------------------

/// The names listed under `key` in `m`, as a multiset (empty when it is no key).
pub open spec fn names_under(m: Seq<KeyNames>, key: Seq<char>) -> Multiset<Seq<char>> {
    if has_key(m, key) {
        m[key_pos(m, key)].1.to_multiset()
    } else {
        Multiset::empty()
    }
}

/// `name` once for each time that `key` is among `keys`.
pub open spec fn copies_for(keys: Seq<Seq<char>>, key: Seq<char>, name: Seq<char>) -> Multiset<Seq<char>>
    decreases keys.len(),
{
    if keys.len() == 0 {
        Multiset::empty()
    } else {
        (if keys[0] == key {
            Multiset::singleton(name)
        } else {
            Multiset::empty()
        }).add(copies_for(keys.drop_first(), key, name))
    }
}

/// What the entry `e` lists under `key`.
pub open spec fn entry_share(e: EntryView, key: Seq<char>) -> Multiset<Seq<char>> {
    copies_for(entry_keys(e), key, lowercase_of(e.name))
}

/// What the entries `es` list under `key`, together.
pub open spec fn entries_share(es: Seq<EntryView>, key: Seq<char>) -> Multiset<Seq<char>>
    decreases es.len(),
{
    if es.len() == 0 {
        Multiset::empty()
    } else {
        entries_share(es.drop_last(), key).add(entry_share(es.last(), key))
    }
}

/// With distinct keys, `key_pos` finds the one place of a key.
proof fn lemma_key_pos_unique(m: Seq<KeyNames>, key: Seq<char>, i: int)
    requires
        distinct_keys(m),
        0 <= i < m.len(),
        m[i].0 == key,
    ensures
        has_key(m, key),
        key_pos(m, key) == i,
{
    assert(has_key(m, key));
    let p = key_pos(m, key);
    assert(m[p].0 == key);
}

/// What listing a name under a key adds to the names of each key.
proof fn lemma_add_name_names(m: Seq<KeyNames>, k: Seq<char>, n: Seq<char>, key: Seq<char>)
    requires
        distinct_keys(m),
    ensures
        names_under(add_name(m, k, n), key) == names_under(m, key).add(
            if k == key {
                Multiset::singleton(n)
            } else {
                Multiset::empty()
            },
        ),
{
    broadcast use vstd::seq_lib::group_to_multiset_ensures;
    broadcast use vstd::multiset::group_multiset_axioms;

    let r = add_name(m, k, n);
    lemma_add_name_distinct(m, k, n);
    if has_key(m, k) {
        let p = key_pos(m, k);
        assert(r[p].0 == k);
        if key == k {
            lemma_key_pos_unique(r, key, p);
            lemma_key_pos_unique(m, key, p);
            assert(r[p].1 == m[p].1.push(n));
            assert(names_under(r, key) =~= names_under(m, key).add(Multiset::singleton(n)));
        } else {
            if has_key(m, key) {
                let q = key_pos(m, key);
                assert(q != p);
                assert(r[q] == m[q]);
                lemma_key_pos_unique(r, key, q);
            } else {
                if has_key(r, key) {
                    let q = key_pos(r, key);
                    assert(q != p);
                    assert(r[q] == m[q]);
                }
            }
            assert(names_under(r, key) =~= names_under(m, key).add(Multiset::empty()));
        }
    } else {
        let p = m.len() as int;
        assert(r[p] == (k, seq![n]));
        if key == k {
            lemma_key_pos_unique(r, key, p);
            assert(seq![n] =~= Seq::<Seq<char>>::empty().push(n));
            assert(names_under(r, key) =~= names_under(m, key).add(Multiset::singleton(n)));
        } else {
            if has_key(m, key) {
                let q = key_pos(m, key);
                assert(r[q] == m[q]);
                lemma_key_pos_unique(r, key, q);
            } else {
                if has_key(r, key) {
                    let q = key_pos(r, key);
                    assert(q != p);
                    assert(r[q] == m[q]);
                }
            }
            assert(names_under(r, key) =~= names_under(m, key).add(Multiset::empty()));
        }
    }
}

/// What listing a name under several keys adds to the names of each key.
proof fn lemma_add_names_names(m: Seq<KeyNames>, ks: Seq<Seq<char>>, n: Seq<char>, key: Seq<char>)
    requires
        distinct_keys(m),
    ensures
        names_under(add_names(m, ks, n), key) == names_under(m, key).add(copies_for(ks, key, n)),
    decreases ks.len(),
{
    broadcast use vstd::multiset::group_multiset_axioms;

    if ks.len() == 0 {
        assert(names_under(m, key) =~= names_under(m, key).add(Multiset::empty()));
    } else {
        let m1 = add_name(m, ks[0], n);
        lemma_add_name_names(m, ks[0], n, key);
        lemma_add_name_distinct(m, ks[0], n);
        lemma_add_names_names(m1, ks.drop_first(), n, key);
        let first = if ks[0] == key {
            Multiset::singleton(n)
        } else {
            Multiset::empty()
        };
        assert(names_under(m, key).add(first).add(copies_for(ks.drop_first(), key, n)) =~= names_under(
            m,
            key,
        ).add(first.add(copies_for(ks.drop_first(), key, n))));
    }
}

/// The names that the index of `es` lists under `key` are what the entries list there.
pub proof fn lemma_index_names(es: Seq<EntryView>, key: Seq<char>)
    ensures
        names_under(index_of(es), key) == entries_share(es, key),
    decreases es.len(),
{
    broadcast use vstd::multiset::group_multiset_axioms;

    if es.len() == 0 {
        assert(names_under(Seq::<KeyNames>::empty(), key) =~= Multiset::empty());
    } else {
        lemma_index_names(es.drop_last(), key);
        lemma_index_distinct(es.drop_last());
        lemma_add_names_names(index_of(es.drop_last()), entry_keys(es.last()), lowercase_of(es.last().name), key);
    }
}

/// Taking one entry out of the entries takes out what it lists.
proof fn lemma_entries_share_remove(es: Seq<EntryView>, j: int, key: Seq<char>)
    requires
        0 <= j < es.len(),
    ensures
        entries_share(es, key) == entries_share(es.remove(j), key).add(entry_share(es[j], key)),
    decreases es.len(),
{
    broadcast use vstd::multiset::group_multiset_axioms;

    if j == es.len() - 1 {
        assert(es.remove(j) =~= es.drop_last());
    } else {
        let d = es.drop_last();
        lemma_entries_share_remove(d, j, key);
        assert(es.remove(j).drop_last() =~= d.remove(j));
        assert(es.remove(j).last() == es.last());
        assert(d[j] == es[j]);
        assert(entries_share(es, key) =~= entries_share(es.remove(j), key).add(entry_share(es[j], key)));
    }
}

/// Entries in another order list the same names under each key.
proof fn lemma_entries_share_perm(es1: Seq<EntryView>, es2: Seq<EntryView>, key: Seq<char>)
    requires
        es1.to_multiset() == es2.to_multiset(),
    ensures
        entries_share(es1, key) == entries_share(es2, key),
    decreases es1.len(),
{
    broadcast use vstd::seq_lib::group_to_multiset_ensures;
    broadcast use vstd::multiset::group_multiset_axioms;

    if es1.len() == 0 {
        assert(es2.to_multiset().len() == 0);
        assert(es2.len() == 0);
    } else {
        let x = es1.last();
        let d = es1.drop_last();
        assert(d.push(x) =~= es1);
        assert(es1.to_multiset() =~= d.to_multiset().insert(x));
        assert(es1.to_multiset().count(x) > 0);
        assert(es2.contains(x));
        let j = choose|j: int| 0 <= j < es2.len() && es2[j] == x;
        let r = es2.remove(j);
        assert(r.to_multiset() =~= es2.to_multiset().remove(x));
        assert(d.to_multiset() =~= r.to_multiset());
        lemma_entries_share_perm(d, r, key);
        lemma_entries_share_remove(es2, j, key);
    }
}

/// With every key listing a name, a key is a key exactly when names are listed under it.
proof fn lemma_has_key_names(m: Seq<KeyNames>, key: Seq<char>)
    requires
        lists_nonempty(m),
    ensures
        has_key(m, key) == (names_under(m, key).len() > 0),
{
    broadcast use vstd::seq_lib::group_to_multiset_ensures;
    broadcast use vstd::multiset::group_multiset_axioms;

    if has_key(m, key) {
        let p = key_pos(m, key);
        assert(m[p].1.len() > 0);
        assert(m[p].1.to_multiset().len() == m[p].1.len());
    }
}

/// The index does not depend on the order of the entries: the index of the
/// entries in another order has the same keys, and lists the same names
/// under each key, in another order.
pub proof fn lemma_index_order_free(es1: Seq<EntryView>, es2: Seq<EntryView>, key: Seq<char>)
    requires
        es1.to_multiset() == es2.to_multiset(),
    ensures
        has_key(index_of(es1), key) == has_key(index_of(es2), key),
        names_under(index_of(es1), key) == names_under(index_of(es2), key),
{
    lemma_index_names(es1, key);
    lemma_index_names(es2, key);
    lemma_entries_share_perm(es1, es2, key);
    lemma_index_nonempty(es1);
    lemma_index_nonempty(es2);
    lemma_has_key_names(index_of(es1), key);
    lemma_has_key_names(index_of(es2), key);
}

// ---------------------------------------------------------------------------
// Executable index
// ---------------------------------------------------------------------------

/// The position of `key` among `pairs`, if it is a key there.
fn position(pairs: &Vec<(String, Vec<String>)>, key: &String) -> (r: Option<usize>)
    ensures
        match r {
            Some(i) => i < pairs@.len() && pairs_view(pairs@)[i as int].0 == key@,
            None => !has_key(pairs_view(pairs@), key@),
        },
{
    let ghost m = pairs_view(pairs@);
    let mut i: usize = 0;
    while i < pairs.len()
        invariant
            i <= pairs.len(),
            m == pairs_view(pairs@),
            forall|j: int| 0 <= j < i ==> m[j].0 != key@,
        decreases pairs.len() - i,
    {
        assert(m[i as int] == key_names_view(pairs@[i as int]));
        if pairs[i].0 == *key {
            return Some(i);
        }
        i = i + 1;
    }
    None
}

/// Lists `name` under `key` in `pairs`.
fn add_to_pairs(pairs: &mut Vec<(String, Vec<String>)>, key: String, name: String)
    requires
        distinct_keys(pairs_view(old(pairs)@)),
    ensures
        pairs_view(final(pairs)@) == add_name(pairs_view(old(pairs)@), key@, name@),
{
    let ghost m = pairs_view(pairs@);
    match position(pairs, &key) {
        Some(i) => {
            let ghost old0 = pairs@;
            let (k, mut names) = pairs.remove(i);
            names.push(name);
            let ghost p = (k, names);
            pairs.insert(i, (k, names));
            proof {
                let c = key_pos(m, key@);
                assert(m[c].0 == key@);
                assert(c == i);
                assert(pairs@ =~= old0.update(i as int, p));
                assert(m[i as int] == key_names_view(old0[i as int]));
                assert(key_names_view(p).1 =~= m[i as int].1.push(name@));
                let target = m.update(c, (key@, m[c].1.push(name@)));
                assert forall|j: int| 0 <= j < pairs_view(pairs@).len() implies pairs_view(pairs@)[j]
                    == target[j] by {
                    if j != i {
                        assert(pairs@[j] == old0[j]);
                    }
                }
                assert(pairs_view(pairs@) =~= target);
            }
        },
        None => {
            let ghost old0 = pairs@;
            let ghost kv = key@;
            let ghost nv = name@;
            let mut names = Vec::new();
            names.push(name);
            let ghost p = (key, names);
            pairs.push((key, names));
            proof {
                assert(pairs@ =~= old0.push(p));
                assert(key_names_view(p).1 =~= seq![nv]);
                assert(pairs_view(pairs@) =~= m.push((kv, seq![nv])));
            }
        },
    }
}

impl Keywords {
    /// The index holds distinct keys.
    #[verifier::type_invariant]
    spec fn wf(self) -> bool {
        distinct_keys(self@)
    }

    /// The empty index.
    pub fn new() -> (r: Keywords)
        ensures
            r@ == Seq::<KeyNames>::empty(),
    {
        let r = Keywords(Vec::new());
        assert(r@ =~= Seq::<KeyNames>::empty());
        r
    }

    /// Lists `name` under `key`.
    fn add(&mut self, key: String, name: String)
        ensures
            final(self)@ == add_name(old(self)@, key@, name@),
    {
        proof {
            use_type_invariant(&*self);
        }
        let ghost m = self@;
        proof {
            lemma_add_name_distinct(m, key@, name@);
        }
        let mut pairs: Vec<(String, Vec<String>)> = Vec::new();
        std::mem::swap(&mut pairs, &mut self.0);
        assert(pairs_view(pairs@) == m);
        add_to_pairs(&mut pairs, key, name);
        self.0 = pairs;
    }

    /// Adds the entry `entry`: its lowercase name is listed under its
    /// lowercase name and under each of its lowercase keywords.
    pub fn gen_keywords_for_entry(&mut self, entry: &Entry)
        ensures
            final(self)@ == add_entry(old(self)@, entry@),
    {
        let name = lowercase(entry.name.as_str());
        let ghost keys = entry_keys(entry@);
        let ghost m0 = self@;
        proof {
            assert(keys[0] == name@);
            assert(keys.drop_first() =~= entry@.key_words.map_values(|k: Seq<char>| lowercase_of(k)));
        }
        self.add(name.clone(), name.clone());
        let mut i: usize = 0;
        while i < entry.key_words.len()
            invariant
                i <= entry.key_words.len(),
                keys == entry_keys(entry@),
                name@ == lowercase_of(entry@.name),
                add_entry(m0, entry@) == add_names(self@, keys.skip(i + 1), name@),
            decreases entry.key_words.len() - i,
        {
            let keyword = lowercase(entry.key_words[i].as_str());
            proof {
                assert(keys.skip(i + 1)[0] == keyword@);
                assert(keys.skip(i + 1).drop_first() =~= keys.skip(i + 2));
            }
            self.add(keyword, name.clone());
            i = i + 1;
        }
        assert(keys.skip(i + 1) =~= Seq::<Seq<char>>::empty());
    }

    /// The index of `entries`, added in order.
    pub fn _from(entries: &[Entry]) -> (r: Keywords)
        ensures
            r@ == index_of(entry_views(entries@)),
    {
        let mut result = Keywords::new();
        let ghost ev = entry_views(entries@);
        let mut i: usize = 0;
        while i < entries.len()
            invariant
                i <= entries.len(),
                ev == entry_views(entries@),
                result@ == index_of(ev.take(i as int)),
            decreases entries.len() - i,
        {
            proof {
                assert(ev.take(i + 1).drop_last() =~= ev.take(i as int));
                assert(ev.take(i + 1).last() == entries@[i as int]@);
            }
            result.gen_keywords_for_entry(&entries[i]);
            i = i + 1;
        }
        assert(ev.take(entries.len() as int) =~= ev);
        result
    }

    /// The names found for one non-empty word, key by key.
    fn match_word<'a>(&'a self, word: &Vec<char>, matching: &mut Vec<&'a str>)
        ensures
            final(matching)@.map_values(|s: &str| s@) == old(matching)@.map_values(|s: &str| s@)
                + names_for_word(self@, word@),
    {
        let ghost start = old(matching)@.map_values(|s: &str| s@);
        let mut i: usize = 0;
        while i < self.0.len()
            invariant
                i <= self.0.len(),
                matching@.map_values(|s: &str| s@) =~= start + names_for_word(
                    self@.take(i as int),
                    word@,
                ),
            decreases self.0.len() - i,
        {
            let key = chars_of(self.0[i].0.as_str());
            let ghost kn = key_names_view(self.0@[i as int]);
            assert(self@[i as int] == kn);
            assert(self@.take(i + 1).drop_last() =~= self@.take(i as int));
            assert(self@.take(i + 1).last() == kn);
            if begins_with(&key, word) {
                let names = &self.0[i].1;
                let ghost before = matching@.map_values(|s: &str| s@);
                let mut j: usize = 0;
                while j < names.len()
                    invariant
                        j <= names.len(),
                        kn.1 == names@.map_values(|s: String| s@),
                        matching@.map_values(|s: &str| s@) =~= before + kn.1.take(j as int),
                    decreases names.len() - j,
                {
                    let ghost prev = matching@;
                    let item = names[j].as_str();
                    matching.push(item);
                    assert(matching@.map_values(|s: &str| s@) =~= prev.map_values(|s: &str| s@).push(item@));
                    assert(kn.1[j as int] == names@[j as int]@);
                    assert(kn.1.take(j + 1) =~= kn.1.take(j as int).push(kn.1[j as int]));
                    j = j + 1;
                }
                assert(kn.1.take(names.len() as int) =~= kn.1);
            }
            i = i + 1;
        }
        assert(self@.take(self.0.len() as int) =~= self@);
    }

    /// The names that the search `search` finds: the search is lowercased,
    /// trimmed and split at spaces; for each non-empty word in turn, the
    /// names listed under each key that starts with the word, key by key.
    pub fn match_keywords<'a>(&'a self, search: &str) -> (r: Vec<&'a str>)
        ensures
            r@.map_values(|s: &str| s@) == search_names(self@, search@),
    {
        let low = chars_of(lowercase(search).as_str());
        let trimmed = trim_white(&low);
        let space = vec![' '];
        assert(space@ =~= seq![' ']);
        let words = split_chars(&trimmed, &Pattern::Text(space));
        let ghost wv = search_words(search@);
        assert(crate::text::views(words@) == wv);
        let mut matching: Vec<&'a str> = Vec::new();
        let mut i: usize = 0;
        while i < words.len()
            invariant
                i <= words.len(),
                crate::text::views(words@) == wv,
                matching@.map_values(|s: &str| s@) =~= names_for_words(self@, wv.take(i as int)),
            decreases words.len() - i,
        {
            assert(wv.take(i + 1).drop_last() =~= wv.take(i as int));
            assert(wv.take(i + 1).last() == words@[i as int]@);
            if words[i].len() > 0 {
                self.match_word(&words[i], &mut matching);
            }
            i = i + 1;
        }
        assert(wv.take(words.len() as int) =~= wv);
        matching
    }
}

} // verus!
