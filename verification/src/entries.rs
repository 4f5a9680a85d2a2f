//! Desktop entries: what the menu keeps of a `.desktop` file, how such a
//! file is read, and which entries are shown on the current desktop.
//!
//! Only a small part of the desktop entry format is read: the keys `Name`,
//! `Type`, `Icon`, `OnlyShowIn`, `NoDisplay`, and the keys whose words serve
//! as search aliases (`Comment`, `Categories`, `Description`, `Keywords`).
use crate::text::{
    begins_with, contains_text, find_from, has_text, lemma_find_from, lemma_lines_append,
    lemma_no_text_without_first, lemma_sep_at_skip, lemma_split_at, lemma_split_lead,
    lemma_split_no_text, lemma_split_none, lemma_split_nonempty, lines, lemma_lines_concat, lemma_lines_lead, lemma_strip_cr_text, lines_of, same_chars, strip_cr, trim,
    trim_white, sep_at, split, split_chars, starts_with, views, Pattern, Sep,
};
use crate::unicode::{
    chars_of, decode_lossy, lemma_decode_ascii_byte, lemma_decode_concat, lemma_decode_ends_line,
    lemma_decode_first_ascii, lemma_decode_no_newline, lowercase_chars, lowercase_of, string_of, utf8_lossy,
};
use vstd::prelude::*;
use vstd::utf8::{decode_utf8, valid_utf8};

verus! {

broadcast use vstd::seq_lib::group_seq_properties;

/// One application of the menu.
#[derive(Debug, PartialEq, Eq, Clone)]
pub struct Entry {
    pub name: String,
    pub img_path: String,
    pub entry_path: String,
    pub key_words: Vec<String>,
    pub only_show_in: Option<String>,
    pub entry_type: String,
}

/// The mathematical value of an [`Entry`].
#[verifier::ext_equal]
pub struct EntryView {
    pub name: Seq<char>,
    pub img_path: Seq<char>,
    pub entry_path: Seq<char>,
    pub key_words: Seq<Seq<char>>,
    pub only_show_in: Option<Seq<char>>,
    pub entry_type: Seq<char>,
}

/// The character sequences of a sequence of strings.
pub open spec fn string_views(v: Seq<String>) -> Seq<Seq<char>> {
    v.map_values(|s: String| s@)
}

/// The character sequence of an optional string.
pub open spec fn opt_string_view(o: Option<String>) -> Option<Seq<char>> {
    match o {
        Some(s) => Some(s@),
        None => None,
    }
}

impl View for Entry {
    type V = EntryView;

    open spec fn view(&self) -> EntryView {
        EntryView {
            name: self.name@,
            img_path: self.img_path@,
            entry_path: self.entry_path@,
            key_words: string_views(self.key_words@),
            only_show_in: opt_string_view(self.only_show_in),
            entry_type: self.entry_type@,
        }
    }
}

/// The value of an optional entry.
pub open spec fn opt_entry_view(o: Option<Entry>) -> Option<EntryView> {
    match o {
        Some(e) => Some(e@),
        None => None,
    }
}

/// The values of a sequence of entries.
pub open spec fn entry_views(v: Seq<Entry>) -> Seq<EntryView> {
    v.map_values(|e: Entry| e@)
}

/// The entry with every field empty.
pub open spec fn empty_entry() -> EntryView {
    EntryView {
        name: Seq::empty(),
        img_path: Seq::empty(),
        entry_path: Seq::empty(),
        key_words: Seq::empty(),
        only_show_in: None,
        entry_type: Seq::empty(),
    }
}

impl Default for Entry {
    fn default() -> (e: Entry)
        ensures
            e@ == empty_entry(),
    {
        let e = Entry {
            name: String::new(),
            img_path: String::new(),
            entry_path: String::new(),
            key_words: Vec::new(),
            only_show_in: None,
            entry_type: String::new(),
        };
        assert(e@ =~= empty_entry());
        e
    }
}

// ---------------------------------------------------------------------------
// Keywords of a desktop entry
// ---------------------------------------------------------------------------

/// The characters that separate the words of a keyword value.
pub open spec fn keyword_separators() -> Seq<char> {
    seq![',', ' ', ';']
}

/// The non-empty pieces of `parts`, in order.
pub open spec fn non_empty(parts: Seq<Seq<char>>) -> Seq<Seq<char>>
    decreases parts.len(),
{
    if parts.len() == 0 {
        seq![]
    } else if parts.last().len() == 0 {
        non_empty(parts.drop_last())
    } else {
        non_empty(parts.drop_last()).push(parts.last())
    }
}

/// The words of a keyword value: its non-empty pieces between `,`, ` ` and `;`.
pub open spec fn keyword_tokens(s: Seq<char>) -> Seq<Seq<char>> {
    non_empty(split(s, Sep::AnyOf(keyword_separators())))
}

/// Every word of a keyword value is non-empty and holds no separator.
pub proof fn lemma_keyword_tokens(s: Seq<char>)
    ensures
        forall|i: int|
            #![trigger keyword_tokens(s)[i]]
            0 <= i < keyword_tokens(s).len() ==> keyword_tokens(s)[i].len() > 0
                && !keyword_tokens(s)[i].contains(',') && !keyword_tokens(s)[i].contains(' ')
                && !keyword_tokens(s)[i].contains(';'),
{
    lemma_split_pieces_free(s, Sep::AnyOf(keyword_separators()));
    lemma_non_empty(split(s, Sep::AnyOf(keyword_separators())));
}

/// The pieces that `non_empty` keeps are pieces of its argument, and non-empty.
proof fn lemma_non_empty(parts: Seq<Seq<char>>)
    ensures
        forall|i: int|
            #![trigger non_empty(parts)[i]]
            0 <= i < non_empty(parts).len() ==> non_empty(parts)[i].len() > 0 && parts.contains(
                non_empty(parts)[i],
            ),
    decreases parts.len(),
{
    if parts.len() > 0 {
        lemma_non_empty(parts.drop_last());
        assert forall|i: int|
            #![trigger non_empty(parts)[i]]
            0 <= i < non_empty(parts).len() implies non_empty(parts)[i].len() > 0
            && parts.contains(non_empty(parts)[i]) by {
            let prev = non_empty(parts.drop_last());
            if i < prev.len() {
                assert(non_empty(parts)[i] == prev[i]);
                let j = choose|j: int| 0 <= j < parts.drop_last().len() && parts.drop_last()[j] == prev[i];
                assert(parts[j] == prev[i]);
            } else {
                assert(parts[parts.len() - 1] == parts.last());
            }
        }
    }
}

/// No piece of a split by a set of characters holds one of those characters.
pub proof fn lemma_split_pieces_free(s: Seq<char>, sep: Sep)
    requires
        sep matches Sep::AnyOf(_),
    ensures
        forall|i: int, c: char|
            #![trigger split(s, sep)[i].contains(c)]
            0 <= i < split(s, sep).len() && sep_at(seq![c], sep, 0) ==> !split(s, sep)[i].contains(
                c,
            ),
    decreases s.len(),
{
    lemma_find_from(s, sep, 0);
    match find_from(s, sep, 0) {
        None => {
            assert forall|i: int, c: char|
                #![trigger split(s, sep)[i].contains(c)]
                0 <= i < split(s, sep).len() && sep_at(seq![c], sep, 0) implies !split(
                s,
                sep,
            )[i].contains(c) by {
                if s.contains(c) {
                    let k = choose|k: int| 0 <= k < s.len() && s[k] == c;
                    assert(!sep_at(s, sep, k));
                }
            }
        },
        Some(j) => {
            let rest = s.skip(j + 1);
            lemma_split_pieces_free(rest, sep);
            assert forall|i: int, c: char|
                #![trigger split(s, sep)[i].contains(c)]
                0 <= i < split(s, sep).len() && sep_at(seq![c], sep, 0) implies !split(
                s,
                sep,
            )[i].contains(c) by {
                if i == 0 {
                    assert(split(s, sep)[0] == s.take(j));
                    if s.take(j).contains(c) {
                        let k = choose|k: int| 0 <= k < s.take(j).len() && s.take(j)[k] == c;
                        assert(!sep_at(s, sep, k));
                    }
                } else {
                    assert(split(s, sep)[i] == split(rest, sep)[i - 1]);
                }
            }
        },
    }
}

/// The non-empty words between `,`, ` ` and `;` of `input`.
pub fn keyword_words(input: &Vec<char>) -> (r: Vec<String>)
    ensures
        string_views(r@) == keyword_tokens(input@),
{
    let seps = vec![',', ' ', ';'];
    assert(seps@ =~= keyword_separators());
    let pat = Pattern::AnyOf(seps);
    let parts = split_chars(input, &pat);
    let ghost pv = views(parts@);
    let mut out: Vec<String> = Vec::new();
    let mut i: usize = 0;
    while i < parts.len()
        invariant
            i <= parts.len(),
            pv == views(parts@),
            pv == split(input@, Sep::AnyOf(keyword_separators())),
            string_views(out@) =~= non_empty(pv.take(i as int)),
        decreases parts.len() - i,
    {
        assert(pv.take(i + 1).drop_last() =~= pv.take(i as int));
        assert(pv.take(i + 1).last() == parts@[i as int]@);
        if parts[i].len() > 0 {
            let w = string_of(&parts[i]);
            out.push(w);
        }
        i = i + 1;
    }
    assert(pv.take(parts.len() as int) =~= pv);
    out
}

impl Entry {
    /// Adds the words of `input` to the keywords of the entry: the words
    /// between `,`, ` ` and `;`, without the empty ones.
    pub fn parse_keywords(&mut self, input: &str)
        ensures
            final(self)@ == (EntryView {
                key_words: old(self)@.key_words + keyword_tokens(input@),
                ..old(self)@
            }),
    {
        let chars = chars_of(input);
        let mut words = keyword_words(&chars);
        let ghost before = self.key_words@;
        self.key_words.append(&mut words);
        assert(string_views(self.key_words@) =~= string_views(before) + keyword_tokens(input@));
        assert(self@ =~= (EntryView { key_words: old(self)@.key_words + keyword_tokens(input@), ..old(self)@ }));
    }
}

// ---------------------------------------------------------------------------
// Reading a desktop file
// ---------------------------------------------------------------------------

/// `[Desktop Action`: a line holding it ends the part of the file that is read.
pub open spec fn action_marker() -> Seq<char> {
    seq!['[', 'D', 'e', 's', 'k', 't', 'o', 'p', ' ', 'A', 'c', 't', 'i', 'o', 'n']
}

pub open spec fn key_no_display() -> Seq<char> {
    seq!['N', 'o', 'D', 'i', 's', 'p', 'l', 'a', 'y']
}

pub open spec fn key_only_show_in() -> Seq<char> {
    seq!['O', 'n', 'l', 'y', 'S', 'h', 'o', 'w', 'I', 'n']
}

pub open spec fn key_name() -> Seq<char> {
    seq!['N', 'a', 'm', 'e']
}

pub open spec fn key_type() -> Seq<char> {
    seq!['T', 'y', 'p', 'e']
}

pub open spec fn key_icon() -> Seq<char> {
    seq!['I', 'c', 'o', 'n']
}

/// The keys whose value adds search words to the entry.
pub open spec fn is_keyword_key(k: Seq<char>) -> bool {
    ||| k == seq!['C', 'o', 'm', 'm', 'e', 'n', 't']
    ||| k == seq!['C', 'a', 't', 'e', 'g', 'o', 'r', 'i', 'e', 's']
    ||| k == seq!['D', 'e', 's', 'c', 'r', 'i', 'p', 't', 'i', 'o', 'n']
    ||| k == seq!['K', 'e', 'y', 'w', 'o', 'r', 'd', 's']
}

/// `true`, the value of `NoDisplay` (in any case) that hides an entry.
pub open spec fn word_true() -> Seq<char> {
    seq!['t', 'r', 'u', 'e']
}

/// The entry `e` after the line `key=value`, for a key other than `NoDisplay`.
pub open spec fn set_desktop_key(e: EntryView, key: Seq<char>, value: Seq<char>) -> EntryView {
    if key == key_only_show_in() {
        EntryView { only_show_in: Some(value), ..e }
    } else if key == key_name() {
        EntryView { name: value, ..e }
    } else if key == key_type() {
        EntryView { entry_type: value, ..e }
    } else if key == key_icon() {
        EntryView { img_path: value, ..e }
    } else if is_keyword_key(key) {
        EntryView { key_words: e.key_words + keyword_tokens(value), ..e }
    } else {
        e
    }
}

/// What one line of a desktop file does to the entry being read.
pub enum LineStep {
    /// The line starts the desktop actions: reading ends with the entry as it is.
    Stop,
    /// The line hides the entry (`NoDisplay=true`).
    Reject,
    /// Reading goes on with this entry.
    Next(EntryView),
}

/// What the line `line` does to the entry `e`.  A line is split at `=`: the
/// first piece is the key, the second the value (later pieces are dropped);
/// a line without `=`, and a comment line (starting with `#`), change nothing.
pub open spec fn desktop_line_step(e: EntryView, line: Seq<char>) -> LineStep {
    if contains_text(line, action_marker()) {
        LineStep::Stop
    } else if starts_with(line, seq!['#']) {
        LineStep::Next(e)
    } else {
        let parts = split(line, Sep::Text(seq!['=']));
        if parts.len() < 2 {
            LineStep::Next(e)
        } else if parts[0] == key_no_display() {
            if lowercase_of(parts[1]) == word_true() {
                LineStep::Reject
            } else {
                LineStep::Next(e)
            }
        } else {
            LineStep::Next(set_desktop_key(e, parts[0], parts[1]))
        }
    }
}

/// The entry read from the lines `ls`, starting from `e`.
pub open spec fn desktop_lines(ls: Seq<Seq<char>>, e: EntryView) -> Option<EntryView>
    decreases ls.len(),
{
    if ls.len() == 0 {
        Some(e)
    } else {
        match desktop_line_step(e, ls[0]) {
            LineStep::Stop => Some(e),
            LineStep::Reject => None,
            LineStep::Next(e2) => desktop_lines(ls.drop_first(), e2),
        }
    }
}

/// The entry that a desktop file with the text `text` describes, or `None`
/// when the file hides it.
pub open spec fn desktop_entry(text: Seq<char>) -> Option<EntryView> {
    desktop_lines(lines(text), empty_entry())
}

/// Reads a desktop entry from the text of a `.desktop` file.
///
/// Lines are read in order until one holds `[Desktop Action`.  A line
/// starting with `#` is a comment.  Other lines are split at `=`:
/// `NoDisplay` with the value `true` (in any case) hides the entry (the
/// result is `None`); `OnlyShowIn`, `Name`, `Type` and `Icon` set their
/// field; `Comment`, `Categories`, `Description` and `Keywords` add the words
/// of their value to the keywords.  The entry path is left empty.
pub fn parse_desktop_entry(text: &str) -> (r: Option<Entry>)
    ensures
        opt_entry_view(r) == desktop_entry(text@),
{
    let chars = chars_of(text);
    let ls = lines_of(&chars);
    let ghost lv = views(ls@);
    let marker = vec!['[', 'D', 'e', 's', 'k', 't', 'o', 'p', ' ', 'A', 'c', 't', 'i', 'o', 'n'];
    let hash = vec!['#'];
    let eq = vec!['='];
    let k_no_display = vec!['N', 'o', 'D', 'i', 's', 'p', 'l', 'a', 'y'];
    let k_only = vec!['O', 'n', 'l', 'y', 'S', 'h', 'o', 'w', 'I', 'n'];
    let k_name = vec!['N', 'a', 'm', 'e'];
    let k_type = vec!['T', 'y', 'p', 'e'];
    let k_icon = vec!['I', 'c', 'o', 'n'];
    let k_comment = vec!['C', 'o', 'm', 'm', 'e', 'n', 't'];
    let k_categories = vec!['C', 'a', 't', 'e', 'g', 'o', 'r', 'i', 'e', 's'];
    let k_description = vec!['D', 'e', 's', 'c', 'r', 'i', 'p', 't', 'i', 'o', 'n'];
    let k_keywords = vec!['K', 'e', 'y', 'w', 'o', 'r', 'd', 's'];
    let w_true = vec!['t', 'r', 'u', 'e'];
    proof {
        assert(marker@ =~= action_marker());
        assert(hash@ =~= seq!['#']);
        assert(eq@ =~= seq!['=']);
        assert(k_no_display@ =~= key_no_display());
        assert(k_only@ =~= key_only_show_in());
        assert(k_name@ =~= key_name());
        assert(k_type@ =~= key_type());
        assert(k_icon@ =~= key_icon());
        assert(k_comment@ =~= seq!['C', 'o', 'm', 'm', 'e', 'n', 't']);
        assert(k_categories@ =~= seq!['C', 'a', 't', 'e', 'g', 'o', 'r', 'i', 'e', 's']);
        assert(k_description@ =~= seq!['D', 'e', 's', 'c', 'r', 'i', 'p', 't', 'i', 'o', 'n']);
        assert(k_keywords@ =~= seq!['K', 'e', 'y', 'w', 'o', 'r', 'd', 's']);
        assert(w_true@ =~= word_true());
    }
    let eq_pat = Pattern::Text(eq);
    let mut output = Entry::default();
    let mut i: usize = 0;
    while i < ls.len()
        invariant
            i <= ls.len(),
            lv == views(ls@),
            lv == lines(text@),
            desktop_entry(text@) == desktop_lines(lv.skip(i as int), output@),
            marker@ == action_marker(),
            hash@ == seq!['#'],
            eq_pat@ == Sep::Text(seq!['=']),
            k_no_display@ == key_no_display(),
            k_only@ == key_only_show_in(),
            k_name@ == key_name(),
            k_type@ == key_type(),
            k_icon@ == key_icon(),
            k_comment@ == seq!['C', 'o', 'm', 'm', 'e', 'n', 't'],
            k_categories@ == seq!['C', 'a', 't', 'e', 'g', 'o', 'r', 'i', 'e', 's'],
            k_description@ == seq!['D', 'e', 's', 'c', 'r', 'i', 'p', 't', 'i', 'o', 'n'],
            k_keywords@ == seq!['K', 'e', 'y', 'w', 'o', 'r', 'd', 's'],
            w_true@ == word_true(),
        decreases ls.len() - i,
    {
        let line = &ls[i];
        let ghost before = output@;
        let ghost rest = lv.skip(i as int);
        proof {
            assert(rest[0] == line@);
            assert(rest.drop_first() =~= lv.skip(i + 1));
        }
        if has_text(line, &marker) {
            return Some(output);
        }
        if begins_with(line, &hash) {
            i = i + 1;
            continue;
        }
        let parts = split_chars(line, &eq_pat);
        proof {
            lemma_split_nonempty(line@, Sep::Text(seq!['=']));
        }
        if parts.len() >= 2 {
            let key = &parts[0];
            let value = &parts[1];
            assert(views(parts@)[0] == key@);
            assert(views(parts@)[1] == value@);
            if same_chars(key, &k_no_display) {
                let low = lowercase_chars(value);
                if same_chars(&low, &w_true) {
                    return None;
                }
            } else if same_chars(key, &k_only) {
                output.only_show_in = Some(string_of(value));
            } else if same_chars(key, &k_name) {
                output.name = string_of(value);
            } else if same_chars(key, &k_type) {
                output.entry_type = string_of(value);
            } else if same_chars(key, &k_icon) {
                output.img_path = string_of(value);
            } else if same_chars(key, &k_comment) || same_chars(key, &k_categories) || same_chars(
                key,
                &k_description,
            ) || same_chars(key, &k_keywords) {
                let mut words = keyword_words(value);
                output.key_words.append(&mut words);
                assert(output@ =~= set_desktop_key(before, key@, value@));
            }
        }
        assert(desktop_line_step(before, line@) == LineStep::Next(output@));
        i = i + 1;
    }
    Some(output)
}

/// A `NoDisplay=true` line (in any case) hides the entry, unless a
/// `[Desktop Action` line comes before it: in the lines `ls`, when the line
/// `j` is such a line and no line before it holds `[Desktop Action`, no
/// entry is read, whatever follows.
pub proof fn lemma_no_display_hides(ls: Seq<Seq<char>>, e: EntryView, j: int)
    requires
        0 <= j < ls.len(),
        forall|k: int| 0 <= k < j ==> !contains_text(#[trigger] ls[k], action_marker()),
        !contains_text(ls[j], action_marker()),
        !starts_with(ls[j], seq!['#']),
        split(ls[j], Sep::Text(seq!['='])).len() >= 2,
        split(ls[j], Sep::Text(seq!['=']))[0] == key_no_display(),
        lowercase_of(split(ls[j], Sep::Text(seq!['=']))[1]) == word_true(),
    ensures
        desktop_lines(ls, e) is None,
    decreases j,
{
    if j > 0 {
        assert(!contains_text(ls[0], action_marker()));
        match desktop_line_step(e, ls[0]) {
            LineStep::Next(e2) => {
                let rest = ls.drop_first();
                assert forall|k: int| 0 <= k < j - 1 implies !contains_text(#[trigger] rest[k], action_marker()) by {
                    assert(rest[k] == ls[k + 1]);
                }
                assert(rest[j - 1] == ls[j]);
                lemma_no_display_hides(rest, e2, j - 1);
            },
            _ => {},
        }
    }
}

/// Reading ends at the first `[Desktop Action` line: in the lines `ls`,
/// when the line `j` holds `[Desktop Action`, the lines after it change
/// nothing.
pub proof fn lemma_action_section_ignored(ls: Seq<Seq<char>>, e: EntryView, j: int)
    requires
        0 <= j < ls.len(),
        contains_text(ls[j], action_marker()),
    ensures
        desktop_lines(ls, e) == desktop_lines(ls.take(j + 1), e),
    decreases j,
{
    let short = ls.take(j + 1);
    assert(short[0] == ls[0]);
    if j > 0 {
        match desktop_line_step(e, ls[0]) {
            LineStep::Next(e2) => {
                assert(short.drop_first() =~= ls.drop_first().take(j));
                assert(ls.drop_first()[j - 1] == ls[j]);
                lemma_action_section_ignored(ls.drop_first(), e2, j - 1);
            },
            _ => {},
        }
    }
}

/// A line holding `[Desktop Action` ends the reading, wherever it stands.
proof fn lemma_stop_line(ls: Seq<Seq<char>>, h: Seq<char>, rest: Seq<Seq<char>>, e: EntryView)
    requires
        contains_text(h, action_marker()),
    ensures
        desktop_lines(ls + seq![h] + rest, e) == desktop_lines(ls, e),
    decreases ls.len(),
{
    let all = ls + seq![h] + rest;
    if ls.len() == 0 {
        assert(all[0] == h);
    } else {
        assert(all[0] == ls[0]);
        match desktop_line_step(e, ls[0]) {
            LineStep::Next(e2) => {
                assert(all.drop_first() =~= ls.drop_first() + seq![h] + rest);
                lemma_stop_line(ls.drop_first(), h, rest, e2);
            },
            _ => {},
        }
    }
}

/// A comment line, without `[Desktop Action`, changes nothing, wherever it stands.
proof fn lemma_comment_line(ls: Seq<Seq<char>>, c: Seq<char>, rest: Seq<Seq<char>>, e: EntryView)
    requires
        starts_with(c, seq!['#']),
        !contains_text(c, action_marker()),
    ensures
        desktop_lines(ls + seq![c] + rest, e) == desktop_lines(ls + rest, e),
    decreases ls.len(),
{
    let all = ls + seq![c] + rest;
    if ls.len() == 0 {
        assert(all[0] == c);
        assert(all.drop_first() =~= rest);
        assert(ls + rest =~= rest);
    } else {
        assert(all[0] == ls[0]);
        assert((ls + rest)[0] == ls[0]);
        match desktop_line_step(e, ls[0]) {
            LineStep::Next(e2) => {
                assert(all.drop_first() =~= ls.drop_first() + seq![c] + rest);
                assert((ls + rest).drop_first() =~= ls.drop_first() + rest);
                lemma_comment_line(ls.drop_first(), c, rest, e2);
            },
            _ => {},
        }
    }
}

/// The text after a `[Desktop Action` line changes nothing: when `a` is
/// empty or ends a line, and `h` is one line holding `[Desktop Action`, the
/// text `a + h + "\n" + b` describes the entry that `a` describes, whatever `b` is.
pub proof fn lemma_action_text_ignored(a: Seq<char>, h: Seq<char>, b: Seq<char>)
    requires
        a.len() == 0 || a.last() == '\n',
        !h.contains('\n'),
        contains_text(h, action_marker()),
    ensures
        desktop_entry(a + h + seq!['\n'] + b) == desktop_entry(a),
{
    assert(a + h + seq!['\n'] + b =~= a + (h + seq!['\n'] + b));
    lemma_lines_concat(a, h + seq!['\n'] + b);
    lemma_lines_lead(h, b);
    lemma_strip_cr_text(h, action_marker());
    assert(lines(a) + (seq![strip_cr(h)] + lines(b)) =~= lines(a) + seq![strip_cr(h)] + lines(b));
    lemma_stop_line(lines(a), strip_cr(h), lines(b), empty_entry());
}

/// A comment line changes nothing: when `a` is empty or ends a line, and
/// `c` is one line that starts with `#` and does not hold `[Desktop Action`,
/// the text `a + c + "\n" + b` describes the entry that `a + b` describes.
pub proof fn lemma_comment_text_ignored(a: Seq<char>, c: Seq<char>, b: Seq<char>)
    requires
        a.len() == 0 || a.last() == '\n',
        !c.contains('\n'),
        starts_with(c, seq!['#']),
        !contains_text(c, action_marker()),
    ensures
        desktop_entry(a + c + seq!['\n'] + b) == desktop_entry(a + b),
{
    assert(a + c + seq!['\n'] + b =~= a + (c + seq!['\n'] + b));
    lemma_lines_concat(a, c + seq!['\n'] + b);
    lemma_lines_concat(a, b);
    lemma_lines_lead(c, b);
    lemma_strip_cr_text(c, action_marker());
    let c2 = strip_cr(c);
    assert(starts_with(c2, seq!['#'])) by {
        assert(c.take(1)[0] == c[0]);
        assert(c[0] == '#');
        if c2.len() < c.len() {
            assert(c.last() == '\r');
            assert(c.len() >= 2);
            assert(c2[0] == c[0]);
        }
        assert(c2.take(1) =~= seq!['#']);
    }
    assert(lines(a) + (seq![c2] + lines(b)) =~= lines(a) + seq![c2] + lines(b));
    lemma_comment_line(lines(a), c2, lines(b), empty_entry());
}

/// Decodes the bytes `a + l + "\n" + b`, each piece valid UTF-8, piece by piece.
proof fn lemma_decode_line_between(a: Seq<u8>, l: Seq<u8>, b: Seq<u8>)
    requires
        valid_utf8(a),
        valid_utf8(l),
        valid_utf8(b),
        a.len() == 0 || a.last() == 10u8,
        !l.contains(10u8),
    ensures
        valid_utf8(a + l + seq![10u8] + b),
        decode_utf8(a + l + seq![10u8] + b) == decode_utf8(a) + decode_utf8(l) + seq!['\n']
            + decode_utf8(b),
        decode_utf8(a).len() == 0 || decode_utf8(a).last() == '\n',
        !decode_utf8(l).contains('\n'),
{
    lemma_decode_ascii_byte(10u8);
    assert(((10u8 as u32) as char) == '\n');
    lemma_decode_concat(a, l);
    lemma_decode_concat(a + l, seq![10u8]);
    lemma_decode_concat(a + l + seq![10u8], b);
    lemma_decode_no_newline(l);
    if a.len() > 0 {
        lemma_decode_ends_line(a);
    }
}

/// The bytes after a `[Desktop Action` line change nothing: when `a` is
/// empty or ends with a line feed, and `h` is one line whose text holds
/// `[Desktop Action`, the bytes `a + h + "\n" + b` describe the entry that
/// `a` describes, whatever `b` is (all three pieces valid UTF-8).
pub proof fn lemma_action_bytes_ignored(a: Seq<u8>, h: Seq<u8>, b: Seq<u8>)
    requires
        valid_utf8(a),
        valid_utf8(h),
        valid_utf8(b),
        a.len() == 0 || a.last() == 10u8,
        !h.contains(10u8),
        contains_text(decode_utf8(h), action_marker()),
    ensures
        valid_utf8(a + h + seq![10u8] + b),
        desktop_entry(decode_utf8(a + h + seq![10u8] + b)) == desktop_entry(decode_utf8(a)),
{
    lemma_decode_line_between(a, h, b);
    lemma_action_text_ignored(decode_utf8(a), decode_utf8(h), decode_utf8(b));
}

/// A comment line changes nothing at the level of bytes: when `a` is empty
/// or ends with a line feed, and `c` is one line that starts with `#` and
/// whose text does not hold `[Desktop Action`, the bytes `a + c + "\n" + b`
/// describe the entry that `a + b` describes (all pieces valid UTF-8).
pub proof fn lemma_comment_bytes_ignored(a: Seq<u8>, c: Seq<u8>, b: Seq<u8>)
    requires
        valid_utf8(a),
        valid_utf8(c),
        valid_utf8(b),
        a.len() == 0 || a.last() == 10u8,
        c.len() > 0,
        c[0] == 0x23u8,
        !c.contains(10u8),
        !contains_text(decode_utf8(c), action_marker()),
    ensures
        valid_utf8(a + c + seq![10u8] + b),
        valid_utf8(a + b),
        desktop_entry(decode_utf8(a + c + seq![10u8] + b)) == desktop_entry(decode_utf8(a + b)),
{
    lemma_decode_line_between(a, c, b);
    lemma_decode_concat(a, b);
    lemma_decode_first_ascii(c);
    assert(((0x23u8 as u32) as char) == '#');
    assert(decode_utf8(c).take(1) =~= seq!['#']);
    lemma_comment_text_ignored(decode_utf8(a), decode_utf8(c), decode_utf8(b));
}

/// A line that leaves every entry as it is changes nothing, wherever it stands.
proof fn lemma_neutral_line(ls: Seq<Seq<char>>, c: Seq<char>, rest: Seq<Seq<char>>, e: EntryView)
    requires
        forall|e2: EntryView| #[trigger] desktop_line_step(e2, c) == LineStep::Next(e2),
    ensures
        desktop_lines(ls + seq![c] + rest, e) == desktop_lines(ls + rest, e),
    decreases ls.len(),
{
    let all = ls + seq![c] + rest;
    if ls.len() == 0 {
        assert(all[0] == c);
        assert(desktop_line_step(e, c) == LineStep::Next(e));
        assert(all.drop_first() =~= rest);
        assert(ls + rest =~= rest);
    } else {
        assert(all[0] == ls[0]);
        assert((ls + rest)[0] == ls[0]);
        match desktop_line_step(e, ls[0]) {
            LineStep::Next(e2) => {
                assert(all.drop_first() =~= ls.drop_first() + seq![c] + rest);
                assert((ls + rest).drop_first() =~= ls.drop_first() + rest);
                lemma_neutral_line(ls.drop_first(), c, rest, e2);
            },
            _ => {},
        }
    }
}

/// The line `k=v` of a key that the reader does not know leaves the entry as it is.
proof fn lemma_other_key_step(k: Seq<char>, v: Seq<char>, e: EntryView)
    requires
        !k.contains('='),
        k != key_no_display(),
        k != key_only_show_in(),
        k != key_name(),
        k != key_type(),
        k != key_icon(),
        !is_keyword_key(k),
        !contains_text(k + seq!['='] + v, action_marker()),
    ensures
        desktop_line_step(e, k + seq!['='] + v) == LineStep::Next(e),
{
    let l = k + seq!['='] + v;
    if !starts_with(l, seq!['#']) {
        assert(seq!['='][0] == '=');
        lemma_split_lead(k, seq!['='], v);
        lemma_split_nonempty(v, Sep::Text(seq!['=']));
        let parts = split(l, Sep::Text(seq!['=']));
        assert(parts[0] == k);
    }
}

/// The line `key=value` of a key that the reader does not know changes
/// nothing: when `a` is empty or ends a line, and `k` is a key other than
/// `NoDisplay`, `OnlyShowIn`, `Name`, `Type`, `Icon` and the keyword keys
/// (such as `GenericName` or `Name[de]`), the text `a + k + "=" + v + "\n" + b`
/// describes the entry that `a + b` describes.
pub proof fn lemma_other_key_ignored(a: Seq<char>, k: Seq<char>, v: Seq<char>, b: Seq<char>)
    requires
        a.len() == 0 || a.last() == '\n',
        !k.contains('\n'),
        !v.contains('\n'),
        !k.contains('='),
        k != key_no_display(),
        k != key_only_show_in(),
        k != key_name(),
        k != key_type(),
        k != key_icon(),
        !is_keyword_key(k),
        !contains_text(k + seq!['='] + v, action_marker()),
    ensures
        desktop_entry(a + k + seq!['='] + v + seq!['\n'] + b) == desktop_entry(a + b),
{
    let l = k + seq!['='] + v;
    assert(!l.contains('\n')) by {
        if l.contains('\n') {
            let i = choose|i: int| 0 <= i < l.len() && l[i] == '\n';
            if i < k.len() {
                assert(l[i] == k[i]);
            } else if i > k.len() {
                assert(l[i] == v[i - k.len() - 1]);
            }
        }
    }
    assert(a + k + seq!['='] + v + seq!['\n'] + b =~= a + (l + seq!['\n'] + b));
    lemma_lines_concat(a, l + seq!['\n'] + b);
    lemma_lines_concat(a, b);
    lemma_lines_lead(l, b);
    lemma_strip_cr_text(l, action_marker());
    let c2 = strip_cr(l);
    let v2 = strip_cr(v);
    assert(c2 =~= k + seq!['='] + v2);
    assert forall|e2: EntryView| #[trigger] desktop_line_step(e2, c2) == LineStep::Next(e2) by {
        lemma_other_key_step(k, v2, e2);
    }
    assert(lines(a) + (seq![c2] + lines(b)) =~= lines(a) + seq![c2] + lines(b));
    lemma_neutral_line(lines(a), c2, lines(b), empty_entry());
}

/// No line of a text holds a pattern that the text does not hold.
proof fn lemma_lines_free(s: Seq<char>, p: Seq<char>)
    requires
        p.len() > 0,
        p.last() != '\r',
        !contains_text(s, p),
    ensures
        forall|i: int| 0 <= i < lines(s).len() ==> !contains_text(#[trigger] lines(s)[i], p),
    decreases s.len(),
{
    let nl = Sep::AnyOf(seq!['\n']);
    if s.len() > 0 {
        lemma_find_from(s, nl, 0);
        match find_from(s, nl, 0) {
            None => {},
            Some(j) => {
                let t = s.take(j);
                let r = s.skip(j + 1);
                lemma_strip_cr_text(t, p);
                if contains_text(t, p) {
                    let k = choose|k: int| sep_at(t, Sep::Text(p), k);
                    assert(s.subrange(k, k + p.len()) =~= t.subrange(k, k + p.len()));
                    assert(sep_at(s, Sep::Text(p), k));
                }
                if contains_text(r, p) {
                    let k = choose|k: int| sep_at(r, Sep::Text(p), k);
                    lemma_sep_at_skip(s, Sep::Text(p), j + 1, k);
                }
                lemma_lines_free(r, p);
                assert forall|i: int| 0 <= i < lines(s).len() implies !contains_text(
                    #[trigger] lines(s)[i],
                    p,
                ) by {
                    if i > 0 {
                        assert(lines(s)[i] == lines(r)[i - 1]);
                    }
                }
            },
        }
    }
}

/// Reading one more line after lines that hold no `[Desktop Action`: the
/// entry read so far, with that line's step applied.
proof fn lemma_desktop_lines_push(ls: Seq<Seq<char>>, l: Seq<char>, e: EntryView)
    requires
        forall|i: int| 0 <= i < ls.len() ==> !contains_text(#[trigger] ls[i], action_marker()),
    ensures
        desktop_lines(ls.push(l), e) == match desktop_lines(ls, e) {
            None => None,
            Some(e2) => match desktop_line_step(e2, l) {
                LineStep::Stop => Some(e2),
                LineStep::Reject => None,
                LineStep::Next(e3) => Some(e3),
            },
        },
    decreases ls.len(),
{
    let all = ls.push(l);
    if ls.len() == 0 {
        assert(all[0] == l);
        assert(all.drop_first() =~= Seq::<Seq<char>>::empty());
    } else {
        assert(all[0] == ls[0]);
        assert(!contains_text(ls[0], action_marker()));
        match desktop_line_step(e, ls[0]) {
            LineStep::Next(e2) => {
                assert(all.drop_first() =~= ls.drop_first().push(l));
                assert forall|i: int| 0 <= i < ls.drop_first().len() implies !contains_text(
                    #[trigger] ls.drop_first()[i],
                    action_marker(),
                ) by {
                    assert(ls.drop_first()[i] == ls[i + 1]);
                }
                lemma_desktop_lines_push(ls.drop_first(), l, e2);
            },
            _ => {},
        }
    }
}

/// The keys whose line sets one field of the entry to its value.
pub open spec fn is_field_key(k: Seq<char>) -> bool {
    ||| k == key_name()
    ||| k == key_type()
    ||| k == key_icon()
    ||| k == key_only_show_in()
}

/// The entry `e` with the field that the key `k` names set to `v`.
pub open spec fn with_field(e: EntryView, k: Seq<char>, v: Seq<char>) -> EntryView {
    if k == key_name() {
        EntryView { name: v, ..e }
    } else if k == key_type() {
        EntryView { entry_type: v, ..e }
    } else if k == key_icon() {
        EntryView { img_path: v, ..e }
    } else {
        EntryView { only_show_in: Some(v), ..e }
    }
}

/// A key that a line `k=v` gives back as its key, and that holds no part of
/// `[Desktop Action`: not empty, not a comment, without `=`, `[` and line ends.
pub open spec fn plain_key(k: Seq<char>) -> bool {
    &&& k.len() > 0
    &&& k[0] != '#'
    &&& !k.contains('=')
    &&& !k.contains('[')
    &&& !k.contains('\n')
}

/// The four field keys differ from one another and from `NoDisplay`, and
/// hold none of `#`, `=`, `[` and line ends.
proof fn lemma_field_key(k: Seq<char>)
    requires
        is_field_key(k),
    ensures
        plain_key(k),
        k != key_no_display(),
        !is_keyword_key(k),
        k == key_name() ==> k != key_only_show_in(),
        k == key_type() ==> k != key_only_show_in() && k != key_name(),
        k == key_icon() ==> k != key_only_show_in() && k != key_name() && k != key_type(),
{
    assert(key_type()[0] != key_name()[0]);
    assert(key_icon()[0] != key_name()[0]);
    assert(key_icon()[0] != key_type()[0]);
    assert(key_name() != key_no_display()) by { assert(key_name().len() != key_no_display().len()); }
    assert(key_type() != key_no_display()) by { assert(key_type().len() != key_no_display().len()); }
    assert(key_icon() != key_no_display()) by { assert(key_icon().len() != key_no_display().len()); }
    assert(key_only_show_in() != key_no_display()) by {
        assert(key_only_show_in().len() != key_no_display().len());
    }
    assert(key_name() != key_only_show_in()) by {
        assert(key_name().len() != key_only_show_in().len());
    }
    assert(key_type() != key_only_show_in()) by {
        assert(key_type().len() != key_only_show_in().len());
    }
    assert(key_icon() != key_only_show_in()) by {
        assert(key_icon().len() != key_only_show_in().len());
    }
    if k.contains('=') || k.contains('[') || k.contains('\n') {
        let i = choose|i: int| 0 <= i < k.len() && (k[i] == '=' || k[i] == '[' || k[i] == '\n');
        assert(0 <= i < k.len());
    }
    if is_keyword_key(k) {
        assert(k.len() != 4 || k[0] == 'C' || k[0] == 'D' || k[0] == 'K');
        assert(k.len() != 10 || k[0] == 'C' || k[0] == 'D' || k[0] == 'K');
    }
}

/// The line `k=v` is one line, without `[Desktop Action` and without a
/// carriage return at its end, when `k` is a plain key and `v` such a line.
proof fn lemma_key_line_text(k: Seq<char>, v: Seq<char>)
    requires
        plain_key(k),
        !v.contains('\n'),
        v.len() == 0 || v.last() != '\r',
        !contains_text(v, action_marker()),
    ensures
        !(k + seq!['='] + v).contains('\n'),
        !contains_text(k + seq!['='] + v, action_marker()),
        strip_cr(k + seq!['='] + v) == k + seq!['='] + v,
{
    let pre = k + seq!['='];
    let n = pre.len() as int;
    let l = pre + v;
    let m = action_marker();
    assert(!l.contains('\n')) by {
        if l.contains('\n') {
            let i = choose|i: int| 0 <= i < l.len() && l[i] == '\n';
            if i >= n {
                assert(l[i] == v[i - n]);
            } else if i < k.len() {
                assert(l[i] == k[i]);
            }
        }
    }
    assert(!contains_text(l, m)) by {
        if contains_text(l, m) {
            let j = choose|j: int| sep_at(l, Sep::Text(m), j);
            assert(l.subrange(j, j + m.len())[0] == m[0]);
            if j >= n {
                assert(v.subrange(j - n, j - n + m.len()) =~= l.subrange(j, j + m.len()));
                assert(sep_at(v, Sep::Text(m), j - n));
            } else if j < k.len() {
                assert(l[j] == k[j]);
            }
        }
    }
    if v.len() > 0 {
        assert(l.last() == v.last());
    }
    assert(l =~= k + seq!['='] + v);
}

/// What the line `k=v` of a field key does to an entry, when `v` holds no
/// `=`: it sets that field to `v`.
proof fn lemma_key_line_step(k: Seq<char>, v: Seq<char>, e: EntryView)
    requires
        is_field_key(k),
        !v.contains('='),
        !contains_text(k + seq!['='] + v, action_marker()),
    ensures
        desktop_line_step(e, k + seq!['='] + v) == LineStep::Next(with_field(e, k, v)),
{
    lemma_field_key(k);
    lemma_key_line_parts(k, v);
}

/// A line `k=v` of a field key sets its field, and the last such line
/// wins: after a text `a` that is empty or ends a line and holds no
/// `[Desktop Action`, the text `a + k + "=" + v + "\n"` describes the entry
/// of `a` with `v` as its name (`k` = `Name`), type (`Type`), icon (`Icon`) or
/// `OnlyShowIn` value, whatever `a` set that field to before (and no entry
/// when `a` hides it).
pub proof fn lemma_key_line_sets_field(a: Seq<char>, k: Seq<char>, v: Seq<char>)
    requires
        a.len() == 0 || a.last() == '\n',
        !contains_text(a, action_marker()),
        is_field_key(k),
        !v.contains('\n'),
        !v.contains('='),
        v.len() == 0 || v.last() != '\r',
        !contains_text(v, action_marker()),
    ensures
        k == key_name() ==> desktop_entry(a + k + seq!['='] + v + seq!['\n']) == match desktop_entry(a) {
            None => None,
            Some(e) => Some(EntryView { name: v, ..e }),
        },
        k == key_type() ==> desktop_entry(a + k + seq!['='] + v + seq!['\n']) == match desktop_entry(a) {
            None => None,
            Some(e) => Some(EntryView { entry_type: v, ..e }),
        },
        k == key_icon() ==> desktop_entry(a + k + seq!['='] + v + seq!['\n']) == match desktop_entry(a) {
            None => None,
            Some(e) => Some(EntryView { img_path: v, ..e }),
        },
        k == key_only_show_in() ==> desktop_entry(a + k + seq!['='] + v + seq!['\n']) == match desktop_entry(a) {
            None => None,
            Some(e) => Some(EntryView { only_show_in: Some(v), ..e }),
        },
{
    lemma_field_key(k);
    let l = k + seq!['='] + v;
    lemma_key_line_text(k, v);
    assert(a + k + seq!['='] + v + seq!['\n'] =~= a + l + seq!['\n']);
    lemma_lines_append(a, l);
    lemma_lines_free(a, action_marker());
    lemma_desktop_lines_push(lines(a), l, empty_entry());
    match desktop_lines(lines(a), empty_entry()) {
        None => {},
        Some(e2) => {
            lemma_key_line_step(k, v, e2);
        },
    }
}

/// The four keyword keys are plain keys, and none of them is `NoDisplay`
/// or a field key.
proof fn lemma_keyword_key(k: Seq<char>)
    requires
        is_keyword_key(k),
    ensures
        plain_key(k),
        k != key_no_display(),
        k != key_only_show_in(),
        k != key_name(),
        k != key_type(),
        k != key_icon(),
{
    if k.contains('=') || k.contains('[') || k.contains('\n') {
        let i = choose|i: int| 0 <= i < k.len() && (k[i] == '=' || k[i] == '[' || k[i] == '\n');
        assert(0 <= i < k.len());
    }
    assert(k[0] == 'C' || k[0] == 'D' || k[0] == 'K');
    assert(k != key_no_display()) by { assert(k[0] != key_no_display()[0]); }
    assert(k != key_only_show_in()) by { assert(k[0] != key_only_show_in()[0]); }
    assert(k != key_name()) by { assert(k[0] != key_name()[0]); }
    assert(k != key_type()) by { assert(k[0] != key_type()[0]); }
    assert(k != key_icon()) by { assert(k[0] != key_icon()[0]); }
}

/// Reading one more line `l` after a text `a` that is empty or ends a line
/// and holds no `[Desktop Action`: the entry of `a` with the step of `l`.
proof fn lemma_append_line(a: Seq<char>, l: Seq<char>)
    requires
        a.len() == 0 || a.last() == '\n',
        !contains_text(a, action_marker()),
        !l.contains('\n'),
        strip_cr(l) == l,
    ensures
        desktop_entry(a + l + seq!['\n']) == match desktop_entry(a) {
            None => None,
            Some(e2) => match desktop_line_step(e2, l) {
                LineStep::Stop => Some(e2),
                LineStep::Reject => None,
                LineStep::Next(e3) => Some(e3),
            },
        },
{
    lemma_lines_append(a, l);
    lemma_lines_free(a, action_marker());
    lemma_desktop_lines_push(lines(a), l, empty_entry());
}

/// How the line `k=v` of a plain key `k`, with no `=` in `v`, splits: into
/// `k` and `v`; and it is no comment.
proof fn lemma_key_line_parts(k: Seq<char>, v: Seq<char>)
    requires
        plain_key(k),
        !v.contains('='),
    ensures
        split(k + seq!['='] + v, Sep::Text(seq!['='])) == seq![k, v],
        !starts_with(k + seq!['='] + v, seq!['#']),
{
    let l = k + seq!['='] + v;
    assert(seq!['='][0] == '=');
    lemma_split_lead(k, seq!['='], v);
    lemma_no_text_without_first(v, seq!['=']);
    lemma_split_no_text(v, seq!['=']);
    assert(split(l, Sep::Text(seq!['='])) =~= seq![k, v]);
    assert(l.take(1)[0] == k[0]);
}

/// A line of a keyword key adds the words of its value: after a text `a`
/// that is empty or ends a line and holds no `[Desktop Action`, the text
/// `a + k + "=" + v + "\n"`, for `k` one of `Comment`, `Categories`,
/// `Description` and `Keywords`, describes the entry of `a` with the words
/// of `v` (its non-empty pieces between `,`, ` ` and `;`) added at the end
/// of its keywords.
pub proof fn lemma_keyword_line_adds_words(a: Seq<char>, k: Seq<char>, v: Seq<char>)
    requires
        a.len() == 0 || a.last() == '\n',
        !contains_text(a, action_marker()),
        k == seq!['C', 'o', 'm', 'm', 'e', 'n', 't'] || k == seq![
            'C', 'a', 't', 'e', 'g', 'o', 'r', 'i', 'e', 's',
        ] || k == seq!['D', 'e', 's', 'c', 'r', 'i', 'p', 't', 'i', 'o', 'n'] || k == seq![
            'K', 'e', 'y', 'w', 'o', 'r', 'd', 's',
        ],
        !v.contains('\n'),
        !v.contains('='),
        v.len() == 0 || v.last() != '\r',
        !contains_text(v, action_marker()),
    ensures
        desktop_entry(a + k + seq!['='] + v + seq!['\n']) == match desktop_entry(a) {
            None => None,
            Some(e) => Some(EntryView { key_words: e.key_words + keyword_tokens(v), ..e }),
        },
{
    assert(is_keyword_key(k));
    lemma_keyword_line_append(a, k, v);
}

/// [`lemma_keyword_line_adds_words`], for any key that [`is_keyword_key`] accepts.
proof fn lemma_keyword_line_append(a: Seq<char>, k: Seq<char>, v: Seq<char>)
    requires
        a.len() == 0 || a.last() == '\n',
        !contains_text(a, action_marker()),
        is_keyword_key(k),
        !v.contains('\n'),
        !v.contains('='),
        v.len() == 0 || v.last() != '\r',
        !contains_text(v, action_marker()),
    ensures
        desktop_entry(a + k + seq!['='] + v + seq!['\n']) == match desktop_entry(a) {
            None => None,
            Some(e) => Some(EntryView { key_words: e.key_words + keyword_tokens(v), ..e }),
        },
{
    lemma_keyword_key(k);
    let l = k + seq!['='] + v;
    lemma_key_line_text(k, v);
    assert(a + k + seq!['='] + v + seq!['\n'] =~= a + l + seq!['\n']);
    lemma_append_line(a, l);
    match desktop_entry(a) {
        None => {},
        Some(e2) => {
            lemma_keyword_line_step(k, v, e2);
        },
    }
}

/// What the line `k=v` of a keyword key does to an entry, when `v` holds
/// no `=`: it adds the words of `v` to the keywords.
proof fn lemma_keyword_line_step(k: Seq<char>, v: Seq<char>, e: EntryView)
    requires
        is_keyword_key(k),
        !v.contains('='),
        !contains_text(k + seq!['='] + v, action_marker()),
    ensures
        desktop_line_step(e, k + seq!['='] + v) == LineStep::Next(
            EntryView { key_words: e.key_words + keyword_tokens(v), ..e },
        ),
{
    lemma_keyword_key(k);
    lemma_key_line_parts(k, v);
}

/// What the line `NoDisplay=v` does to an entry, when `v` holds no `=`: it
/// hides the entry when `v` lowercased is `true`, and else leaves it.
proof fn lemma_no_display_step(v: Seq<char>, e: EntryView)
    requires
        plain_key(key_no_display()),
        !v.contains('='),
        !contains_text(key_no_display() + seq!['='] + v, action_marker()),
    ensures
        desktop_line_step(e, key_no_display() + seq!['='] + v) == if lowercase_of(v) == word_true() {
            LineStep::Reject
        } else {
            LineStep::Next(e)
        },
{
    lemma_key_line_parts(key_no_display(), v);
}

/// `NoDisplay` hides the entry exactly when its value is `true` in some
/// case: after a text `a` that is empty or ends a line and holds no
/// `[Desktop Action`, the text `a + "NoDisplay=" + v + "\n"` describes no
/// entry when `v` lowercased is `true`, and else the entry of `a`.
pub proof fn lemma_no_display_line(a: Seq<char>, v: Seq<char>)
    requires
        a.len() == 0 || a.last() == '\n',
        !contains_text(a, action_marker()),
        !v.contains('\n'),
        !v.contains('='),
        v.len() == 0 || v.last() != '\r',
        !contains_text(v, action_marker()),
    ensures
        lowercase_of(v) == seq!['t', 'r', 'u', 'e'] ==> desktop_entry(a + key_no_display() + seq!['=']
            + v + seq!['\n']) is None,
        lowercase_of(v) != seq!['t', 'r', 'u', 'e'] ==> desktop_entry(a + key_no_display() + seq![
            '=',
        ] + v + seq!['\n']) == desktop_entry(a),
{
    let k = key_no_display();
    assert(plain_key(k)) by {
        if k.contains('=') || k.contains('[') || k.contains('\n') {
            let i = choose|i: int| 0 <= i < k.len() && (k[i] == '=' || k[i] == '[' || k[i] == '\n');
            assert(0 <= i < k.len());
        }
    }
    let l = k + seq!['='] + v;
    lemma_key_line_text(k, v);
    assert(a + k + seq!['='] + v + seq!['\n'] =~= a + l + seq!['\n']);
    lemma_append_line(a, l);
    match desktop_entry(a) {
        None => {},
        Some(e2) => {
            lemma_no_display_step(v, e2);
        },
    }
}

/// Reads a desktop entry from the bytes of a `.desktop` file, decoded as
/// UTF-8 with `U+FFFD` in place of ill-formed sequences.
pub fn fetch_entry_from_bytes(input: Vec<u8>) -> (r: Option<Entry>)
    ensures
        opt_entry_view(r) == desktop_entry(utf8_lossy(input@)),
        valid_utf8(input@) ==> opt_entry_view(r) == desktop_entry(decode_utf8(input@)),
{
    let text = decode_lossy(input.as_slice());
    parse_desktop_entry(text.as_str())
}

/// The entry of the desktop file at `path`, whose contents were read as
/// `contents` (`None` when reading failed).
pub open spec fn file_entry(path: Seq<char>, contents: Option<Seq<u8>>) -> Option<EntryView> {
    match contents {
        None => None,
        Some(bytes) => match desktop_entry(utf8_lossy(bytes)) {
            None => None,
            Some(e) => Some(EntryView { entry_path: path, ..e }),
        },
    }
}

/// The entry of the desktop file at `path` given what reading it gave: no
/// entry when the file could not be read or hides its entry, else the entry
/// with `path` as its entry path.
pub fn fetch_entry_from_contents(path: String, contents: Option<Vec<u8>>) -> (r: Option<Entry>)
    ensures
        opt_entry_view(r) == file_entry(path@, match contents {
            Some(b) => Some(b@),
            None => None,
        }),
{
    match contents {
        None => None,
        Some(bytes) => match fetch_entry_from_bytes(bytes) {
            Some(mut out) => {
                out.entry_path = path;
                Some(out)
            },
            None => None,
        },
    }
}

// ---------------------------------------------------------------------------
// Which entries the current desktop shows
// ---------------------------------------------------------------------------

/// Whether an entry whose `OnlyShowIn` value is `only` is shown on the
/// desktop named `desktop`: always, unless both are known; then when one of
/// the `;`-separated names of `only`, trimmed, equals `desktop` up to case.
pub open spec fn shown_on(only: Option<Seq<char>>, desktop: Option<Seq<char>>) -> bool {
    match only {
        Some(o) => match desktop {
            Some(d) => lists_desktop(o, d),
            None => true,
        },
        None => true,
    }
}

/// Whether one of the `;`-separated names of `only`, trimmed, equals `d` up to case.
pub open spec fn lists_desktop(only: Seq<char>, d: Seq<char>) -> bool {
    exists|i: int|
        0 <= i < split(only, Sep::AnyOf(seq![';'])).len() && #[trigger] names_desktop(
            split(only, Sep::AnyOf(seq![';']))[i],
            d,
        )
}

/// Whether one name of an `OnlyShowIn` list, trimmed, equals the desktop
/// name `d` up to case.
pub open spec fn names_desktop(name: Seq<char>, d: Seq<char>) -> bool {
    lowercase_of(trim(name)) == lowercase_of(d)
}

/// Where `;` occurs, and only there, the separator of an `OnlyShowIn` list occurs.
proof fn lemma_semicolon_at(s: Seq<char>, k: int)
    ensures
        sep_at(s, Sep::AnyOf(seq![';']), k) == (0 <= k < s.len() && s[k] == ';'),
{
    if 0 <= k < s.len() && s[k] == ';' {
        assert(seq![';'][0] == ';');
    }
}

/// A `;`-free text standing between `;`s (or at an end) of a list is one of
/// its pieces.
proof fn lemma_semicolon_piece(a: Seq<char>, n: Seq<char>, b: Seq<char>)
    requires
        a.len() == 0 || a.last() == ';',
        b.len() == 0 || b[0] == ';',
        !n.contains(';'),
    ensures
        split(a + n + b, Sep::AnyOf(seq![';'])).contains(n),
    decreases a.len(),
{
    let sep = Sep::AnyOf(seq![';']);
    let s = a + n + b;
    if a.len() == 0 {
        assert(s =~= n + b);
        assert forall|k: int| 0 <= k < n.len() implies !#[trigger] sep_at(s, sep, k) by {
            lemma_semicolon_at(s, k);
            assert(s[k] == n[k]);
        }
        if b.len() == 0 {
            assert(s =~= n);
            lemma_split_none(s, sep);
            assert(split(s, sep)[0] == n);
        } else {
            lemma_semicolon_at(s, n.len() as int);
            assert(s[n.len() as int] == b[0]);
            lemma_split_at(s, sep, n.len() as int);
            assert(s.take(n.len() as int) =~= n);
            assert(split(s, sep)[0] == n);
        }
    } else {
        lemma_semicolon_at(a, a.len() - 1);
        lemma_find_from(a, sep, 0);
        let j = find_from(a, sep, 0)->0;
        assert forall|k: int| 0 <= k < j implies !#[trigger] sep_at(s, sep, k) by {
            lemma_semicolon_at(s, k);
            lemma_semicolon_at(a, k);
            assert(s[k] == a[k]);
        }
        lemma_semicolon_at(s, j);
        lemma_semicolon_at(a, j);
        assert(s[j] == a[j]);
        lemma_split_at(s, sep, j);
        let a2 = a.skip(j + 1);
        if a2.len() > 0 {
            assert(a2.last() == a.last());
        }
        assert(s.skip(j + 1) =~= a2 + n + b);
        lemma_semicolon_piece(a2, n, b);
        let t = split(a2 + n + b, sep);
        let i = choose|i: int| 0 <= i < t.len() && t[i] == n;
        assert(split(s, sep)[i + 1] == n);
    }
}

/// Each name of an `OnlyShowIn` list counts, the last one included: when
/// `n` is one `;`-separated piece of the list `a + n + b` and, trimmed,
/// equals the desktop name `d` up to case, the entry is shown on `d`.
pub proof fn lemma_listed_desktop_shown(a: Seq<char>, n: Seq<char>, b: Seq<char>, d: Seq<char>)
    requires
        a.len() == 0 || a.last() == ';',
        b.len() == 0 || b[0] == ';',
        !n.contains(';'),
        lowercase_of(trim(n)) == lowercase_of(d),
    ensures
        shown_on(Some(a + n + b), Some(d)),
{
    lemma_semicolon_piece(a, n, b);
    let t = split(a + n + b, Sep::AnyOf(seq![';']));
    let i = choose|i: int| 0 <= i < t.len() && t[i] == n;
    assert(names_desktop(t[i], d));
}

/// An entry whose `OnlyShowIn` is the desktop's own name (one name, with no
/// white space at its ends) is shown on that desktop.
pub proof fn lemma_own_desktop_shown(d: Seq<char>)
    requires
        !d.contains(';'),
        trim(d) == d,
    ensures
        shown_on(Some(d), Some(d)),
{
    assert(Seq::<char>::empty() + d + Seq::<char>::empty() =~= d);
    lemma_listed_desktop_shown(Seq::empty(), d, Seq::empty(), d);
}

/// Whether the entry `e` is shown on the desktop named `desktop` (the value
/// of `XDG_CURRENT_DESKTOP`, `None` when it is not set).
pub fn shown_on_desktop(e: &Entry, desktop: &Option<String>) -> (r: bool)
    ensures
        r == shown_on(e@.only_show_in, opt_string_view(*desktop)),
{
    match (&e.only_show_in, desktop) {
        (Some(only), Some(env)) => {
            let env_low = lowercase_chars(&chars_of(env.as_str()));
            let only_chars = chars_of(only.as_str());
            let semi = vec![';'];
            assert(semi@ =~= seq![';']);
            let parts = split_chars(&only_chars, &Pattern::AnyOf(semi));
            let ghost pv = views(parts@);
            let mut i: usize = 0;
            while i < parts.len()
                invariant
                    i <= parts.len(),
                    pv == views(parts@),
                    pv == split(only@, Sep::AnyOf(seq![';'])),
                    env_low@ == lowercase_of(env@),
                    e@.only_show_in == Some(only@),
                    opt_string_view(*desktop) == Some(env@),
                    forall|j: int| 0 <= j < i ==> !#[trigger] names_desktop(pv[j], env@),
                decreases parts.len() - i,
            {
                let de = lowercase_chars(&trim_white(&parts[i]));
                assert(pv[i as int] == parts@[i as int]@);
                if same_chars(&de, &env_low) {
                    assert(names_desktop(split(only@, Sep::AnyOf(seq![';']))[i as int], env@));
                    return true;
                }
                i = i + 1;
            }
            false
        },
        _ => true,
    }
}

/// The entries read from desktop files, in order, without those that could
/// not be read, that hide themselves, or that the desktop does not show.
pub open spec fn shown_entries(
    files: Seq<(String, Option<Vec<u8>>)>,
    desktop: Option<Seq<char>>,
) -> Seq<EntryView>
    decreases files.len(),
{
    if files.len() == 0 {
        seq![]
    } else {
        let rest = shown_entries(files.drop_last(), desktop);
        let f = files.last();
        match file_entry(f.0@, match f.1 { Some(b) => Some(b@), None => None }) {
            Some(e) => if shown_on(e.only_show_in, desktop) { rest.push(e) } else { rest },
            None => rest,
        }
    }
}

/// Every entry that is kept is shown on the desktop, and comes from a file
/// that could be read, that does not hide its entry, and whose path it holds.
pub proof fn lemma_shown_entries_shown(files: Seq<(String, Option<Vec<u8>>)>, desktop: Option<Seq<char>>)
    ensures
        forall|i: int|
            0 <= i < shown_entries(files, desktop).len() ==> {
                let e = #[trigger] shown_entries(files, desktop)[i];
                &&& shown_on(e.only_show_in, desktop)
                &&& exists|k: int|
                    0 <= k < files.len() && file_entry(files[k].0@, match files[k].1 {
                        Some(b) => Some(b@),
                        None => None,
                    }) == Some(e)
            },
    decreases files.len(),
{
    if files.len() > 0 {
        let prev = files.drop_last();
        lemma_shown_entries_shown(prev, desktop);
        let r = shown_entries(files, desktop);
        let rp = shown_entries(prev, desktop);
        assert forall|i: int|
            0 <= i < r.len() implies {
                let e = #[trigger] r[i];
                &&& shown_on(e.only_show_in, desktop)
                &&& exists|k: int|
                    0 <= k < files.len() && file_entry(files[k].0@, match files[k].1 {
                        Some(b) => Some(b@),
                        None => None,
                    }) == Some(e)
            } by {
            if i < rp.len() {
                assert(r[i] == rp[i]);
                let k = choose|k: int|
                    0 <= k < prev.len() && file_entry(prev[k].0@, match prev[k].1 {
                        Some(b) => Some(b@),
                        None => None,
                    }) == Some(rp[i]);
                assert(prev[k] == files[k]);
            } else {
                let k = files.len() - 1;
                assert(files[k] == files.last());
            }
        }
    }
}

/// Reads the entries of desktop files given the path and what reading gave
/// for each (`None` where reading failed), and keeps those that the desktop
/// named `desktop_env` shows (all of them when it is `None`).
pub fn fetch_entries_from_contents(
    files: Vec<(String, Option<Vec<u8>>)>,
    desktop_env: Option<String>,
) -> (r: Vec<Entry>)
    ensures
        entry_views(r@) == shown_entries(files@, opt_string_view(desktop_env)),
{
    let mut out: Vec<Entry> = Vec::new();
    let mut i: usize = 0;
    while i < files.len()
        invariant
            i <= files.len(),
            entry_views(out@) =~= shown_entries(files@.take(i as int), opt_string_view(desktop_env)),
        decreases files.len() - i,
    {
        let path = files[i].0.clone();
        let entry = match &files[i].1 {
            None => None,
            Some(bytes) => {
                let text = decode_lossy(bytes.as_slice());
                match parse_desktop_entry(text.as_str()) {
                    Some(mut e) => {
                        e.entry_path = path;
                        Some(e)
                    },
                    None => None,
                }
            },
        };
        proof {
            assert(files@.take(i + 1).drop_last() =~= files@.take(i as int));
            assert(files@.take(i + 1).last() == files@[i as int]);
        }
        match entry {
            Some(e) => {
                if shown_on_desktop(&e, &desktop_env) {
                    out.push(e);
                }
            },
            None => {},
        }
        i = i + 1;
    }
    assert(files@.take(files.len() as int) =~= files@);
    out
}

/// The paths among `paths` that hold `.desktop`, in order.
pub open spec fn desktop_paths(paths: Seq<Seq<char>>) -> Seq<Seq<char>>
    decreases paths.len(),
{
    if paths.len() == 0 {
        seq![]
    } else if contains_text(paths.last(), seq!['.', 'd', 'e', 's', 'k', 't', 'o', 'p']) {
        desktop_paths(paths.drop_last()).push(paths.last())
    } else {
        desktop_paths(paths.drop_last())
    }
}

/// Keeps the paths that hold `.desktop`, the files that the menu reads.
pub fn keep_desktop_paths(paths: Vec<String>) -> (r: Vec<String>)
    ensures
        string_views(r@) == desktop_paths(string_views(paths@)),
{
    let ext = vec!['.', 'd', 'e', 's', 'k', 't', 'o', 'p'];
    assert(ext@ =~= seq!['.', 'd', 'e', 's', 'k', 't', 'o', 'p']);
    let ghost pv = string_views(paths@);
    let mut out: Vec<String> = Vec::new();
    let mut i: usize = 0;
    while i < paths.len()
        invariant
            i <= paths.len(),
            pv == string_views(paths@),
            ext@ == seq!['.', 'd', 'e', 's', 'k', 't', 'o', 'p'],
            string_views(out@) =~= desktop_paths(pv.take(i as int)),
        decreases paths.len() - i,
    {
        assert(pv.take(i + 1).drop_last() =~= pv.take(i as int));
        assert(pv.take(i + 1).last() == paths@[i as int]@);
        if has_text(&chars_of(paths[i].as_str()), &ext) {
            out.push(paths[i].clone());
        }
        i = i + 1;
    }
    assert(pv.take(paths.len() as int) =~= pv);
    out
}

} // verus!
