//! Text primitives on sequences of characters: splitting, line breaking,
//! trimming, prefix and substring tests.
//!
//! Every executable function here works on `Vec<char>` and is proved equal
//! to a spec function on `Seq<char>`; the parsers of the crate are written
//! on top of them.
use vstd::prelude::*;

verus! {

broadcast use vstd::seq_lib::group_seq_properties;

// ---------------------------------------------------------------------------
// Character classes
// ---------------------------------------------------------------------------

/// Whether `c` has the Unicode `White_Space` property (what `char::is_whitespace` tests).
pub open spec fn is_white_space(c: char) -> bool {
    ||| ('\u{9}' <= c && c <= '\u{d}')
    ||| c == ' '
    ||| c == '\u{85}'
    ||| c == '\u{a0}'
    ||| c == '\u{1680}'
    ||| ('\u{2000}' <= c && c <= '\u{200a}')
    ||| c == '\u{2028}'
    ||| c == '\u{2029}'
    ||| c == '\u{202f}'
    ||| c == '\u{205f}'
    ||| c == '\u{3000}'
}

/// Executable test for the `White_Space` property.
pub fn is_whitespace(c: char) -> (r: bool)
    ensures
        r == is_white_space(c),
{
    ('\u{9}' <= c && c <= '\u{d}') || c == ' ' || c == '\u{85}' || c == '\u{a0}' || c
        == '\u{1680}' || ('\u{2000}' <= c && c <= '\u{200a}') || c == '\u{2028}' || c
        == '\u{2029}' || c == '\u{202f}' || c == '\u{205f}' || c == '\u{3000}'
}

/// A set of characters, as used by the trimming functions.
pub enum CharSet {
    WhiteSpace,
    AnyOf(Seq<char>),
}

impl CharSet {
    pub open spec fn has(self, c: char) -> bool {
        match self {
            CharSet::WhiteSpace => is_white_space(c),
            CharSet::AnyOf(cs) => cs.contains(c),
        }
    }
}

/// Executable form of [`CharSet`].
pub enum CharClass {
    WhiteSpace,
    AnyOf(Vec<char>),
}

impl View for CharClass {
    type V = CharSet;

    open spec fn view(&self) -> CharSet {
        match self {
            CharClass::WhiteSpace => CharSet::WhiteSpace,
            CharClass::AnyOf(cs) => CharSet::AnyOf(cs@),
        }
    }
}

/// Whether `cs` contains `c`.
pub fn contains_char(cs: &Vec<char>, c: char) -> (r: bool)
    ensures
        r == cs@.contains(c),
{
    let mut i: usize = 0;
    while i < cs.len()
        invariant
            i <= cs.len(),
            forall|j: int| 0 <= j < i ==> cs@[j] != c,
        decreases cs.len() - i,
    {
        if cs[i] == c {
            assert(cs@[i as int] == c);
            return true;
        }
        i = i + 1;
    }
    proof {
        if cs@.contains(c) {
            let j = choose|j: int| 0 <= j < cs@.len() && cs@[j] == c;
            assert(cs@[j] != c);
        }
    }
    false
}

impl CharClass {
    pub fn has(&self, c: char) -> (r: bool)
        ensures
            r == self@.has(c),
    {
        match self {
            CharClass::WhiteSpace => is_whitespace(c),
            CharClass::AnyOf(cs) => contains_char(cs, c),
        }
    }
}

// ---------------------------------------------------------------------------
// Separators and splitting
// ---------------------------------------------------------------------------

/// A separator: any one character of a set, or a fixed non-empty string.
pub enum Sep {
    AnyOf(Seq<char>),
    Text(Seq<char>),
}

impl Sep {
    /// How many characters one occurrence of the separator takes.
    pub open spec fn width(self) -> int {
        match self {
            Sep::AnyOf(_) => 1,
            Sep::Text(p) => p.len() as int,
        }
    }

    pub open spec fn wf(self) -> bool {
        self.width() > 0
    }
}

/// Whether an occurrence of `sep` starts at position `i` of `s`.
pub open spec fn sep_at(s: Seq<char>, sep: Sep, i: int) -> bool {
    match sep {
        Sep::AnyOf(cs) => 0 <= i < s.len() && cs.contains(s[i]),
        Sep::Text(p) => 0 <= i && i + p.len() <= s.len() && s.subrange(i, i + p.len()) =~= p,
    }
}

/// The first position at or after `i` where `sep` occurs in `s`.
pub open spec fn find_from(s: Seq<char>, sep: Sep, i: int) -> Option<int>
    decreases s.len() - i,
{
    if i < 0 || i >= s.len() {
        None
    } else if sep_at(s, sep, i) {
        Some(i)
    } else {
        find_from(s, sep, i + 1)
    }
}

/// The pieces of `s` between the occurrences of `sep`, found from left to
/// right without overlap (what `str::split` yields).
pub open spec fn split(s: Seq<char>, sep: Sep) -> Seq<Seq<char>>
    decreases s.len(),
{
    if !sep.wf() {
        seq![s]
    } else {
        match find_from(s, sep, 0) {
            None => seq![s],
            Some(i) => {
                if 0 <= i && i + sep.width() <= s.len() {
                    seq![s.take(i)] + split(s.skip(i + sep.width()), sep)
                } else {
                    seq![s]
                }
            },
        }
    }
}

/// Whether `p` occurs somewhere in `s` (what `str::contains` tests).
pub open spec fn contains_text(s: Seq<char>, p: Seq<char>) -> bool {
    exists|i: int| sep_at(s, Sep::Text(p), i)
}

/// Whether `s` begins with `p` (what `str::starts_with` tests).
pub open spec fn starts_with(s: Seq<char>, p: Seq<char>) -> bool {
    p.len() <= s.len() && s.take(p.len() as int) =~= p
}

/// A line without its carriage return, if it ends with one.
pub open spec fn strip_cr(l: Seq<char>) -> Seq<char> {
    if l.len() > 0 && l.last() == '\r' {
        l.drop_last()
    } else {
        l
    }
}

/// The lines of `s` (what `str::lines` yields): pieces ended by `\n`, each
/// without a `\r` just before that `\n`; the last line needs no `\n`, and an
/// empty text has no line.
pub open spec fn lines(s: Seq<char>) -> Seq<Seq<char>>
    decreases s.len(),
{
    if s.len() == 0 {
        seq![]
    } else {
        match find_from(s, Sep::AnyOf(seq!['\n']), 0) {
            None => seq![s],
            Some(i) => {
                if 0 <= i < s.len() {
                    seq![strip_cr(s.take(i))] + lines(s.skip(i + 1))
                } else {
                    seq![s]
                }
            },
        }
    }
}

// ---------------------------------------------------------------------------
// Trimming
// ---------------------------------------------------------------------------

/// `s` without the characters of `set` at its start.
pub open spec fn trim_start(s: Seq<char>, set: CharSet) -> Seq<char>
    decreases s.len(),
{
    if s.len() > 0 && set.has(s[0]) {
        trim_start(s.drop_first(), set)
    } else {
        s
    }
}

/// `s` without the characters of `set` at its end.
pub open spec fn trim_end(s: Seq<char>, set: CharSet) -> Seq<char>
    decreases s.len(),
{
    if s.len() > 0 && set.has(s.last()) {
        trim_end(s.drop_last(), set)
    } else {
        s
    }
}

/// `s` without the characters of `set` at either end (what `str::trim_matches` gives).
pub open spec fn trim_set(s: Seq<char>, set: CharSet) -> Seq<char> {
    trim_end(trim_start(s, set), set)
}

/// `s` without white space at either end (what `str::trim` gives).
pub open spec fn trim(s: Seq<char>) -> Seq<char> {
    trim_set(s, CharSet::WhiteSpace)
}

// ---------------------------------------------------------------------------
// Lemmas
// ---------------------------------------------------------------------------

/// What `find_from` returns: the first occurrence at or after `i`.
pub proof fn lemma_find_from(s: Seq<char>, sep: Sep, i: int)
    requires
        0 <= i,
    ensures
        match find_from(s, sep, i) {
            Some(j) => i <= j < s.len() && sep_at(s, sep, j) && (forall|k: int|
                i <= k < j ==> !#[trigger] sep_at(s, sep, k)),
            None => forall|k: int| i <= k < s.len() ==> !#[trigger] sep_at(s, sep, k),
        },
    decreases s.len() - i,
{
    if i >= s.len() {
    } else if sep_at(s, sep, i) {
    } else {
        lemma_find_from(s, sep, i + 1);
    }
}

/// `find_from` is the first occurrence: a converse of [`lemma_find_from`].
pub proof fn lemma_find_from_is(s: Seq<char>, sep: Sep, i: int, j: int)
    requires
        0 <= i <= j < s.len(),
        sep_at(s, sep, j),
        forall|k: int| i <= k < j ==> !#[trigger] sep_at(s, sep, k),
    ensures
        find_from(s, sep, i) == Some(j),
    decreases j - i,
{
    if i < j {
        assert(!sep_at(s, sep, i));
        lemma_find_from_is(s, sep, i + 1, j);
    }
}

/// No occurrence at or after `i`: `find_from` finds none.
pub proof fn lemma_find_from_none(s: Seq<char>, sep: Sep, i: int)
    requires
        0 <= i,
        forall|k: int| i <= k < s.len() ==> !#[trigger] sep_at(s, sep, k),
    ensures
        find_from(s, sep, i) is None,
    decreases s.len() - i,
{
    if i < s.len() {
        assert(!sep_at(s, sep, i));
        lemma_find_from_none(s, sep, i + 1);
    }
}

/// Occurrences in a suffix are occurrences in the whole, shifted.
pub proof fn lemma_sep_at_skip(s: Seq<char>, sep: Sep, n: int, i: int)
    requires
        0 <= n <= s.len(),
        0 <= i,
    ensures
        sep_at(s.skip(n), sep, i) == sep_at(s, sep, i + n),
{
    match sep {
        Sep::AnyOf(cs) => {},
        Sep::Text(p) => {
            if i + p.len() <= s.len() - n {
                assert(s.skip(n).subrange(i, i + p.len()) =~= s.subrange(i + n, i + n + p.len()));
            }
        },
    }
}

/// Occurrences of `sep` in a prefix are occurrences in the whole.
pub proof fn lemma_sep_at_prefix(a: Seq<char>, b: Seq<char>, sep: Sep, i: int)
    requires
        sep_at(a, sep, i),
    ensures
        sep_at(a + b, sep, i),
{
    match sep {
        Sep::AnyOf(cs) => {},
        Sep::Text(p) => {
            assert((a + b).subrange(i, i + p.len()) =~= a.subrange(i, i + p.len()));
        },
    }
}

/// How `split` unfolds when the first occurrence is at `i`.
pub proof fn lemma_split_at(s: Seq<char>, sep: Sep, i: int)
    requires
        sep.wf(),
        0 <= i < s.len(),
        sep_at(s, sep, i),
        forall|k: int| 0 <= k < i ==> !#[trigger] sep_at(s, sep, k),
    ensures
        split(s, sep) == seq![s.take(i)] + split(s.skip(i + sep.width()), sep),
{
    lemma_find_from_is(s, sep, 0, i);
    match sep {
        Sep::AnyOf(cs) => {},
        Sep::Text(p) => {},
    }
}

/// Without any occurrence, `split` gives the whole text as its one piece.
pub proof fn lemma_split_none(s: Seq<char>, sep: Sep)
    requires
        forall|k: int| 0 <= k < s.len() ==> !#[trigger] sep_at(s, sep, k),
    ensures
        split(s, sep) == seq![s],
{
    lemma_find_from_none(s, sep, 0);
}

/// `split` always yields at least one piece.
pub proof fn lemma_split_nonempty(s: Seq<char>, sep: Sep)
    ensures
        split(s, sep).len() >= 1,
    decreases s.len(),
{
    if sep.wf() {
        match find_from(s, sep, 0) {
            None => {},
            Some(i) => {
                if 0 <= i && i + sep.width() <= s.len() {
                    lemma_split_nonempty(s.skip(i + sep.width()), sep);
                }
            },
        }
    }
}

/// `split` of `a + [c] + b` where `c` is the first separator.
pub proof fn lemma_split_concat(a: Seq<char>, m: Seq<char>, b: Seq<char>, sep: Sep)
    requires
        sep.wf(),
        m.len() == sep.width(),
        sep_at(m, sep, 0),
        forall|k: int| 0 <= k < a.len() ==> !#[trigger] sep_at(a + m, sep, k),
    ensures
        split(a + m + b, sep) == seq![a] + split(b, sep),
{
    let s = a + m + b;
    assert(s == (a + m) + b);
    lemma_sep_at_skip(a + m, sep, a.len() as int, 0);
    assert((a + m).skip(a.len() as int) =~= m);
    lemma_sep_at_prefix(a + m, b, sep, a.len() as int);
    assert forall|k: int| 0 <= k < a.len() implies !#[trigger] sep_at(s, sep, k) by {
        match sep {
            Sep::AnyOf(cs) => {
                assert(!sep_at(a + m, sep, k));
                assert(s[k] == (a + m)[k]);
            },
            Sep::Text(p) => {
                assert(!sep_at(a + m, sep, k));
                if k + p.len() <= a.len() + m.len() {
                    assert(s.subrange(k, k + p.len()) =~= (a + m).subrange(k, k + p.len()));
                }
            },
        }
    }
    lemma_split_at(s, sep, a.len() as int);
    assert(s.take(a.len() as int) =~= a);
    assert(s.skip((a.len() + m.len()) as int) =~= b);
}

// ---------------------------------------------------------------------------
// Executable functions
// ---------------------------------------------------------------------------

/// The character sequences held by a sequence of vectors.
pub open spec fn views(v: Seq<Vec<char>>) -> Seq<Seq<char>> {
    v.map_values(|x: Vec<char>| x@)
}

/// Executable form of [`Sep`]; a text separator must not be empty.
pub enum Pattern {
    AnyOf(Vec<char>),
    Text(Vec<char>),
}

impl View for Pattern {
    type V = Sep;

    open spec fn view(&self) -> Sep {
        match self {
            Pattern::AnyOf(cs) => Sep::AnyOf(cs@),
            Pattern::Text(p) => Sep::Text(p@),
        }
    }
}

impl Pattern {
    pub fn width(&self) -> (w: usize)
        ensures
            w == self@.width(),
    {
        match self {
            Pattern::AnyOf(_) => 1,
            Pattern::Text(p) => p.len(),
        }
    }

    /// Whether an occurrence starts at `i` of `s`.
    pub fn occurs_at(&self, s: &Vec<char>, i: usize) -> (r: bool)
        ensures
            r == sep_at(s@, self@, i as int),
    {
        match self {
            Pattern::AnyOf(cs) => i < s.len() && contains_char(cs, s[i]),
            Pattern::Text(p) => {
                if p.len() > s.len() || i > s.len() - p.len() {
                    return false;
                }
                let mut k: usize = 0;
                while k < p.len()
                    invariant
                        self@ == Sep::Text(p@),
                        k <= p.len(),
                        i + p.len() <= s.len(),
                        forall|j: int| 0 <= j < k ==> s@[i + j] == p@[j],
                    decreases p.len() - k,
                {
                    if s[i + k] != p[k] {
                        assert(s@.subrange(i as int, i + p.len())[k as int] != p@[k as int]);
                        return false;
                    }
                    k = k + 1;
                }
                assert(s@.subrange(i as int, i + p.len()) =~= p@);
                true
            },
        }
    }
}

/// The first occurrence of `sep` in `s` at or after `start`.
pub fn find(s: &Vec<char>, sep: &Pattern, start: usize) -> (r: Option<usize>)
    ensures
        match r {
            Some(i) => find_from(s@, sep@, start as int) == Some(i as int),
            None => find_from(s@, sep@, start as int) is None,
        },
{
    let mut i = start;
    while i < s.len()
        invariant
            start <= i,
            forall|k: int| start <= k < i ==> !#[trigger] sep_at(s@, sep@, k),
        decreases s.len() - i,
    {
        if sep.occurs_at(s, i) {
            proof {
                lemma_find_from_is(s@, sep@, start as int, i as int);
            }
            return Some(i);
        }
        i = i + 1;
    }
    proof {
        lemma_find_from_none(s@, sep@, start as int);
    }
    None
}

/// The characters `s[from..to]`.
pub fn slice_chars(s: &Vec<char>, from: usize, to: usize) -> (r: Vec<char>)
    requires
        from <= to <= s.len(),
    ensures
        r@ == s@.subrange(from as int, to as int),
{
    let mut r: Vec<char> = Vec::new();
    let mut i = from;
    while i < to
        invariant
            from <= i <= to <= s.len(),
            r@ =~= s@.subrange(from as int, i as int),
        decreases to - i,
    {
        r.push(s[i]);
        i = i + 1;
    }
    r
}

/// Whether `a` and `b` hold the same characters.
pub fn same_chars(a: &Vec<char>, b: &Vec<char>) -> (r: bool)
    ensures
        r == (a@ == b@),
{
    if a.len() != b.len() {
        return false;
    }
    let mut i: usize = 0;
    while i < a.len()
        invariant
            a.len() == b.len(),
            i <= a.len(),
            forall|j: int| 0 <= j < i ==> a@[j] == b@[j],
        decreases a.len() - i,
    {
        if a[i] != b[i] {
            return false;
        }
        i = i + 1;
    }
    assert(a@ =~= b@);
    true
}

/// The first occurrence at or after `n` in `s` is the first occurrence in
/// the suffix of `s` from `n`, shifted by `n`.
proof fn lemma_find_shift(s: Seq<char>, sep: Sep, n: int)
    requires
        0 <= n <= s.len(),
    ensures
        match find_from(s, sep, n) {
            Some(j) => find_from(s.skip(n), sep, 0) == Some(j - n),
            None => find_from(s.skip(n), sep, 0) is None,
        },
{
    lemma_find_from(s, sep, n);
    let t = s.skip(n);
    match find_from(s, sep, n) {
        Some(j) => {
            lemma_sep_at_skip(s, sep, n, j - n);
            assert forall|k: int| 0 <= k < j - n implies !#[trigger] sep_at(t, sep, k) by {
                lemma_sep_at_skip(s, sep, n, k);
            }
            lemma_find_from_is(t, sep, 0, j - n);
        },
        None => {
            assert forall|k: int| 0 <= k < t.len() implies !#[trigger] sep_at(t, sep, k) by {
                lemma_sep_at_skip(s, sep, n, k);
            }
            lemma_find_from_none(t, sep, 0);
        },
    }
}

/// How `split` unfolds on a suffix of `s` whose first separator is at `i`.
proof fn lemma_split_step(s: Seq<char>, sep: Sep, start: int, i: int)
    requires
        sep.wf(),
        0 <= start <= i < s.len(),
        find_from(s, sep, start) == Some(i),
    ensures
        i + sep.width() <= s.len(),
        split(s.skip(start), sep) == seq![s.subrange(start, i)] + split(s.skip(i + sep.width()), sep),
{
    let t = s.skip(start);
    lemma_find_shift(s, sep, start);
    lemma_find_from(s, sep, start);
    match sep {
        Sep::AnyOf(cs) => {},
        Sep::Text(p) => {},
    }
    assert(t.take(i - start) =~= s.subrange(start, i));
    assert(t.skip(i - start + sep.width()) =~= s.skip(i + sep.width()));
}

/// How `split` ends on a suffix of `s` without separator.
proof fn lemma_split_last(s: Seq<char>, sep: Sep, start: int)
    requires
        sep.wf(),
        0 <= start <= s.len(),
        find_from(s, sep, start) is None,
    ensures
        split(s.skip(start), sep) == seq![s.skip(start)],
{
    lemma_find_shift(s, sep, start);
}

/// The pieces of `s` between the occurrences of `sep` (`str::split`).
pub fn split_chars(s: &Vec<char>, sep: &Pattern) -> (r: Vec<Vec<char>>)
    requires
        sep@.wf(),
    ensures
        views(r@) =~= split(s@, sep@),
{
    let mut parts: Vec<Vec<char>> = Vec::new();
    let mut start: usize = 0;
    let w = sep.width();
    loop
        invariant
            start <= s.len(),
            w == sep@.width(),
            sep@.wf(),
            views(parts@) + split(s@.skip(start as int), sep@) == split(s@, sep@),
        decreases s.len() - start,
    {
        let ghost before = views(parts@);
        match find(s, sep, start) {
            None => {
                proof {
                    lemma_split_last(s@, sep@, start as int);
                }
                let piece = slice_chars(s, start, s.len());
                parts.push(piece);
                proof {
                    assert(piece@ =~= s@.skip(start as int));
                    assert(views(parts@) =~= before.push(piece@));
                    assert(before + seq![piece@] =~= before.push(piece@));
                }
                return parts;
            },
            Some(i) => {
                proof {
                    lemma_find_from(s@, sep@, start as int);
                    lemma_split_step(s@, sep@, start as int, i as int);
                }
                let piece = slice_chars(s, start, i);
                parts.push(piece);
                proof {
                    assert(views(parts@) =~= before.push(piece@));
                    let rest = split(s@.skip(i + w), sep@);
                    assert(before + (seq![piece@] + rest) =~= before.push(piece@) + rest);
                }
                start = i + w;
            },
        }
    }
}

/// How `lines` unfolds on a suffix of `s` whose first line end is at `i`.
proof fn lemma_lines_step(s: Seq<char>, start: int, i: int)
    requires
        0 <= start <= i < s.len(),
        find_from(s, Sep::AnyOf(seq!['\n']), start) == Some(i),
    ensures
        lines(s.skip(start)) == seq![strip_cr(s.subrange(start, i))] + lines(s.skip(i + 1)),
{
    let nl = Sep::AnyOf(seq!['\n']);
    let t = s.skip(start);
    lemma_find_shift(s, nl, start);
    assert(find_from(t, nl, 0) == Some(i - start));
    assert(t.take(i - start) =~= s.subrange(start, i));
    assert(t.skip(i - start + 1) =~= s.skip(i + 1));
}

/// How `lines` ends on a suffix of `s` without line end.
proof fn lemma_lines_last(s: Seq<char>, start: int)
    requires
        0 <= start < s.len(),
        find_from(s, Sep::AnyOf(seq!['\n']), start) is None,
    ensures
        lines(s.skip(start)) == seq![s.skip(start)],
{
    lemma_find_shift(s, Sep::AnyOf(seq!['\n']), start);
}

/// The lines of `s` (`str::lines`).
pub fn lines_of(s: &Vec<char>) -> (r: Vec<Vec<char>>)
    ensures
        views(r@) =~= lines(s@),
{
    let mut out: Vec<Vec<char>> = Vec::new();
    let mut start: usize = 0;
    let nl_chars = vec!['\n'];
    assert(nl_chars@ =~= seq!['\n']);
    let nl = Pattern::AnyOf(nl_chars);
    loop
        invariant
            start <= s.len(),
            nl@ == Sep::AnyOf(seq!['\n']),
            views(out@) + lines(s@.skip(start as int)) == lines(s@),
        decreases s.len() - start,
    {
        if start == s.len() {
            proof {
                assert(s@.skip(start as int) =~= Seq::<char>::empty());
                assert(lines(Seq::<char>::empty()) == Seq::<Seq<char>>::empty());
                assert(views(out@) + Seq::<Seq<char>>::empty() =~= views(out@));
            }
            return out;
        }
        let ghost before = views(out@);
        match find(s, &nl, start) {
            None => {
                proof {
                    lemma_lines_last(s@, start as int);
                }
                let piece = slice_chars(s, start, s.len());
                out.push(piece);
                proof {
                    assert(piece@ =~= s@.skip(start as int));
                    assert(views(out@) =~= before.push(piece@));
                    assert(before + seq![piece@] =~= before.push(piece@));
                }
                return out;
            },
            Some(i) => {
                proof {
                    lemma_find_from(s@, nl@, start as int);
                    lemma_lines_step(s@, start as int, i as int);
                }
                let end = if i > start && s[i - 1] == '\r' {
                    i - 1
                } else {
                    i
                };
                let piece = slice_chars(s, start, end);
                out.push(piece);
                proof {
                    assert(strip_cr(s@.subrange(start as int, i as int)) =~= piece@);
                    assert(views(out@) =~= before.push(piece@));
                    let rest = lines(s@.skip(i + 1));
                    assert(before + (seq![piece@] + rest) =~= before.push(piece@) + rest);
                }
                start = i + 1;
            },
        }
    }
}

/// `s` without the characters of `set` at either end (`str::trim_matches`).
pub fn trim_chars(s: &Vec<char>, set: &CharClass) -> (r: Vec<char>)
    ensures
        r@ == trim_set(s@, set@),
{
    let mut a: usize = 0;
    while a < s.len() && set.has(s[a])
        invariant
            a <= s.len(),
            trim_start(s@, set@) == trim_start(s@.skip(a as int), set@),
        decreases s.len() - a,
    {
        proof {
            let t = s@.skip(a as int);
            assert(t.drop_first() =~= s@.skip(a + 1));
        }
        a = a + 1;
    }
    assert(trim_start(s@.skip(a as int), set@) == s@.skip(a as int));
    let mut b: usize = s.len();
    while b > a && set.has(s[b - 1])
        invariant
            a <= b <= s.len(),
            trim_set(s@, set@) == trim_end(s@.subrange(a as int, b as int), set@),
        decreases b - a,
    {
        proof {
            let t = s@.subrange(a as int, b as int);
            assert(t.last() == s@[b - 1]);
            assert(t.drop_last() =~= s@.subrange(a as int, b - 1));
        }
        b = b - 1;
    }
    proof {
        assert(s@.skip(a as int) =~= s@.subrange(a as int, s.len() as int));
    }
    slice_chars(s, a, b)
}

/// `s` without white space at either end (`str::trim`).
pub fn trim_white(s: &Vec<char>) -> (r: Vec<char>)
    ensures
        r@ == trim(s@),
{
    trim_chars(s, &CharClass::WhiteSpace)
}

/// Whether `s` begins with `p` (`str::starts_with`).
pub fn begins_with(s: &Vec<char>, p: &Vec<char>) -> (r: bool)
    ensures
        r == starts_with(s@, p@),
{
    if p.len() > s.len() {
        return false;
    }
    let mut i: usize = 0;
    while i < p.len()
        invariant
            p.len() <= s.len(),
            i <= p.len(),
            forall|j: int| 0 <= j < i ==> s@[j] == p@[j],
        decreases p.len() - i,
    {
        if s[i] != p[i] {
            assert(s@.take(p.len() as int)[i as int] != p@[i as int]);
            return false;
        }
        i = i + 1;
    }
    assert(s@.take(p.len() as int) =~= p@);
    true
}

/// Whether `p` occurs in `s` (`str::contains`); `p` must not be empty.
pub fn has_text(s: &Vec<char>, p: &Vec<char>) -> (r: bool)
    requires
        p.len() > 0,
    ensures
        r == contains_text(s@, p@),
{
    let pat = Pattern::Text(p.clone());
    assert(pat@ == Sep::Text(p@));
    let r = find(s, &pat, 0);
    proof {
        lemma_find_from(s@, pat@, 0);
    }
    r.is_some()
}

// ---------------------------------------------------------------------------
// Joining
// ---------------------------------------------------------------------------

/// The pieces of `ps` with `sep` between each two.
pub open spec fn join(ps: Seq<Seq<char>>, sep: Seq<char>) -> Seq<char>
    decreases ps.len(),
{
    if ps.len() == 0 {
        seq![]
    } else if ps.len() == 1 {
        ps[0]
    } else {
        ps[0] + sep + join(ps.drop_first(), sep)
    }
}

/// Appending one more piece to a join.
pub proof fn lemma_join_push(ps: Seq<Seq<char>>, sep: Seq<char>, p: Seq<char>)
    ensures
        join(ps.push(p), sep) == if ps.len() == 0 {
            p
        } else {
            join(ps, sep) + sep + p
        },
    decreases ps.len(),
{
    if ps.len() == 0 {
        assert(ps.push(p) =~= seq![p]);
        assert(ps.push(p)[0] == p);
        assert(join(ps.push(p), sep) == p);
    } else if ps.len() == 1 {
        let q = ps.push(p);
        assert(q.drop_first() =~= seq![p]);
        assert(q.drop_first()[0] == p);
        assert(join(q.drop_first(), sep) == p);
        assert(q[0] == ps[0]);
        assert(join(ps, sep) == ps[0]);
        assert(join(q, sep) == ps[0] + sep + p);
    } else {
        lemma_join_push(ps.drop_first(), sep, p);
        assert(ps.push(p).drop_first() =~= ps.drop_first().push(p));
        assert(ps.push(p)[0] == ps[0]);
        assert(join(ps.push(p), sep) =~= ps[0] + sep + (join(ps.drop_first(), sep) + sep + p));
        assert(ps[0] + sep + (join(ps.drop_first(), sep) + sep + p) =~= join(ps, sep) + sep + p);
    }
}

// ---------------------------------------------------------------------------
// Lemmas for texts built by concatenation
// ---------------------------------------------------------------------------

/// A concatenation holds a character exactly when one of its parts does.
pub proof fn lemma_contains_concat(a: Seq<char>, b: Seq<char>, c: char)
    ensures
        (a + b).contains(c) == (a.contains(c) || b.contains(c)),
{
    if (a + b).contains(c) {
        let i = choose|i: int| 0 <= i < (a + b).len() && (a + b)[i] == c;
        if i < a.len() {
            assert(a[i] == c);
        } else {
            assert(b[i - a.len()] == c);
        }
    }
    if a.contains(c) {
        let i = choose|i: int| 0 <= i < a.len() && a[i] == c;
        assert((a + b)[i] == c);
    }
    if b.contains(c) {
        let i = choose|i: int| 0 <= i < b.len() && b[i] == c;
        assert((a + b)[a.len() + i] == c);
    }
}

/// A join of pieces without `c`, by a separator without `c`, holds no `c`.
pub proof fn lemma_join_free_char(ps: Seq<Seq<char>>, sep: Seq<char>, c: char)
    requires
        forall|i: int| 0 <= i < ps.len() ==> !(#[trigger] ps[i]).contains(c),
        !sep.contains(c),
    ensures
        !join(ps, sep).contains(c),
    decreases ps.len(),
{
    if ps.len() == 0 {
    } else if ps.len() == 1 {
        assert(!ps[0].contains(c));
    } else {
        let rest = ps.drop_first();
        assert forall|i: int| 0 <= i < rest.len() implies !(#[trigger] rest[i]).contains(c) by {
            assert(rest[i] == ps[i + 1]);
        }
        lemma_join_free_char(rest, sep, c);
        assert(!ps[0].contains(c));
        lemma_contains_concat(ps[0], sep, c);
        lemma_contains_concat(ps[0] + sep, join(rest, sep), c);
    }
}

/// Splitting a join by one character gives the pieces back, when no piece
/// holds that character.
pub proof fn lemma_split_join_char(ps: Seq<Seq<char>>, c: char)
    requires
        ps.len() >= 1,
        forall|i: int| 0 <= i < ps.len() ==> !(#[trigger] ps[i]).contains(c),
    ensures
        split(join(ps, seq![c]), Sep::AnyOf(seq![c])) == ps,
    decreases ps.len(),
{
    let sep = Sep::AnyOf(seq![c]);
    if ps.len() == 1 {
        let s = ps[0];
        assert(!s.contains(c));
        assert forall|k: int| 0 <= k < s.len() implies !#[trigger] sep_at(s, sep, k) by {
            if sep_at(s, sep, k) {
                assert(seq![c].contains(s[k]));
                assert(s[k] == c);
            }
        }
        lemma_split_none(s, sep);
        assert(seq![s] =~= ps);
    } else {
        let a = ps[0];
        let rest = ps.drop_first();
        assert forall|i: int| 0 <= i < rest.len() implies !(#[trigger] rest[i]).contains(c) by {
            assert(rest[i] == ps[i + 1]);
        }
        lemma_split_join_char(rest, c);
        assert(!a.contains(c));
        assert(seq![c].contains(c));
        assert(sep_at(seq![c], sep, 0));
        assert forall|k: int| 0 <= k < a.len() implies !#[trigger] sep_at(a + seq![c], sep, k) by {
            if sep_at(a + seq![c], sep, k) {
                assert((a + seq![c])[k] == a[k]);
                assert(seq![c].contains(a[k]));
                assert(a[k] == c);
            }
        }
        lemma_split_concat(a, seq![c], join(rest, seq![c]), sep);
        assert(seq![a] + rest =~= ps);
    }
}

/// Without its first character, a text holds no occurrence of `p`.
pub proof fn lemma_no_text_without_first(s: Seq<char>, p: Seq<char>)
    requires
        p.len() > 0,
        !s.contains(p[0]),
    ensures
        !contains_text(s, p),
{
    if contains_text(s, p) {
        let k = choose|k: int| sep_at(s, Sep::Text(p), k);
        assert(s.subrange(k, k + p.len())[0] == p[0]);
        assert(s[k] == p[0]);
    }
}

/// Without any occurrence of `p`, splitting at `p` gives the text back.
pub proof fn lemma_split_no_text(s: Seq<char>, p: Seq<char>)
    requires
        !contains_text(s, p),
    ensures
        split(s, Sep::Text(p)) == seq![s],
{
    lemma_split_none(s, Sep::Text(p));
}

/// Splitting `a + p + b` at `p`, when `a` does not hold the first character of `p`.
pub proof fn lemma_split_lead(a: Seq<char>, p: Seq<char>, b: Seq<char>)
    requires
        p.len() > 0,
        !a.contains(p[0]),
    ensures
        split(a + p + b, Sep::Text(p)) == seq![a] + split(b, Sep::Text(p)),
{
    let sep = Sep::Text(p);
    assert(sep_at(p, sep, 0)) by {
        assert(p.subrange(0, p.len() as int) =~= p);
    }
    assert forall|k: int| 0 <= k < a.len() implies !#[trigger] sep_at(a + p, sep, k) by {
        if sep_at(a + p, sep, k) {
            assert((a + p).subrange(k, k + p.len())[0] == p[0]);
            assert((a + p)[k] == a[k]);
        }
    }
    lemma_split_concat(a, p, b, sep);
}

/// A two-character pattern occurs in `a + b` only in `a`, in `b`, or across
/// their meeting point.
pub proof fn lemma_pair_concat(a: Seq<char>, b: Seq<char>, p: Seq<char>)
    requires
        p.len() == 2,
        !contains_text(a, p),
        !contains_text(b, p),
        !(a.len() > 0 && b.len() > 0 && a.last() == p[0] && b[0] == p[1]),
    ensures
        !contains_text(a + b, p),
{
    let s = a + b;
    if contains_text(s, p) {
        let k = choose|k: int| sep_at(s, Sep::Text(p), k);
        let w = s.subrange(k, k + 2);
        assert(w[0] == p[0] && w[1] == p[1]);
        assert(s[k] == p[0] && s[k + 1] == p[1]);
        if k + 2 <= a.len() {
            assert(a.subrange(k, k + 2) =~= p);
            assert(sep_at(a, Sep::Text(p), k));
        } else if k >= a.len() {
            assert(b.subrange(k - a.len(), k - a.len() + 2) =~= p);
            assert(sep_at(b, Sep::Text(p), k - a.len()));
        } else {
            assert(a.last() == s[k]);
            assert(b[0] == s[k + 1]);
        }
    }
}

/// A join of pieces and separators free of a two-character pattern, where
/// no meeting point makes it, is free of it; it begins as its first piece
/// and ends as its last.
pub proof fn lemma_join_pair_free(ps: Seq<Seq<char>>, sep: Seq<char>, p: Seq<char>)
    requires
        p.len() == 2,
        ps.len() >= 1,
        forall|i: int|
            0 <= i < ps.len() ==> (#[trigger] ps[i]).len() > 0 && !contains_text(ps[i], p) && ps[i][0]
                != p[1] && ps[i].last() != p[0],
        sep.len() > 0,
        !contains_text(sep, p),
        sep[0] != p[1],
        sep.last() != p[0],
    ensures
        !contains_text(join(ps, sep), p),
        join(ps, sep).len() > 0,
        join(ps, sep)[0] == ps[0][0],
        join(ps, sep).last() == ps.last().last(),
    decreases ps.len(),
{
    if ps.len() == 1 {
        assert(ps[0].len() > 0);
    } else {
        let rest = ps.drop_first();
        assert forall|i: int|
            0 <= i < rest.len() implies (#[trigger] rest[i]).len() > 0 && !contains_text(rest[i], p)
            && rest[i][0] != p[1] && rest[i].last() != p[0] by {
            assert(rest[i] == ps[i + 1]);
        }
        lemma_join_pair_free(rest, sep, p);
        let a = ps[0];
        assert(a.len() > 0);
        let j = join(rest, sep);
        lemma_pair_concat(a, sep, p);
        assert((a + sep).last() == sep.last());
        lemma_pair_concat(a + sep, j, p);
        assert(rest.last() == ps.last());
        assert((a + sep + j)[0] == a[0]);
        assert((a + sep + j).last() == j.last());
    }
}

/// Splitting a join by a two-character separator gives the pieces back,
/// when no piece holds the separator or ends with its first character.
pub proof fn lemma_split_join_pair(ps: Seq<Seq<char>>, p: Seq<char>)
    requires
        p.len() == 2,
        ps.len() >= 1,
        forall|i: int|
            0 <= i < ps.len() ==> !contains_text(#[trigger] ps[i], p) && (ps[i].len() == 0
                || ps[i].last() != p[0]),
    ensures
        split(join(ps, p), Sep::Text(p)) == ps,
    decreases ps.len(),
{
    let sep = Sep::Text(p);
    if ps.len() == 1 {
        assert(!contains_text(ps[0], p));
        lemma_split_no_text(ps[0], p);
        assert(seq![ps[0]] =~= ps);
    } else {
        let a = ps[0];
        let rest = ps.drop_first();
        assert forall|i: int|
            0 <= i < rest.len() implies !contains_text(#[trigger] rest[i], p) && (rest[i].len() == 0
            || rest[i].last() != p[0]) by {
            assert(rest[i] == ps[i + 1]);
        }
        lemma_split_join_pair(rest, p);
        assert(!contains_text(a, p));
        assert(sep_at(p, sep, 0)) by {
            assert(p.subrange(0, 2) =~= p);
        }
        assert forall|k: int| 0 <= k < a.len() implies !#[trigger] sep_at(a + p, sep, k) by {
            if sep_at(a + p, sep, k) {
                let s = a + p;
                assert(s.subrange(k, k + 2)[0] == p[0]);
                assert(s.subrange(k, k + 2)[1] == p[1]);
                if k + 2 <= a.len() {
                    assert(a.subrange(k, k + 2) =~= p);
                    assert(sep_at(a, sep, k));
                } else {
                    assert(k == a.len() - 1);
                    assert(s[k] == a.last());
                }
            }
        }
        lemma_split_concat(a, p, join(rest, p), sep);
        assert(seq![a] + rest =~= ps);
    }
}

/// Trimming stops at a character outside the set.
pub proof fn lemma_trim_plain(s: Seq<char>, set: CharSet)
    requires
        s.len() > 0,
        !set.has(s[0]),
        !set.has(s.last()),
    ensures
        trim_set(s, set) == s,
{
}

/// A leading space is trimmed away.
pub proof fn lemma_trim_lead_space(t: Seq<char>)
    requires
        t.len() > 0,
        !is_white_space(t[0]),
        !is_white_space(t.last()),
    ensures
        trim(seq![' '] + t) == t,
        trim(t) == t,
{
    let s = seq![' '] + t;
    assert(s.drop_first() =~= t);
    assert(trim_start(s, CharSet::WhiteSpace) == trim_start(t, CharSet::WhiteSpace));
}

/// Trimming the start only removes characters, and keeps a text whose first
/// character is outside the set.
pub proof fn lemma_trim_start_len(s: Seq<char>, set: CharSet)
    ensures
        trim_start(s, set).len() <= s.len(),
        s.len() > 0 && set.has(s[0]) ==> trim_start(s, set).len() < s.len(),
    decreases s.len(),
{
    if s.len() > 0 && set.has(s[0]) {
        lemma_trim_start_len(s.drop_first(), set);
    }
}

/// Trimming the end only removes characters.
pub proof fn lemma_trim_end_len(s: Seq<char>, set: CharSet)
    ensures
        trim_end(s, set).len() <= s.len(),
        s.len() > 0 && set.has(s.last()) ==> trim_end(s, set).len() < s.len(),
    decreases s.len(),
{
    if s.len() > 0 && set.has(s.last()) {
        lemma_trim_end_len(s.drop_last(), set);
    }
}

/// A text that trimming leaves as it is has no character of the set at its ends.
pub proof fn lemma_trimmed_ends(s: Seq<char>, set: CharSet)
    requires
        trim_set(s, set) == s,
        s.len() > 0,
    ensures
        !set.has(s[0]),
        !set.has(s.last()),
{
    lemma_trim_start_len(s, set);
    let u = trim_start(s, set);
    lemma_trim_end_len(u, set);
    if set.has(s.last()) {
        if u.len() == s.len() {
            assert(!(s.len() > 0 && set.has(s[0])));
            assert(u == s);
        }
    }
}

/// The lines of `x + l + "\n"`, when `x` is empty or ends a line and `l`
/// holds no line end: the lines of `x` and then `l`.
pub proof fn lemma_lines_append(x: Seq<char>, l: Seq<char>)
    requires
        x.len() == 0 || x.last() == '\n',
        !l.contains('\n'),
    ensures
        lines(x + l + seq!['\n']) == lines(x).push(strip_cr(l)),
    decreases x.len(),
{
    let nl = Sep::AnyOf(seq!['\n']);
    let s = x + l + seq!['\n'];
    assert forall|k: int| 0 <= k < l.len() implies !#[trigger] sep_at(l + seq!['\n'], nl, k) by {
        if sep_at(l + seq!['\n'], nl, k) {
            assert(seq!['\n'].contains((l + seq!['\n'])[k]));
            assert((l + seq!['\n'])[k] == l[k]);
        }
    }
    if x.len() == 0 {
        assert(s =~= l + seq!['\n']);
        assert(sep_at(s, nl, l.len() as int)) by {
            assert(seq!['\n'].contains('\n'));
        }
        lemma_find_from_is(s, nl, 0, l.len() as int);
        assert(s.take(l.len() as int) =~= l);
        assert(s.skip(l.len() as int + 1) =~= Seq::<char>::empty());
        assert(lines(x) =~= Seq::<Seq<char>>::empty());
        assert(lines(s) =~= seq![strip_cr(l)]);
    } else {
        assert(sep_at(x, nl, x.len() - 1)) by {
            assert(seq!['\n'].contains('\n'));
        }
        lemma_find_from(x, nl, 0);
        let i = find_from(x, nl, 0)->0;
        assert forall|k: int| 0 <= k <= i implies sep_at(s, nl, k) == sep_at(x, nl, k) by {
            assert(s[k] == x[k]);
        }
        lemma_find_from_is(s, nl, 0, i);
        let x2 = x.skip(i + 1);
        if x2.len() > 0 {
            assert(x2.last() == x.last());
        }
        lemma_lines_append(x2, l);
        assert(s.take(i) =~= x.take(i));
        assert(s.skip(i + 1) =~= x2 + l + seq!['\n']);
        assert(lines(s) == seq![strip_cr(x.take(i))] + lines(x2 + l + seq!['\n']));
        assert(lines(x) == seq![strip_cr(x.take(i))] + lines(x2));
        assert(lines(s) =~= lines(x).push(strip_cr(l)));
    }
}

/// The lines of `c + "\n" + b`, when `c` holds no line end: `c` and then
/// the lines of `b`.
pub proof fn lemma_lines_lead(c: Seq<char>, b: Seq<char>)
    requires
        !c.contains('\n'),
    ensures
        lines(c + seq!['\n'] + b) == seq![strip_cr(c)] + lines(b),
{
    let nl = Sep::AnyOf(seq!['\n']);
    let s = c + seq!['\n'] + b;
    assert forall|k: int| 0 <= k < c.len() implies !#[trigger] sep_at(s, nl, k) by {
        if sep_at(s, nl, k) {
            assert(seq!['\n'].contains(s[k]));
            assert(s[k] == c[k]);
        }
    }
    assert(sep_at(s, nl, c.len() as int)) by {
        assert(seq!['\n'].contains('\n'));
    }
    lemma_find_from_is(s, nl, 0, c.len() as int);
    assert(s.take(c.len() as int) =~= c);
    assert(s.skip(c.len() as int + 1) =~= b);
}

/// The lines of `x + y`, when `x` is empty or ends a line: the lines of `x`
/// and then the lines of `y`.
pub proof fn lemma_lines_concat(x: Seq<char>, y: Seq<char>)
    requires
        x.len() == 0 || x.last() == '\n',
    ensures
        lines(x + y) == lines(x) + lines(y),
    decreases x.len(),
{
    let nl = Sep::AnyOf(seq!['\n']);
    if x.len() == 0 {
        assert(x + y =~= y);
        assert(lines(x) =~= Seq::<Seq<char>>::empty());
        assert(lines(x) + lines(y) =~= lines(y));
    } else {
        assert(sep_at(x, nl, x.len() - 1)) by {
            assert(seq!['\n'].contains('\n'));
        }
        lemma_find_from(x, nl, 0);
        let i = find_from(x, nl, 0)->0;
        let c = x.take(i);
        let x2 = x.skip(i + 1);
        assert forall|k: int| 0 <= k < c.len() implies c[k] != '\n' by {
            assert(!sep_at(x, nl, k));
            assert(c[k] == x[k]);
            if c[k] == '\n' {
                assert(seq!['\n'].contains(x[k]));
            }
        }
        assert(!c.contains('\n'));
        assert(x[i] == '\n') by {
            assert(seq!['\n'].contains(x[i]));
        }
        assert(x =~= c + seq!['\n'] + x2);
        assert(x + y =~= c + seq!['\n'] + (x2 + y));
        if x2.len() > 0 {
            assert(x2.last() == x.last());
        }
        lemma_lines_concat(x2, y);
        lemma_lines_lead(c, x2 + y);
        lemma_lines_lead(c, x2);
        assert(lines(x + y) =~= lines(x) + lines(y));
    }
}

/// Removing a carriage return at the end keeps every occurrence of a text
/// that does not end with one, and adds none.
pub proof fn lemma_strip_cr_text(h: Seq<char>, p: Seq<char>)
    requires
        p.len() > 0,
        p.last() != '\r',
    ensures
        contains_text(strip_cr(h), p) == contains_text(h, p),
{
    let s = strip_cr(h);
    if contains_text(h, p) {
        let k = choose|k: int| sep_at(h, Sep::Text(p), k);
        if s.len() < h.len() {
            assert(h.subrange(k, k + p.len()).last() == p.last());
            assert(k + p.len() < h.len());
            assert(s.subrange(k, k + p.len()) =~= h.subrange(k, k + p.len()));
            assert(sep_at(s, Sep::Text(p), k));
        }
    }
    if contains_text(s, p) {
        let k = choose|k: int| sep_at(s, Sep::Text(p), k);
        assert(h.subrange(k, k + p.len()) =~= s.subrange(k, k + p.len()));
        assert(sep_at(h, Sep::Text(p), k));
    }
}

} // verus!
