//! String primitives used throughout the library: lexicographic comparison,
//! equality, prefix and substring tests, path-segment extraction, and
//! decimal rendering, each verified against a sequence-level specification.

use vstd::prelude::*;

verus! {

/// Code-point order on characters.
pub open spec fn char_lt(a: char, b: char) -> bool {
    (a as u32) < (b as u32)
}

/// Lexicographic order on character sequences, by code point.
pub open spec fn lex_lt(a: Seq<char>, b: Seq<char>) -> bool
    decreases a.len(),
{
    if b.len() == 0 {
        false
    } else if a.len() == 0 {
        true
    } else if a[0] != b[0] {
        char_lt(a[0], b[0])
    } else {
        lex_lt(a.drop_first(), b.drop_first())
    }
}

/// Comparing two sequences that agree on their first `i` characters reduces
/// to comparing the remainders.
pub proof fn lemma_lex_lt_common_prefix(a: Seq<char>, b: Seq<char>, i: int)
    requires
        0 <= i <= a.len(),
        i <= b.len(),
        forall|j: int| 0 <= j < i ==> a[j] == b[j],
    ensures
        lex_lt(a, b) == lex_lt(a.skip(i), b.skip(i)),
    decreases i,
{
    if i > 0 {
        assert(a.len() > 0 && b.len() > 0);
        assert(a[0] == b[0]);
        assert(forall|j: int| 0 <= j < i - 1 ==> a.drop_first()[j] == b.drop_first()[j]);
        lemma_lex_lt_common_prefix(a.drop_first(), b.drop_first(), i - 1);
        assert(a.drop_first().skip(i - 1) =~= a.skip(i));
        assert(b.drop_first().skip(i - 1) =~= b.skip(i));
    } else {
        assert(a.skip(0) =~= a);
        assert(b.skip(0) =~= b);
    }
}

/// Lexicographic comparison of two strings, by code point.
pub fn str_lt(a: &str, b: &str) -> (r: bool)
    ensures
        r == lex_lt(a@, b@),
{
    let a_len = a.unicode_len();
    let b_len = b.unicode_len();
    let mut i: usize = 0;
    loop
        invariant
            i <= a_len,
            i <= b_len,
            a_len == a@.len(),
            b_len == b@.len(),
            forall|j: int| 0 <= j < i ==> a@[j] == b@[j],
        decreases a_len - i,
    {
        proof {
            lemma_lex_lt_common_prefix(a@, b@, i as int);
        }
        if i >= a_len {
            assert(a@.skip(i as int).len() == 0);
            return a_len < b_len;
        }
        if i >= b_len {
            assert(b@.skip(i as int).len() == 0);
            return false;
        }
        let ca = a.get_char(i);
        let cb = b.get_char(i);
        if ca != cb {
            assert(a@.skip(i as int)[0] == ca);
            assert(b@.skip(i as int)[0] == cb);
            return (ca as u32) < (cb as u32);
        }
        i = i + 1;
    }
}

/// Distinct characters have distinct code points.
pub proof fn lemma_char_cast_distinct(c1: char, c2: char)
    requires
        c1 != c2,
    ensures
        (c1 as u32) != (c2 as u32),
{
}

/// Exactly one of `a < b`, `a == b`, `b < a` holds.
pub proof fn lemma_lex_lt_trichotomy(a: Seq<char>, b: Seq<char>)
    ensures
        lex_lt(a, b) || a == b || lex_lt(b, a),
        lex_lt(a, b) ==> a != b && !lex_lt(b, a),
        a == b ==> !lex_lt(a, b) && !lex_lt(b, a),
    decreases a.len(),
{
    if a.len() == 0 && b.len() == 0 {
        assert(a =~= b);
    } else if a.len() > 0 && b.len() > 0 {
        if a[0] == b[0] {
            lemma_lex_lt_trichotomy(a.drop_first(), b.drop_first());
            assert(forall|i: int| 1 <= i < a.len() ==> #[trigger] a[i] == a.drop_first()[i - 1]);
            assert(forall|i: int| 1 <= i < b.len() ==> #[trigger] b[i] == b.drop_first()[i - 1]);
            if a.drop_first() == b.drop_first() {
                assert(a =~= b);
            }
            if a == b {
                assert(a.drop_first() =~= b.drop_first());
            }
        } else {
            lemma_char_cast_distinct(a[0], b[0]);
            assert(a != b);
        }
    }
}

/// Lexicographic order is transitive.
pub proof fn lemma_lex_lt_transitive(a: Seq<char>, b: Seq<char>, c: Seq<char>)
    requires
        lex_lt(a, b),
        lex_lt(b, c),
    ensures
        lex_lt(a, c),
    decreases a.len(),
{
    if a.len() == 0 {
        assert(c.len() > 0);
    } else {
        assert(b.len() > 0 && c.len() > 0);
        if a[0] != b[0] {
            assert(char_lt(a[0], b[0]));
            if b[0] != c[0] {
                assert(char_lt(b[0], c[0]));
            } else {
                assert(b[0] == c[0]);
            }
            assert((a[0] as u32) < (c[0] as u32));
            assert(a[0] != c[0]) by {
                if a[0] == c[0] {
                    assert((a[0] as u32) == (c[0] as u32));
                }
            }
        } else {
            if b[0] != c[0] {
                assert(char_lt(b[0], c[0]));
                assert((a[0] as u32) < (c[0] as u32));
                assert(a[0] != c[0]) by {
                    if a[0] == c[0] {
                        assert((a[0] as u32) == (c[0] as u32));
                    }
                }
            } else {
                lemma_lex_lt_transitive(a.drop_first(), b.drop_first(), c.drop_first());
            }
        }
    }
}

/// Character-wise string equality.
pub fn str_eq(a: &str, b: &str) -> (r: bool)
    ensures
        r == (a@ == b@),
{
    let a_len = a.unicode_len();
    let b_len = b.unicode_len();
    if a_len != b_len {
        return false;
    }
    let mut i: usize = 0;
    while i < a_len
        invariant
            i <= a_len,
            a_len == a@.len(),
            b_len == b@.len(),
            a_len == b_len,
            forall|j: int| 0 <= j < i ==> a@[j] == b@[j],
        decreases a_len - i,
    {
        if a.get_char(i) != b.get_char(i) {
            return false;
        }
        i = i + 1;
    }
    assert(a@ =~= b@);
    true
}

/// Does `s` start with the prefix `p`?
pub open spec fn starts_with(s: Seq<char>, p: Seq<char>) -> bool {
    p.len() <= s.len() && s.subrange(0, p.len() as int) == p
}

/// Prefix test on strings.
pub fn str_starts_with(s: &str, p: &str) -> (r: bool)
    ensures
        r == starts_with(s@, p@),
{
    let s_len = s.unicode_len();
    let p_len = p.unicode_len();
    if p_len > s_len {
        return false;
    }
    let mut i: usize = 0;
    while i < p_len
        invariant
            i <= p_len,
            p_len <= s_len,
            s_len == s@.len(),
            p_len == p@.len(),
            forall|j: int| 0 <= j < i ==> s@[j] == p@[j],
        decreases p_len - i,
    {
        if s.get_char(i) != p.get_char(i) {
            assert(s@.subrange(0, p@.len() as int)[i as int] != p@[i as int]);
            return false;
        }
        i = i + 1;
    }
    assert(s@.subrange(0, p@.len() as int) =~= p@);
    true
}

/// Is the substring `p` present in `s` at offset `i`?
pub open spec fn occurs_at(s: Seq<char>, p: Seq<char>, i: int) -> bool {
    0 <= i && i + p.len() <= s.len() && s.subrange(i, i + p.len() as int) == p
}

/// Does `s` contain `p` as a contiguous substring?
pub open spec fn contains_seq(s: Seq<char>, p: Seq<char>) -> bool {
    exists|i: int| occurs_at(s, p, i)
}

/// Substring search.
pub fn str_contains(s: &str, p: &str) -> (r: bool)
    ensures
        r == contains_seq(s@, p@),
{
    let s_len = s.unicode_len();
    let p_len = p.unicode_len();
    if p_len > s_len {
        assert(forall|i: int| !occurs_at(s@, p@, i));
        return false;
    }
    if p_len == 0 {
        assert(s@.subrange(0, 0) =~= p@);
        assert(occurs_at(s@, p@, 0));
        return true;
    }
    let mut start: usize = 0;
    while start <= s_len - p_len
        invariant
            s_len == s@.len(),
            p_len == p@.len(),
            1 <= p_len <= s_len,
            start <= s_len - p_len + 1,
            forall|i: int| 0 <= i < start ==> !occurs_at(s@, p@, i),
        decreases s_len - start,
    {
        let mut j: usize = 0;
        let mut hit = true;
        while hit && j < p_len
            invariant
                j <= p_len,
                s_len == s@.len(),
                p_len == p@.len(),
                start + p_len <= s_len,
                hit ==> forall|k: int| 0 <= k < j ==> s@[start + k] == p@[k],
                !hit ==> !occurs_at(s@, p@, start as int),
            decreases p_len - j + (if hit { 1int } else { 0int }),
        {
            if s.get_char(start + j) != p.get_char(j) {
                assert(s@.subrange(start as int, start + p@.len() as int)[j as int] != p@[j as int]);
                hit = false;
            } else {
                j = j + 1;
            }
        }
        if hit {
            assert(s@.subrange(start as int, start + p@.len() as int) =~= p@);
            assert(occurs_at(s@, p@, start as int));
            return true;
        }
        start = start + 1;
    }
    assert(forall|i: int| start <= i ==> !occurs_at(s@, p@, i));
    assert(forall|i: int| !occurs_at(s@, p@, i));
    false
}

/// Index of the last path separator in `s`, or -1 when there is none.
pub open spec fn last_sep(s: Seq<char>) -> int
    decreases s.len(),
{
    if s.len() == 0 {
        -1
    } else if s[s.len() - 1] == '/' {
        s.len() - 1
    } else {
        last_sep(s.drop_last())
    }
}

/// The final path segment of `s`: everything after the last separator.
pub open spec fn last_segment(s: Seq<char>) -> Seq<char> {
    s.subrange(last_sep(s) + 1, s.len() as int)
}

pub proof fn lemma_last_sep_bounds(s: Seq<char>)
    ensures
        -1 <= last_sep(s) < s.len(),
        last_sep(s) >= 0 ==> s[last_sep(s)] == '/',
        forall|j: int| last_sep(s) < j < s.len() ==> s[j] != '/',
    decreases s.len(),
{
    if s.len() > 0 && s[s.len() - 1] != '/' {
        lemma_last_sep_bounds(s.drop_last());
        assert(forall|j: int| 0 <= j < s.len() - 1 ==> s.drop_last()[j] == s[j]);
    }
}

pub proof fn lemma_last_sep_at(s: Seq<char>, k: int)
    requires
        0 <= k < s.len(),
        s[k] == '/',
        forall|j: int| k < j < s.len() ==> s[j] != '/',
    ensures
        last_sep(s) == k,
    decreases s.len(),
{
    if s[s.len() - 1] != '/' {
        assert(k < s.len() - 1);
        assert(forall|j: int| 0 <= j < s.len() - 1 ==> s.drop_last()[j] == s[j]);
        lemma_last_sep_at(s.drop_last(), k);
    }
}

pub proof fn lemma_last_sep_none(s: Seq<char>)
    requires
        forall|j: int| 0 <= j < s.len() ==> s[j] != '/',
    ensures
        last_sep(s) == -1,
    decreases s.len(),
{
    if s.len() > 0 {
        assert(forall|j: int| 0 <= j < s.len() - 1 ==> s.drop_last()[j] == s[j]);
        lemma_last_sep_none(s.drop_last());
    }
}

/// The final path segment of a string: everything after the last `/`.
pub fn str_last_segment(s: &str) -> (r: String)
    ensures
        r@ == last_segment(s@),
{
    let len = s.unicode_len();
    let mut i: usize = len;
    while i > 0
        invariant
            i <= len,
            len == s@.len(),
            forall|j: int| i <= j < len ==> s@[j] != '/',
        decreases i,
    {
        if s.get_char(i - 1) == '/' {
            proof {
                lemma_last_sep_at(s@, i - 1);
            }
            let seg = s.substring_char(i, len);
            return String::from_str(seg);
        }
        i = i - 1;
    }
    proof {
        lemma_last_sep_none(s@);
    }
    let seg = s.substring_char(0, len);
    String::from_str(seg)
}

/// Index of the last dot in `s`, or -1 when there is none.
pub open spec fn last_dot(s: Seq<char>) -> int
    decreases s.len(),
{
    if s.len() == 0 {
        -1
    } else if s[s.len() - 1] == '.' {
        s.len() - 1
    } else {
        last_dot(s.drop_last())
    }
}

pub proof fn lemma_last_dot_at(s: Seq<char>, k: int)
    requires
        0 <= k < s.len(),
        s[k] == '.',
        forall|j: int| k < j < s.len() ==> s[j] != '.',
    ensures
        last_dot(s) == k,
    decreases s.len(),
{
    if s[s.len() - 1] != '.' {
        assert(k < s.len() - 1);
        assert(forall|j: int| 0 <= j < s.len() - 1 ==> s.drop_last()[j] == s[j]);
        lemma_last_dot_at(s.drop_last(), k);
    }
}

pub proof fn lemma_last_dot_none(s: Seq<char>)
    requires
        forall|j: int| 0 <= j < s.len() ==> s[j] != '.',
    ensures
        last_dot(s) == -1,
    decreases s.len(),
{
    if s.len() > 0 {
        assert(forall|j: int| 0 <= j < s.len() - 1 ==> s.drop_last()[j] == s[j]);
        lemma_last_dot_none(s.drop_last());
    }
}

/// The extension of a path: the part of the final segment after its last
/// dot; none when the segment has no dot past its first character.
pub open spec fn extension_of(path: Seq<char>) -> Option<Seq<char>> {
    let name = last_segment(path);
    let d = last_dot(name);
    if d <= 0 {
        None
    } else {
        Some(name.skip(d + 1))
    }
}

/// The extension of a path, as `extension_of` defines it.
pub fn str_extension(path: &str) -> (r: Option<String>)
    ensures
        r is Some <==> extension_of(path@) is Some,
        r matches Some(e) ==> extension_of(path@) == Some(e@),
{
    let seg = str_last_segment(path);
    let len = seg.as_str().unicode_len();
    let mut i: usize = len;
    while i > 0
        invariant
            i <= len,
            len == seg@.len(),
            seg@ == last_segment(path@),
            forall|j: int| i <= j < len ==> seg@[j] != '.',
        decreases i,
    {
        if seg.as_str().get_char(i - 1) == '.' {
            proof {
                lemma_last_dot_at(seg@, i - 1);
            }
            if i - 1 == 0 {
                return None;
            }
            let e = seg.as_str().substring_char(i, len);
            return Some(String::from_str(e));
        }
        i = i - 1;
    }
    proof {
        lemma_last_dot_none(seg@);
    }
    None
}

/// The characters that `str::trim` removes: Unicode whitespace.
pub open spec fn is_space(c: char) -> bool {
    c == ' ' || c == '\t' || c == '\n' || c == '\r' || c == '\u{b}' || c == '\u{c}'
        || c == '\u{85}' || c == '\u{a0}' || c == '\u{1680}' || c == '\u{2000}' || c == '\u{2001}'
        || c == '\u{2002}' || c == '\u{2003}' || c == '\u{2004}' || c == '\u{2005}'
        || c == '\u{2006}' || c == '\u{2007}' || c == '\u{2008}' || c == '\u{2009}'
        || c == '\u{200a}' || c == '\u{2028}' || c == '\u{2029}' || c == '\u{202f}'
        || c == '\u{205f}' || c == '\u{3000}'
}

/// `s` with leading whitespace removed.
pub open spec fn trim_front(s: Seq<char>) -> Seq<char>
    decreases s.len(),
{
    if s.len() > 0 && is_space(s[0]) {
        trim_front(s.drop_first())
    } else {
        s
    }
}

/// `s` with trailing whitespace removed.
pub open spec fn trim_back(s: Seq<char>) -> Seq<char>
    decreases s.len(),
{
    if s.len() > 0 && is_space(s[s.len() - 1]) {
        trim_back(s.drop_last())
    } else {
        s
    }
}

/// `s` with whitespace removed from both ends, as `str::trim` leaves it.
pub open spec fn trim_seq(s: Seq<char>) -> Seq<char> {
    trim_back(trim_front(s))
}

pub proof fn lemma_trim_front_skip(s: Seq<char>, i: int)
    requires
        0 <= i <= s.len(),
        forall|j: int| 0 <= j < i ==> is_space(s[j]),
        i < s.len() ==> !is_space(s[i]),
    ensures
        trim_front(s) =~= s.skip(i),
    decreases i,
{
    if i == 0 {
        assert(s.skip(0) =~= s);
    } else {
        assert(is_space(s[0]));
        assert(forall|j: int| 0 <= j < i - 1 ==> is_space(s.drop_first()[j]));
        lemma_trim_front_skip(s.drop_first(), i - 1);
        assert(s.drop_first().skip(i - 1) =~= s.skip(i));
    }
}

pub proof fn lemma_trim_back_take(s: Seq<char>, i: int)
    requires
        0 <= i <= s.len(),
        forall|j: int| i <= j < s.len() ==> is_space(s[j]),
        i > 0 ==> !is_space(s[i - 1]),
    ensures
        trim_back(s) =~= s.take(i),
    decreases s.len() - i,
{
    if i == s.len() {
        assert(s.take(i) =~= s);
    } else {
        assert(is_space(s[s.len() - 1]));
        assert(forall|j: int| i <= j < s.len() - 1 ==> s.drop_last()[j] == s[j]);
        lemma_trim_back_take(s.drop_last(), i);
        assert(s.drop_last().take(i) =~= s.take(i));
    }
}

/// Whitespace test matching `char::is_whitespace`.
pub fn is_space_exec(c: char) -> (r: bool)
    ensures
        r == is_space(c),
{
    space_char(c)
}

/// Whitespace test matching `char::is_whitespace`.
fn space_char(c: char) -> (r: bool)
    ensures
        r == is_space(c),
{
    c == ' ' || c == '\t' || c == '\n' || c == '\r' || c == '\u{b}' || c == '\u{c}'
        || c == '\u{85}' || c == '\u{a0}' || c == '\u{1680}' || c == '\u{2000}' || c == '\u{2001}'
        || c == '\u{2002}' || c == '\u{2003}' || c == '\u{2004}' || c == '\u{2005}'
        || c == '\u{2006}' || c == '\u{2007}' || c == '\u{2008}' || c == '\u{2009}'
        || c == '\u{200a}' || c == '\u{2028}' || c == '\u{2029}' || c == '\u{202f}'
        || c == '\u{205f}' || c == '\u{3000}'
}

/// Removes whitespace from both ends of a string.
pub fn str_trim(s: &str) -> (r: String)
    ensures
        r@ == trim_seq(s@),
{
    let len = s.unicode_len();
    let mut a: usize = 0;
    while a < len && space_char(s.get_char(a))
        invariant
            a <= len,
            len == s@.len(),
            forall|j: int| 0 <= j < a ==> is_space(s@[j]),
        decreases len - a,
    {
        a = a + 1;
    }
    proof {
        lemma_trim_front_skip(s@, a as int);
    }
    let mut b: usize = len;
    while b > a && space_char(s.get_char(b - 1))
        invariant
            a <= b <= len,
            len == s@.len(),
            forall|j: int| b <= j < len ==> is_space(s@[j]),
        decreases b,
    {
        b = b - 1;
    }
    proof {
        if a < len {
            assert(trim_front(s@) =~= s@.skip(a as int));
            assert(forall|j: int| b - a <= j < len - a ==> is_space(s@.skip(a as int)[j]));
            if b > a {
                assert(!is_space(s@.skip(a as int)[b - a - 1]));
            }
            lemma_trim_back_take(s@.skip(a as int), b - a);
            assert(trim_seq(s@) =~= s@.skip(a as int).take(b - a));
            assert(s@.skip(a as int).take(b - a) =~= s@.subrange(a as int, b as int));
        } else {
            assert(a == len && b == len);
            assert(trim_front(s@) =~= s@.skip(a as int));
            assert(s@.skip(a as int).len() == 0);
            assert(trim_seq(s@) =~= s@.subrange(a as int, b as int));
        }
    }
    let piece = s.substring_char(a, b);
    String::from_str(piece)
}

/// Index of the first newline in `s`, or `s.len()` when there is none.
pub open spec fn first_nl(s: Seq<char>) -> int
    decreases s.len(),
{
    if s.len() == 0 {
        0
    } else if s[0] == '\n' {
        0
    } else {
        1 + first_nl(s.drop_first())
    }
}

pub proof fn lemma_first_nl_bounds(s: Seq<char>)
    ensures
        0 <= first_nl(s) <= s.len(),
        first_nl(s) < s.len() ==> s[first_nl(s)] == '\n',
        forall|j: int| 0 <= j < first_nl(s) ==> s[j] != '\n',
    decreases s.len(),
{
    if s.len() > 0 && s[0] != '\n' {
        lemma_first_nl_bounds(s.drop_first());
        assert(forall|j: int| 0 <= j < s.len() - 1 ==> s.drop_first()[j] == s[j + 1]);
        assert(forall|j: int| 1 <= j < first_nl(s) ==> s[j] == s.drop_first()[j - 1]);
    }
}

pub proof fn lemma_first_nl_at(s: Seq<char>, k: int)
    requires
        0 <= k <= s.len(),
        forall|j: int| 0 <= j < k ==> s[j] != '\n',
        k < s.len() ==> s[k] == '\n',
    ensures
        first_nl(s) == k,
    decreases s.len(),
{
    if s.len() > 0 && s[0] != '\n' {
        assert(k > 0);
        lemma_first_nl_at(s.drop_first(), k - 1);
    }
}

/// A line with one trailing carriage return removed, as `str::lines` leaves it.
pub open spec fn strip_cr(l: Seq<char>) -> Seq<char> {
    if l.len() > 0 && l[l.len() - 1] == '\r' {
        l.drop_last()
    } else {
        l
    }
}

/// The lines of `s`, as `str::lines` yields them: split at `\n`, one
/// trailing `\r` removed from each piece, and no final empty line when the
/// text ends with a newline.
pub open spec fn split_lines(s: Seq<char>) -> Seq<Seq<char>>
    decreases s.len(),
{
    if s.len() == 0 {
        Seq::empty()
    } else {
        let i = first_nl(s);
        if i == s.len() {
            seq![strip_cr(s)]
        } else {
            proof {
                lemma_first_nl_bounds(s);
            }
            seq![strip_cr(s.subrange(0, i))] + split_lines(s.skip(i + 1))
        }
    }
}

/// Splits a string into its lines, as `str::lines` does.
pub fn str_lines(s: &str) -> (r: Vec<String>)
    ensures
        r@.len() == split_lines(s@).len(),
        forall|i: int| 0 <= i < r@.len() ==> r@[i]@ == split_lines(s@)[i],
{
    let len = s.unicode_len();
    let mut out: Vec<String> = Vec::new();
    let mut pos: usize = 0;
    proof {
        assert(s@.skip(0) =~= s@);
        assert(out@.map_values(|l: String| l@) =~= Seq::<Seq<char>>::empty());
    }
    while pos < len
        invariant
            pos <= len,
            len == s@.len(),
            split_lines(s@) =~= out@.map_values(|l: String| l@) + split_lines(s@.skip(pos as int)),
        decreases len - pos,
    {
        let ghost p0 = pos as int;
        let ghost rest = s@.skip(pos as int);
        let ghost out_before = out@;
        let mut cut: usize = pos;
        while cut < len && s.get_char(cut) != '\n'
            invariant
                pos <= cut <= len,
                len == s@.len(),
                forall|j: int| pos <= j < cut ==> s@[j] != '\n',
            decreases len - cut,
        {
            cut = cut + 1;
        }
        proof {
            assert(forall|j: int| 0 <= j < cut - pos ==> rest[j] != '\n');
            lemma_first_nl_at(rest, cut - pos);
        }
        let mut line_end = cut;
        if line_end > pos && s.get_char(line_end - 1) == '\r' {
            line_end = line_end - 1;
        }
        let piece = s.substring_char(pos, line_end);
        let ghost line = s@.subrange(pos as int, line_end as int);
        proof {
            if cut < len {
                assert(strip_cr(rest.subrange(0, cut - pos)) =~= line);
            } else {
                assert(strip_cr(rest) =~= line);
            }
        }
        out.push(String::from_str(piece));
        proof {
            assert(out@.map_values(|l: String| l@) =~= out_before.map_values(|l: String| l@)
                + seq![line]);
        }
        if cut < len {
            pos = cut + 1;
            proof {
                assert(rest.skip(cut - p0 + 1) =~= s@.skip(pos as int));
                assert(split_lines(rest) =~= seq![line] + split_lines(s@.skip(pos as int)));
            }
        } else {
            pos = len;
            proof {
                assert(split_lines(rest) =~= seq![line]);
                assert(s@.skip(pos as int).len() == 0);
                assert(split_lines(s@.skip(pos as int)) =~= Seq::<Seq<char>>::empty());
            }
        }
    }
    proof {
        assert(s@.skip(pos as int).len() == 0);
        assert(split_lines(s@.skip(pos as int)) =~= Seq::<Seq<char>>::empty());
        assert(split_lines(s@) =~= out@.map_values(|l: String| l@));
    }
    out
}

/// Index of the first separator in `s`, or `s.len()` when there is none.
pub open spec fn first_sep(s: Seq<char>) -> int
    decreases s.len(),
{
    if s.len() == 0 {
        0
    } else if s[0] == '/' {
        0
    } else {
        1 + first_sep(s.drop_first())
    }
}

pub proof fn lemma_first_sep_bounds(s: Seq<char>)
    ensures
        0 <= first_sep(s) <= s.len(),
        first_sep(s) < s.len() ==> s[first_sep(s)] == '/',
        forall|j: int| 0 <= j < first_sep(s) ==> s[j] != '/',
    decreases s.len(),
{
    if s.len() > 0 && s[0] != '/' {
        lemma_first_sep_bounds(s.drop_first());
        assert(forall|j: int| 0 <= j < s.len() - 1 ==> s.drop_first()[j] == s[j + 1]);
        assert(forall|j: int| 1 <= j < first_sep(s) ==> s[j] == s.drop_first()[j - 1]);
    }
}

pub proof fn lemma_first_sep_at(s: Seq<char>, k: int)
    requires
        0 <= k <= s.len(),
        forall|j: int| 0 <= j < k ==> s[j] != '/',
        k < s.len() ==> s[k] == '/',
    ensures
        first_sep(s) == k,
    decreases s.len(),
{
    if s.len() > 0 && s[0] != '/' {
        assert(k > 0);
        lemma_first_sep_at(s.drop_first(), k - 1);
    }
}

/// The non-empty segments of a separator-joined path.
pub open spec fn split_segments(s: Seq<char>) -> Seq<Seq<char>>
    decreases s.len(),
{
    if s.len() == 0 {
        Seq::empty()
    } else {
        let i = first_sep(s);
        proof {
            lemma_first_sep_bounds(s);
        }
        if i == s.len() {
            seq![s]
        } else if i == 0 {
            split_segments(s.skip(1))
        } else {
            seq![s.take(i)] + split_segments(s.skip(i + 1))
        }
    }
}

/// A path that does not open with a separator opens with its own first
/// segment: it equals it, or extends it by a separator.
pub proof fn lemma_split_segments_first(p: Seq<char>)
    requires
        p.len() > 0,
        p[0] != '/',
    ensures
        split_segments(p).len() > 0,
        p == split_segments(p)[0] || starts_with(p, split_segments(p)[0] + seq!['/']),
{
    lemma_first_sep_bounds(p);
    let i = first_sep(p);
    assert(i > 0);
    if i == p.len() {
        assert(split_segments(p)[0] == p);
    } else {
        assert(split_segments(p)[0] == p.take(i));
        assert(p.subrange(0, i + 1) =~= p.take(i) + seq!['/']);
        assert(starts_with(p, p.take(i) + seq!['/']));
    }
}

/// Splits a path into its non-empty segments.
pub fn str_split_segments(s: &str) -> (r: Vec<String>)
    ensures
        r@.map_values(|p: String| p@) == split_segments(s@),
{
    let len = s.unicode_len();
    let mut out: Vec<String> = Vec::new();
    let mut pos: usize = 0;
    proof {
        assert(s@.skip(0) =~= s@);
        assert(out@.map_values(|p: String| p@) =~= Seq::<Seq<char>>::empty());
    }
    while pos < len
        invariant
            pos <= len,
            len == s@.len(),
            split_segments(s@) =~= out@.map_values(|p: String| p@) + split_segments(
                s@.skip(pos as int),
            ),
        decreases len - pos,
    {
        let ghost p0 = pos as int;
        let ghost rest = s@.skip(pos as int);
        let ghost out_before = out@;
        let mut cut: usize = pos;
        while cut < len && s.get_char(cut) != '/'
            invariant
                pos <= cut <= len,
                len == s@.len(),
                forall|j: int| pos <= j < cut ==> s@[j] != '/',
            decreases len - cut,
        {
            cut = cut + 1;
        }
        proof {
            assert(forall|j: int| 0 <= j < cut - pos ==> rest[j] != '/');
            lemma_first_sep_at(rest, cut - pos);
        }
        if cut == pos {
            // empty segment: skip the separator
            proof {
                assert(rest.skip(1) =~= s@.skip(p0 + 1));
                assert(split_segments(rest) == split_segments(s@.skip(p0 + 1)));
            }
            pos = pos + 1;
        } else {
            let piece = s.substring_char(pos, cut);
            let ghost seg = s@.subrange(p0, cut as int);
            out.push(String::from_str(piece));
            proof {
                assert(out@.map_values(|p: String| p@) =~= out_before.map_values(|p: String| p@)
                    + seq![seg]);
            }
            if cut < len {
                pos = cut + 1;
                proof {
                    assert(rest.take(cut - p0) =~= seg);
                    assert(rest.skip(cut - p0 + 1) =~= s@.skip(pos as int));
                    assert(split_segments(rest) =~= seq![seg] + split_segments(s@.skip(pos as int)));
                }
            } else {
                pos = len;
                proof {
                    assert(rest =~= seg);
                    assert(split_segments(rest) =~= seq![seg]);
                    assert(s@.skip(pos as int).len() == 0);
                    assert(split_segments(s@.skip(pos as int)) =~= Seq::<Seq<char>>::empty());
                }
            }
        }
    }
    proof {
        assert(s@.skip(pos as int).len() == 0);
        assert(split_segments(s@.skip(pos as int)) =~= Seq::<Seq<char>>::empty());
        assert(out@.map_values(|p: String| p@) =~= split_segments(s@));
    }
    out
}

/// The pieces of `ls` joined with a newline between consecutive pieces.
pub open spec fn join_nl(ls: Seq<Seq<char>>) -> Seq<char>
    decreases ls.len(),
{
    if ls.len() == 0 {
        Seq::empty()
    } else if ls.len() == 1 {
        ls[0]
    } else {
        ls[0] + seq!['\n'] + join_nl(ls.drop_first())
    }
}

/// Appending one more piece extends the joined text by a newline and the piece.
pub proof fn lemma_join_nl_push(ls: Seq<Seq<char>>, x: Seq<char>)
    requires
        ls.len() > 0,
    ensures
        join_nl(ls.push(x)) =~= join_nl(ls) + seq!['\n'] + x,
    decreases ls.len(),
{
    if ls.len() == 1 {
        assert(ls.push(x).drop_first() =~= seq![x]);
        assert(join_nl(seq![x]) == seq![x][0]);
        assert(join_nl(ls.push(x).drop_first()) == x);
        assert(ls.push(x)[0] == ls[0]);
        assert(join_nl(ls.push(x)) =~= ls[0] + seq!['\n'] + x);
    } else {
        lemma_join_nl_push(ls.drop_first(), x);
        assert(ls.push(x).drop_first() =~= ls.drop_first().push(x));
    }
}

/// Joins strings with newline separators.
pub fn join_lines(v: &Vec<String>) -> (r: String)
    ensures
        r@ == join_nl(v@.map_values(|l: String| l@)),
{
    let mut out = String::new();
    let mut i: usize = 0;
    let ghost model = v@.map_values(|l: String| l@);
    while i < v.len()
        invariant
            i <= v@.len(),
            model == v@.map_values(|l: String| l@),
            out@ =~= join_nl(model.take(i as int)),
        decreases v@.len() - i,
    {
        if i > 0 {
            out.append("\n");
            proof {
                reveal_strlit("\n");
                assert("\n"@ =~= seq!['\n']);
            }
        }
        out.append(v[i].as_str());
        proof {
            if i > 0 {
                lemma_join_nl_push(model.take(i as int), model[i as int]);
            }
            assert(model.take(i as int).push(model[i as int]) =~= model.take(i + 1));
        }
        i = i + 1;
    }
    proof {
        assert(model.take(i as int) =~= model);
    }
    out
}

/// Concatenation of two strings.
pub fn str_concat(a: &str, b: &str) -> (r: String)
    ensures
        r@ == a@ + b@,
{
    let mut out = String::from_str(a);
    out.append(b);
    out
}

/// The decimal digit character for `d`.
pub open spec fn dec_digit(d: int) -> char {
    if d == 0 {
        '0'
    } else if d == 1 {
        '1'
    } else if d == 2 {
        '2'
    } else if d == 3 {
        '3'
    } else if d == 4 {
        '4'
    } else if d == 5 {
        '5'
    } else if d == 6 {
        '6'
    } else if d == 7 {
        '7'
    } else if d == 8 {
        '8'
    } else {
        '9'
    }
}

/// The decimal rendering of a non-negative integer.
pub open spec fn dec_seq(n: int) -> Seq<char>
    decreases n,
{
    if n < 10 {
        seq![dec_digit(n)]
    } else {
        dec_seq(n / 10) + seq![dec_digit(n % 10)]
    }
}

fn digit_str(d: usize) -> (r: &'static str)
    requires
        d < 10,
    ensures
        r@ == seq![dec_digit(d as int)],
{
    proof {
        reveal_strlit("0");
        reveal_strlit("1");
        reveal_strlit("2");
        reveal_strlit("3");
        reveal_strlit("4");
        reveal_strlit("5");
        reveal_strlit("6");
        reveal_strlit("7");
        reveal_strlit("8");
        reveal_strlit("9");
    }
    let r = if d == 0 {
        "0"
    } else if d == 1 {
        "1"
    } else if d == 2 {
        "2"
    } else if d == 3 {
        "3"
    } else if d == 4 {
        "4"
    } else if d == 5 {
        "5"
    } else if d == 6 {
        "6"
    } else if d == 7 {
        "7"
    } else if d == 8 {
        "8"
    } else {
        "9"
    };
    proof {
        assert(r@ =~= seq![dec_digit(d as int)]);
    }
    r
}

/// Renders a number in decimal.
pub fn usize_to_string(n: usize) -> (r: String)
    ensures
        r@ == dec_seq(n as int),
    decreases n,
{
    if n < 10 {
        String::from_str(digit_str(n))
    } else {
        let mut s = usize_to_string(n / 10);
        s.append(digit_str(n % 10));
        proof {
            assert(s@ =~= dec_seq(n as int));
        }
        s
    }
}

/// `k` spaces.
pub open spec fn space_seq(k: int) -> Seq<char> {
    Seq::new(k as nat, |i: int| ' ')
}

/// A string of `k` spaces.
pub fn spaces(k: usize) -> (r: String)
    ensures
        r@ == space_seq(k as int),
{
    let mut out = String::new();
    let mut i: usize = 0;
    proof {
        reveal_strlit(" ");
    }
    while i < k
        invariant
            i <= k,
            out@ =~= space_seq(i as int),
            " "@ =~= seq![' '],
        decreases k - i,
    {
        out.append(" ");
        proof {
            assert(out@ =~= space_seq(i + 1));
        }
        i = i + 1;
    }
    out
}

} // verus!
