//! Utility functions for content formatting: line numbering and fenced
//! code-block delimiters.

use vstd::prelude::*;

use crate::strutil::contains_seq;
use crate::strutil::dec_seq;
use crate::strutil::join_nl;
use crate::strutil::space_seq;
use crate::strutil::split_lines;
use crate::strutil::str_contains;
use crate::strutil::str_lines;
use crate::strutil::usize_to_string;

verus! {

/// One numbered line: the number right-aligned to `width`, two spaces,
/// then the line.
pub open spec fn numbered_line(line: Seq<char>, number: int, width: int) -> Seq<char> {
    let digits = dec_seq(number);
    let pad = if digits.len() < width {
        space_seq(width - digits.len())
    } else {
        Seq::empty()
    };
    pad + digits + seq![' ', ' '] + line
}

/// The content with line numbers: each line of the text numbered from 1,
/// numbers right-aligned to the width of the largest line number.
pub open spec fn numbered_lines(lines: Seq<Seq<char>>, width: int) -> Seq<Seq<char>> {
    Seq::new(lines.len(), |i: int| numbered_line(lines[i], i + 1, width))
}

/// What `add_line_numbers` returns for the content.
pub open spec fn add_line_numbers_spec(content: Seq<char>) -> Seq<char> {
    let lines = split_lines(content);
    join_nl(numbered_lines(lines, dec_seq(lines.len() as int).len() as int))
}

/// Add line numbers to content with proper padding.
pub fn add_line_numbers(content: &str) -> (r: String)
    ensures
        r@ == add_line_numbers_spec(content@),
{
    let lines = str_lines(content);
    let ghost lviews = lines@.map_values(|l: String| l@);
    proof {
        assert(lviews =~= split_lines(content@));
    }
    let count_digits = usize_to_string(lines.len());
    let width = count_digits.as_str().unicode_len();
    let ghost target = numbered_lines(lviews, width as int);
    let mut out: Vec<String> = Vec::new();
    let mut i: usize = 0;
    proof {
        assert(out@.map_values(|l: String| l@) =~= target.take(0));
    }
    while i < lines.len()
        invariant
            i <= lines@.len(),
            lviews == lines@.map_values(|l: String| l@),
            lviews.len() == lines@.len(),
            width as int == dec_seq(lviews.len() as int).len(),
            target == numbered_lines(lviews, width as int),
            out@.map_values(|l: String| l@) =~= target.take(i as int),
        decreases lines@.len() - i,
    {
        let ghost before = out@;
        let digits = usize_to_string(i + 1);
        let dlen = digits.as_str().unicode_len();
        let mut line = String::new();
        if dlen < width {
            let pad = crate::strutil::spaces(width - dlen);
            line.append(pad.as_str());
        }
        line.append(digits.as_str());
        line.append("  ");
        line.append(lines[i].as_str());
        proof {
            reveal_strlit("  ");
            assert("  "@ =~= seq![' ', ' ']);
            assert(line@ =~= numbered_line(lviews[i as int], i as int + 1, width as int));
        }
        out.push(line);
        proof {
            assert(out@ =~= before.push(out@[before.len() as int]));
            assert(out@.map_values(|l: String| l@) =~= before.map_values(|l: String| l@).push(
                out@[before.len() as int]@,
            ));
            assert(target.take(i as int).push(target[i as int]) =~= target.take(i + 1));
        }
        i = i + 1;
    }
    proof {
        assert(target.take(i as int) =~= target);
    }
    crate::strutil::join_lines(&out)
}

/// Index of the first NUL in `s`, or `s.len()` when there is none.
pub open spec fn first_nul(s: Seq<char>) -> int
    decreases s.len(),
{
    if s.len() == 0 {
        0
    } else if s[0] == '\0' {
        0
    } else {
        1 + first_nul(s.drop_first())
    }
}

pub proof fn lemma_first_nul_bounds(s: Seq<char>)
    ensures
        0 <= first_nul(s) <= s.len(),
        first_nul(s) < s.len() ==> s[first_nul(s)] == '\0',
        forall|j: int| 0 <= j < first_nul(s) ==> s[j] != '\0',
    decreases s.len(),
{
    if s.len() > 0 && s[0] != '\0' {
        lemma_first_nul_bounds(s.drop_first());
        assert(forall|j: int| 1 <= j < first_nul(s) ==> s[j] == s.drop_first()[j - 1]);
    }
}

pub proof fn lemma_first_nul_at(s: Seq<char>, k: int)
    requires
        0 <= k <= s.len(),
        forall|j: int| 0 <= j < k ==> s[j] != '\0',
        k < s.len() ==> s[k] == '\0',
    ensures
        first_nul(s) == k,
    decreases s.len(),
{
    if s.len() > 0 && s[0] != '\0' {
        assert(k > 0);
        lemma_first_nul_at(s.drop_first(), k - 1);
    }
}

/// The non-empty pieces of a NUL-separated list.
pub open spec fn split_nul(s: Seq<char>) -> Seq<Seq<char>>
    decreases s.len(),
{
    if s.len() == 0 {
        Seq::empty()
    } else {
        let i = first_nul(s);
        proof {
            lemma_first_nul_bounds(s);
        }
        if i == s.len() {
            seq![s]
        } else if i == 0 {
            split_nul(s.skip(1))
        } else {
            seq![s.take(i)] + split_nul(s.skip(i + 1))
        }
    }
}

/// Index of the first whitespace character in `s`, or `s.len()`.
pub open spec fn first_ws(s: Seq<char>) -> int
    decreases s.len(),
{
    if s.len() == 0 {
        0
    } else if crate::strutil::is_space(s[0]) {
        0
    } else {
        1 + first_ws(s.drop_first())
    }
}

pub proof fn lemma_first_ws_bounds(s: Seq<char>)
    ensures
        0 <= first_ws(s) <= s.len(),
        first_ws(s) < s.len() ==> crate::strutil::is_space(s[first_ws(s)]),
        forall|j: int| 0 <= j < first_ws(s) ==> !crate::strutil::is_space(s[j]),
    decreases s.len(),
{
    if s.len() > 0 && !crate::strutil::is_space(s[0]) {
        lemma_first_ws_bounds(s.drop_first());
        assert(forall|j: int| 1 <= j < first_ws(s) ==> s[j] == s.drop_first()[j - 1]);
    }
}

pub proof fn lemma_first_ws_at(s: Seq<char>, k: int)
    requires
        0 <= k <= s.len(),
        forall|j: int| 0 <= j < k ==> !crate::strutil::is_space(s[j]),
        k < s.len() ==> crate::strutil::is_space(s[k]),
    ensures
        first_ws(s) == k,
    decreases s.len(),
{
    if s.len() > 0 && !crate::strutil::is_space(s[0]) {
        assert(k > 0);
        lemma_first_ws_at(s.drop_first(), k - 1);
    }
}

/// The whitespace-separated words of `s`.
pub open spec fn split_ws(s: Seq<char>) -> Seq<Seq<char>>
    decreases s.len(),
{
    if s.len() == 0 {
        Seq::empty()
    } else {
        let i = first_ws(s);
        proof {
            lemma_first_ws_bounds(s);
        }
        if i == s.len() {
            seq![s]
        } else if i == 0 {
            split_ws(s.skip(1))
        } else {
            seq![s.take(i)] + split_ws(s.skip(i + 1))
        }
    }
}

/// Whether a character separates paths in a stdin buffer.
fn path_separator(c: char, use_null_separator: bool) -> (r: bool)
    ensures
        use_null_separator ==> r == (c == '\0'),
        !use_null_separator ==> r == crate::strutil::is_space(c),
{
    if use_null_separator {
        c == '\0'
    } else {
        crate::strutil::is_space_exec(c)
    }
}

/// Splits a buffer of paths read from standard input: at NUL bytes under
/// the null-separator option, at whitespace otherwise; empty pieces are
/// dropped either way.
pub fn split_paths(buffer: &str, use_null_separator: bool) -> (r: Vec<String>)
    ensures
        use_null_separator ==> r@.map_values(|p: String| p@) == split_nul(buffer@),
        !use_null_separator ==> r@.map_values(|p: String| p@) == split_ws(buffer@),
{
    let len = buffer.unicode_len();
    let mut out: Vec<String> = Vec::new();
    let mut pos: usize = 0;
    proof {
        assert(buffer@.skip(0) =~= buffer@);
        assert(out@.map_values(|p: String| p@) =~= Seq::<Seq<char>>::empty());
    }
    while pos < len
        invariant
            pos <= len,
            len == buffer@.len(),
            use_null_separator ==> split_nul(buffer@) =~= out@.map_values(|p: String| p@)
                + split_nul(buffer@.skip(pos as int)),
            !use_null_separator ==> split_ws(buffer@) =~= out@.map_values(|p: String| p@)
                + split_ws(buffer@.skip(pos as int)),
        decreases len - pos,
    {
        let ghost p0 = pos as int;
        let ghost rest = buffer@.skip(pos as int);
        let ghost out_before = out@;
        let mut cut: usize = pos;
        while cut < len && !path_separator(buffer.get_char(cut), use_null_separator)
            invariant
                pos <= cut <= len,
                len == buffer@.len(),
                use_null_separator ==> forall|j: int| pos <= j < cut ==> buffer@[j] != '\0',
                !use_null_separator ==> forall|j: int|
                    pos <= j < cut ==> !crate::strutil::is_space(buffer@[j]),
            decreases len - cut,
        {
            cut = cut + 1;
        }
        proof {
            if use_null_separator {
                assert(forall|j: int| 0 <= j < cut - pos ==> rest[j] != '\0');
                lemma_first_nul_at(rest, cut - pos);
            } else {
                assert(forall|j: int|
                    0 <= j < cut - pos ==> !crate::strutil::is_space(rest[j]));
                lemma_first_ws_at(rest, cut - pos);
            }
        }
        if cut == pos {
            proof {
                assert(rest.skip(1) =~= buffer@.skip(p0 + 1));
            }
            pos = pos + 1;
        } else {
            let piece = buffer.substring_char(pos, cut);
            let ghost seg = buffer@.subrange(p0, cut as int);
            out.push(String::from_str(piece));
            proof {
                assert(out@.map_values(|p: String| p@) =~= out_before.map_values(|p: String| p@)
                    + seq![seg]);
                assert(rest.take(cut - p0) =~= seg);
            }
            if cut < len {
                pos = cut + 1;
                proof {
                    assert(rest.skip(cut - p0 + 1) =~= buffer@.skip(pos as int));
                }
            } else {
                pos = len;
                proof {
                    assert(rest =~= seg);
                    assert(buffer@.skip(pos as int).len() == 0);
                }
            }
        }
    }
    proof {
        assert(buffer@.skip(pos as int).len() == 0);
        assert(split_nul(buffer@.skip(pos as int)) =~= Seq::<Seq<char>>::empty());
        assert(split_ws(buffer@.skip(pos as int)) =~= Seq::<Seq<char>>::empty());
    }
    out
}

/// The shortest run of at least three backticks not contained in the
/// text.
pub open spec fn backtick_run(n: int) -> Seq<char> {
    Seq::new(n as nat, |i: int| '`')
}

/// The fence `determine_backtick_count` settles on: the least `n >= 3`
/// with no run of `n` backticks inside the content.
pub open spec fn fence_ok(content: Seq<char>, n: int) -> bool {
    !contains_seq(content, backtick_run(n))
}

/// The length of the shortest fence of at least `n` backticks that does
/// not occur in the content.
pub open spec fn fence_len_from(content: Seq<char>, n: int) -> int
    decreases (if content.len() + 1 >= n {
        content.len() + 1 - n
    } else {
        0int
    }),
{
    if n < 0 {
        n
    } else if contains_seq(content, backtick_run(n)) {
        proof {
            let w = choose|i: int| crate::strutil::occurs_at(content, backtick_run(n), i);
            assert(w + backtick_run(n).len() <= content.len());
        }
        fence_len_from(content, n + 1)
    } else {
        n
    }
}

/// The fence the content calls for: the shortest run of at least three
/// backticks not contained in it.
pub open spec fn fence_of(content: Seq<char>) -> Seq<char> {
    backtick_run(fence_len_from(content, 3))
}

/// Determine the number of backticks needed to fence the content in a
/// code block: three, extended while the content contains the candidate
/// run.
pub fn determine_backtick_count(content: &str) -> (r: String)
    ensures
        r@ == fence_of(content@),
        r@.len() >= 3,
        fence_ok(content@, r@.len() as int),
        forall|m: int| 3 <= m < r@.len() ==> !fence_ok(content@, m),
{
    let mut backticks = String::from_str("```");
    proof {
        reveal_strlit("```");
        assert(backticks@ =~= backtick_run(3));
    }
    let clen = content.unicode_len();
    loop
        invariant
            backticks@.len() >= 3,
            backticks@ =~= backtick_run(backticks@.len() as int),
            clen == content@.len(),
            fence_len_from(content@, 3) == fence_len_from(content@, backticks@.len() as int),
            forall|m: int| 3 <= m < backticks@.len() ==> !fence_ok(content@, m),
        decreases (if clen + 1 >= backticks@.len() {
            clen + 1 - backticks@.len()
        } else {
            0int
        }),
    {
        proof {
            if backticks@.len() > clen {
                assert(forall|i: int| !crate::strutil::occurs_at(content@, backticks@, i));
                assert(fence_ok(content@, backticks@.len() as int));
            }
        }
        if !str_contains(content, backticks.as_str()) {
            return backticks;
        }
        backticks.append("`");
        proof {
            reveal_strlit("`");
            assert("`"@ =~= seq!['`']);
            assert(backticks@ =~= backtick_run(backticks@.len() as int));
        }
    }
}

} // verus!
