//! Ignore patterns: user-supplied globs with directory-only scoping, and
//! gitignore-style pattern lists parsed from ignore-file content.

use vstd::prelude::*;

use crate::glob_api::glob_compile;
use crate::glob_api::glob_match;
use crate::glob_api::glob_matches;
use crate::glob_api::glob_ok;
use crate::glob_api::pattern_text;
use crate::strutil::last_segment;
use crate::strutil::starts_with;
use crate::strutil::str_last_segment;
use crate::strutil::str_starts_with;
use crate::strutil::str_trim;
use crate::strutil::trim_seq;

verus! {

/// One compiled user glob. `directory_only` is derived from a trailing
/// separator in the original text; such a pattern never matches files.
pub struct IgnorePattern {
    original: String,
    directory_only: bool,
    matcher: glob::Pattern,
}

impl IgnorePattern {
    /// The original pattern text.
    pub closed spec fn text(self) -> Seq<char> {
        self.original@
    }

    /// The compiled matcher agrees with the original text, and the
    /// directory-only flag with its trailing separator.
    pub closed spec fn wf(self) -> bool {
        &&& pattern_text(self.matcher) == self.original@
        &&& glob_ok(self.original@)
        &&& self.directory_only == dir_only_of(self.original@)
    }
}

/// A pattern text ending in a separator applies to directories only.
pub open spec fn dir_only_of(text: Seq<char>) -> bool {
    text.len() > 0 && text[text.len() - 1] == '/'
}

/// The pattern text without its one trailing separator, if any.
pub open spec fn dir_stem_of(text: Seq<char>) -> Seq<char> {
    if dir_only_of(text) {
        text.drop_last()
    } else {
        text
    }
}

/// Whether a pattern text matches a path: against the final segment, the
/// segment with a separator appended (directories), the full path, the
/// path with a separator appended (directories), and, for directory-only
/// patterns, the stem as a literal prefix of the path.
pub open spec fn ignore_pattern_matches(text: Seq<char>, path: Seq<char>, is_file: bool) -> bool {
    let seg = last_segment(path);
    ||| glob_match(text, seg)
    ||| (!is_file && glob_match(text, seg + seq!['/']))
    ||| glob_match(text, path)
    ||| (!is_file && glob_match(text, path + seq!['/']))
    ||| (dir_only_of(text) && !is_file && (path == dir_stem_of(text) || starts_with(
        path,
        dir_stem_of(text) + seq!['/'],
    )))
}

impl IgnorePattern {
    /// Compiles one pattern; the caller has already dropped empty input.
    pub fn compile(pattern: &str) -> (r: Result<IgnorePattern, String>)
        ensures
            r is Ok <==> glob_ok(pattern@),
            r matches Ok(p) ==> p.wf() && p.text() == pattern@,
    {
        let len = pattern.unicode_len();
        let directory_only = len > 0 && pattern.get_char(len - 1) == '/';
        match glob_compile(pattern) {
            Ok(matcher) => Ok(IgnorePattern {
                original: String::from_str(pattern),
                directory_only,
                matcher,
            }),
            Err(e) => Err(e),
        }
    }

    /// Does this pattern match the path?
    pub fn matches(&self, path: &str, is_file: bool) -> (r: bool)
        requires
            self.wf(),
        ensures
            r == ignore_pattern_matches(self.text(), path@, is_file),
    {
        let seg = str_last_segment(path);
        if glob_matches(&self.matcher, seg.as_str()) {
            return true;
        }
        if !is_file {
            let mut seg_slash = seg;
            seg_slash.append("/");
            proof {
                reveal_strlit("/");
                assert("/"@ =~= seq!['/']);
            }
            if glob_matches(&self.matcher, seg_slash.as_str()) {
                return true;
            }
        }
        if glob_matches(&self.matcher, path) {
            return true;
        }
        if !is_file {
            let mut path_slash = String::from_str(path);
            path_slash.append("/");
            proof {
                reveal_strlit("/");
                assert("/"@ =~= seq!['/']);
            }
            if glob_matches(&self.matcher, path_slash.as_str()) {
                return true;
            }
        }
        if self.directory_only && !is_file {
            let olen = self.original.as_str().unicode_len();
            let stem = self.original.as_str().substring_char(0, olen - 1);
            proof {
                assert(stem@ =~= dir_stem_of(self.text()));
            }
            if crate::strutil::str_eq(path, stem) {
                return true;
            }
            let mut stem_slash = String::from_str(stem);
            stem_slash.append("/");
            proof {
                reveal_strlit("/");
                assert("/"@ =~= seq!['/']);
            }
            if str_starts_with(path, stem_slash.as_str()) {
                return true;
            }
        }
        false
    }
}

/// The pattern texts that survive skipping empty and whitespace-only
/// entries.
pub open spec fn kept_patterns(ps: Seq<Seq<char>>) -> Seq<Seq<char>>
    decreases ps.len(),
{
    if ps.len() == 0 {
        Seq::empty()
    } else if trim_seq(ps[0]).len() == 0 {
        kept_patterns(ps.drop_first())
    } else {
        seq![ps[0]] + kept_patterns(ps.drop_first())
    }
}

/// Appending one pattern extends the kept list by it, unless it is blank.
pub proof fn lemma_kept_patterns_push(ps: Seq<Seq<char>>, x: Seq<char>)
    ensures
        trim_seq(x).len() == 0 ==> kept_patterns(ps.push(x)) =~= kept_patterns(ps),
        trim_seq(x).len() != 0 ==> kept_patterns(ps.push(x)) =~= kept_patterns(ps).push(x),
    decreases ps.len(),
{
    if ps.len() == 0 {
        assert(ps.push(x)[0] == x);
        assert(ps.push(x).drop_first() =~= Seq::<Seq<char>>::empty());
        assert(kept_patterns(ps.push(x).drop_first()) =~= Seq::<Seq<char>>::empty());
        if trim_seq(x).len() != 0 {
            assert(kept_patterns(ps.push(x)) =~= seq![x]);
            assert(kept_patterns(ps).push(x) =~= seq![x]);
        }
    } else {
        lemma_kept_patterns_push(ps.drop_first(), x);
        assert(ps.push(x)[0] == ps[0]);
        assert(ps.push(x).drop_first() =~= ps.drop_first().push(x));
        if trim_seq(ps[0]).len() == 0 {
            assert(kept_patterns(ps.push(x)) == kept_patterns(ps.drop_first().push(x)));
            assert(kept_patterns(ps) == kept_patterns(ps.drop_first()));
        } else {
            assert(kept_patterns(ps.push(x)) == seq![ps[0]] + kept_patterns(
                ps.drop_first().push(x),
            ));
            assert(kept_patterns(ps) == seq![ps[0]] + kept_patterns(ps.drop_first()));
            if trim_seq(x).len() != 0 {
                assert(seq![ps[0]] + kept_patterns(ps.drop_first()).push(x) =~= (seq![ps[0]]
                    + kept_patterns(ps.drop_first())).push(x));
            }
        }
    }
}

/// Every kept pattern text compiles.
pub open spec fn all_compile(ts: Seq<Seq<char>>) -> bool {
    forall|i: int| 0 <= i < ts.len() ==> glob_ok(#[trigger] ts[i])
}

/// Compilability distributes over concatenation of rule lists.
pub proof fn lemma_all_compile_append(a: Seq<Seq<char>>, b: Seq<Seq<char>>)
    ensures
        all_compile(a + b) == (all_compile(a) && all_compile(b)),
{
    assert(forall|t: int| 0 <= t < a.len() ==> (a + b)[t] == #[trigger] a[t]);
    assert(forall|t: int|
        0 <= t < b.len() ==> (a + b)[t + a.len()] == #[trigger] b[t]);
    if all_compile(a + b) {
        assert(all_compile(a));
        assert(all_compile(b)) by {
            assert(forall|t: int|
                0 <= t < b.len() ==> glob_ok(#[trigger] b[t])) by {
                assert(forall|t: int|
                    0 <= t < b.len() ==> b[t] == (a + b)[t + a.len()]);
            }
        }
    }
    if all_compile(a) && all_compile(b) {
        assert(forall|t: int|
            0 <= t < (a + b).len() ==> glob_ok(#[trigger] (a + b)[t])) by {
            assert(forall|t: int| 0 <= t < a.len() ==> (a + b)[t] == a[t]);
        }
    }
}

/// The compiled set of user-supplied ignore patterns, with the
/// files-only scope flag.
pub struct CustomIgnore {
    patterns: Vec<IgnorePattern>,
    files_only: bool,
}

impl CustomIgnore {
    /// The texts of the compiled patterns, in order.
    pub closed spec fn texts(self) -> Seq<Seq<char>> {
        self.patterns@.map_values(|p: IgnorePattern| p.text())
    }

    /// Whether patterns are scoped to files only.
    pub closed spec fn files_only_spec(self) -> bool {
        self.files_only
    }

    /// All compiled patterns agree with their texts.
    pub closed spec fn wf(self) -> bool {
        forall|i: int| 0 <= i < self.patterns@.len() ==> (#[trigger] self.patterns@[i]).wf()
    }
}

/// Whether any pattern of the set matches the path. Directories are
/// exempt altogether when the set is scoped to files only.
pub open spec fn custom_ignore_matches(
    texts: Seq<Seq<char>>,
    files_only: bool,
    path: Seq<char>,
    is_file: bool,
) -> bool {
    if !is_file && files_only {
        false
    } else {
        exists|i: int|
            0 <= i < texts.len() && ignore_pattern_matches(#[trigger] texts[i], path, is_file)
    }
}

impl CustomIgnore {
    /// Compiles the pattern list; blank entries are skipped, never
    /// compiled. Fails exactly when some kept pattern has invalid glob
    /// syntax.
    pub fn new(patterns: Vec<String>, files_only: bool) -> (r: Result<CustomIgnore, String>)
        ensures
            r is Ok <==> all_compile(kept_patterns(patterns@.map_values(|s: String| s@))),
            r matches Ok(c) ==> c.wf() && c.files_only_spec() == files_only && c.texts()
                == kept_patterns(patterns@.map_values(|s: String| s@)),
    {
        let ghost ps = patterns@.map_values(|s: String| s@);
        let mut compiled: Vec<IgnorePattern> = Vec::new();
        let mut i: usize = 0;
        proof {
            assert(ps.take(0) =~= Seq::<Seq<char>>::empty());
            assert(compiled@.map_values(|p: IgnorePattern| p.text())
                =~= Seq::<Seq<char>>::empty());
        }
        while i < patterns.len()
            invariant
                i <= patterns@.len(),
                ps == patterns@.map_values(|s: String| s@),
                ps.len() == patterns@.len(),
                compiled@.map_values(|p: IgnorePattern| p.text()) =~= kept_patterns(
                    ps.take(i as int),
                ),
                forall|t: int| 0 <= t < compiled@.len() ==> (#[trigger] compiled@[t]).wf(),
                all_compile(kept_patterns(ps.take(i as int))),
            decreases patterns@.len() - i,
        {
            let ghost before = compiled@;
            let trimmed = str_trim(patterns[i].as_str());
            if trimmed.as_str().unicode_len() > 0 {
                match IgnorePattern::compile(patterns[i].as_str()) {
                    Ok(p) => {
                        compiled.push(p);
                    },
                    Err(e) => {
                        proof {
                            assert(ps[i as int] == patterns@[i as int]@);
                            assert(trim_seq(ps[i as int]).len() != 0);
                            lemma_kept_patterns_push(ps.take(i as int), ps[i as int]);
                            assert(ps.take(i as int).push(ps[i as int]) =~= ps.take(i + 1));
                            assert(kept_patterns(ps.take(i + 1)) =~= kept_patterns(
                                ps.take(i as int),
                            ).push(ps[i as int]));
                            assert(!glob_ok(ps[i as int]));
                            let klen = kept_patterns(ps.take(i as int)).len() as int;
                            assert(kept_patterns(ps.take(i + 1))[klen] == ps[i as int]);
                            assert(!all_compile(kept_patterns(ps.take(i + 1))));
                            lemma_kept_patterns_prefix(ps, i + 1);
                            assert(!all_compile(kept_patterns(ps)));
                        }
                        return Err(e);
                    },
                }
            }
            proof {
                lemma_kept_patterns_push(ps.take(i as int), ps[i as int]);
                assert(ps.take(i as int).push(ps[i as int]) =~= ps.take(i + 1));
                if trim_seq(ps[i as int]).len() == 0 {
                    assert(compiled@ == before);
                } else {
                    assert(compiled@ =~= before.push(compiled@[before.len() as int]));
                    assert(compiled@.map_values(|p: IgnorePattern| p.text()) =~= before.map_values(
                        |p: IgnorePattern| p.text(),
                    ).push(compiled@[before.len() as int].text()));
                }
            }
            i = i + 1;
        }
        proof {
            assert(ps.take(i as int) =~= ps);
        }
        Ok(CustomIgnore { patterns: compiled, files_only })
    }

    /// Should a file at this path be ignored by the custom patterns?
    pub fn should_ignore_file(&self, path: &str) -> (r: bool)
        requires
            self.wf(),
        ensures
            r == custom_ignore_matches(self.texts(), self.files_only_spec(), path@, true),
    {
        self.matches_any(path, true)
    }

    /// Should a directory at this path be ignored by the custom
    /// patterns? Directories are exempt under files-only scope.
    pub fn should_ignore_dir(&self, path: &str) -> (r: bool)
        requires
            self.wf(),
        ensures
            r == custom_ignore_matches(self.texts(), self.files_only_spec(), path@, false),
    {
        if self.files_only {
            return false;
        }
        self.matches_any(path, false)
    }

    fn matches_any(&self, path: &str, is_file: bool) -> (r: bool)
        requires
            self.wf(),
        ensures
            r == exists|i: int|
                0 <= i < self.texts().len() && ignore_pattern_matches(
                    #[trigger] self.texts()[i],
                    path@,
                    is_file,
                ),
    {
        let mut i: usize = 0;
        while i < self.patterns.len()
            invariant
                i <= self.patterns@.len(),
                self.wf(),
                forall|t: int|
                    0 <= t < i ==> !ignore_pattern_matches(
                        #[trigger] self.texts()[t],
                        path@,
                        is_file,
                    ),
            decreases self.patterns@.len() - i,
        {
            if self.patterns[i].matches(path, is_file) {
                assert(ignore_pattern_matches(self.texts()[i as int], path@, is_file));
                return true;
            }
            i = i + 1;
        }
        false
    }
}

/// Whether a pattern text matches a bare entry name; for directories the
/// name with a separator appended is also tried.
pub open spec fn basic_match(text: Seq<char>, name: Seq<char>, is_dir: bool) -> bool {
    glob_match(text, name) || (is_dir && glob_match(text, name + seq!['/']))
}

/// Whether any of the pattern texts matches the entry name.
pub open spec fn any_basic_match(texts: Seq<Seq<char>>, name: Seq<char>, is_dir: bool) -> bool {
    exists|i: int| 0 <= i < texts.len() && basic_match(#[trigger] texts[i], name, is_dir)
}

/// The trimmed, non-empty, non-comment lines of ignore-file content.
pub open spec fn kept_gitignore_lines(lines: Seq<Seq<char>>) -> Seq<Seq<char>>
    decreases lines.len(),
{
    if lines.len() == 0 {
        Seq::empty()
    } else {
        let t = trim_seq(lines[0]);
        (if t.len() > 0 && t[0] != '#' {
            seq![t]
        } else {
            Seq::empty()
        }) + kept_gitignore_lines(lines.drop_first())
    }
}

/// The pattern texts a gitignore-style file contributes.
pub open spec fn gitignore_lines(content: Seq<char>) -> Seq<Seq<char>> {
    kept_gitignore_lines(crate::strutil::split_lines(content))
}

/// Appending one line extends the kept lines by its trimmed form, unless
/// it is blank or a comment.
pub proof fn lemma_kept_gitignore_push(lines: Seq<Seq<char>>, x: Seq<char>)
    ensures
        (trim_seq(x).len() > 0 && trim_seq(x)[0] != '#') ==> kept_gitignore_lines(lines.push(x))
            =~= kept_gitignore_lines(lines).push(trim_seq(x)),
        !(trim_seq(x).len() > 0 && trim_seq(x)[0] != '#') ==> kept_gitignore_lines(lines.push(x))
            =~= kept_gitignore_lines(lines),
    decreases lines.len(),
{
    if lines.len() == 0 {
        assert(lines.push(x)[0] == x);
        assert(lines.push(x).drop_first() =~= Seq::<Seq<char>>::empty());
        assert(kept_gitignore_lines(lines.push(x).drop_first()) =~= Seq::<Seq<char>>::empty());
    } else {
        lemma_kept_gitignore_push(lines.drop_first(), x);
        assert(lines.push(x)[0] == lines[0]);
        assert(lines.push(x).drop_first() =~= lines.drop_first().push(x));
        let t0 = trim_seq(lines[0]);
        if t0.len() > 0 && t0[0] != '#' {
            if trim_seq(x).len() > 0 && trim_seq(x)[0] != '#' {
                assert(seq![t0] + kept_gitignore_lines(lines.drop_first()).push(trim_seq(x))
                    =~= (seq![t0] + kept_gitignore_lines(lines.drop_first())).push(trim_seq(x)));
            }
        }
    }
}

/// Parses ignore-file content into its pattern lines: each line trimmed,
/// blank lines and comment lines dropped.
pub fn parse_gitignore_lines(content: &str) -> (r: Vec<String>)
    ensures
        r@.map_values(|s: String| s@) == gitignore_lines(content@),
{
    let lines = crate::strutil::str_lines(content);
    let ghost lviews = lines@.map_values(|l: String| l@);
    proof {
        assert(lviews =~= crate::strutil::split_lines(content@));
    }
    let mut out: Vec<String> = Vec::new();
    let mut i: usize = 0;
    proof {
        assert(lviews.take(0) =~= Seq::<Seq<char>>::empty());
        assert(out@.map_values(|s: String| s@) =~= Seq::<Seq<char>>::empty());
    }
    while i < lines.len()
        invariant
            i <= lines@.len(),
            lviews == lines@.map_values(|l: String| l@),
            lviews.len() == lines@.len(),
            out@.map_values(|s: String| s@) =~= kept_gitignore_lines(lviews.take(i as int)),
        decreases lines@.len() - i,
    {
        let ghost before = out@;
        let trimmed = str_trim(lines[i].as_str());
        let tlen = trimmed.as_str().unicode_len();
        if tlen > 0 && trimmed.as_str().get_char(0) != '#' {
            out.push(trimmed);
            proof {
                assert(out@ =~= before.push(out@[before.len() as int]));
                assert(out@.map_values(|s: String| s@) =~= before.map_values(
                    |s: String| s@,
                ).push(out@[before.len() as int]@));
            }
        }
        proof {
            lemma_kept_gitignore_push(lviews.take(i as int), lviews[i as int]);
            assert(lviews.take(i as int).push(lviews[i as int]) =~= lviews.take(i + 1));
        }
        i = i + 1;
    }
    proof {
        assert(lviews.take(i as int) =~= lviews);
    }
    out
}

/// Handles ignore patterns from gitignore-file content, matched against
/// an entry's bare name, and custom patterns, matched with the full
/// path-aware rule.
pub struct IgnoreChecker {
    gitignore_patterns: Vec<IgnorePattern>,
    custom_patterns: Vec<IgnorePattern>,
    ignore_files_only: bool,
}

impl IgnoreChecker {
    /// The texts of the gitignore-derived patterns.
    pub closed spec fn gitignore_texts(self) -> Seq<Seq<char>> {
        self.gitignore_patterns@.map_values(|p: IgnorePattern| p.text())
    }

    /// The texts of the custom patterns.
    pub closed spec fn custom_texts(self) -> Seq<Seq<char>> {
        self.custom_patterns@.map_values(|p: IgnorePattern| p.text())
    }

    /// Whether custom patterns are scoped to files only.
    pub closed spec fn files_only_spec(self) -> bool {
        self.ignore_files_only
    }

    /// All compiled patterns agree with their texts.
    pub closed spec fn wf(self) -> bool {
        &&& forall|i: int|
            0 <= i < self.gitignore_patterns@.len() ==> (
            #[trigger] self.gitignore_patterns@[i]).wf()
        &&& forall|i: int|
            0 <= i < self.custom_patterns@.len() ==> (#[trigger] self.custom_patterns@[i]).wf()
    }

    /// Create a new IgnoreChecker.
    pub fn new(ignore_files_only: bool) -> (r: IgnoreChecker)
        ensures
            r.wf(),
            r.gitignore_texts() == Seq::<Seq<char>>::empty(),
            r.custom_texts() == Seq::<Seq<char>>::empty(),
            r.files_only_spec() == ignore_files_only,
    {
        let r = IgnoreChecker {
            gitignore_patterns: Vec::new(),
            custom_patterns: Vec::new(),
            ignore_files_only,
        };
        proof {
            assert(r.gitignore_texts() =~= Seq::<Seq<char>>::empty());
            assert(r.custom_texts() =~= Seq::<Seq<char>>::empty());
        }
        r
    }

    /// Add patterns from gitignore-file content: one pattern per trimmed
    /// non-blank, non-comment line. Fails exactly when some such line has
    /// invalid glob syntax; patterns of earlier lines are kept.
    pub fn add_gitignore_content(&mut self, content: &str) -> (r: Result<(), String>)
        requires
            old(self).wf(),
        ensures
            final(self).wf(),
            final(self).custom_texts() == old(self).custom_texts(),
            final(self).files_only_spec() == old(self).files_only_spec(),
            r is Ok <==> all_compile(gitignore_lines(content@)),
            r is Ok ==> final(self).gitignore_texts() == old(self).gitignore_texts()
                + gitignore_lines(content@),
    {
        let lines = parse_gitignore_lines(content);
        let ghost kept = gitignore_lines(content@);
        let ghost g0 = self.gitignore_texts();
        let mut i: usize = 0;
        proof {
            assert(lines@.map_values(|s: String| s@) == kept);
            assert(g0 + kept.take(0) =~= g0);
        }
        while i < lines.len()
            invariant
                i <= lines@.len(),
                kept == gitignore_lines(content@),
                lines@.map_values(|s: String| s@) == kept,
                kept.len() == lines@.len(),
                self.wf(),
                self.custom_patterns == old(self).custom_patterns,
                self.ignore_files_only == old(self).ignore_files_only,
                self.gitignore_texts() =~= g0 + kept.take(i as int),
                forall|t: int| 0 <= t < i ==> glob_ok(#[trigger] kept[t]),
            decreases lines@.len() - i,
        {
            let ghost before = self.gitignore_patterns@;
            match IgnorePattern::compile(lines[i].as_str()) {
                Ok(p) => {
                    self.gitignore_patterns.push(p);
                    proof {
                        assert(self.gitignore_patterns@ =~= before.push(
                            self.gitignore_patterns@[before.len() as int],
                        ));
                        assert(self.gitignore_texts() =~= before.map_values(
                            |q: IgnorePattern| q.text(),
                        ).push(kept[i as int]));
                        assert(g0 + kept.take(i as int + 1) =~= (g0 + kept.take(i as int)).push(
                            kept[i as int],
                        ));
                    }
                },
                Err(e) => {
                    proof {
                        assert(!glob_ok(kept[i as int]));
                        assert(!all_compile(kept));
                    }
                    return Err(e);
                },
            }
            i = i + 1;
        }
        proof {
            assert(kept.take(i as int) =~= kept);
            assert(forall|t: int| 0 <= t < kept.len() ==> glob_ok(#[trigger] kept[t]));
        }
        Ok(())
    }

    /// Add custom ignore patterns; blank entries (empty or
    /// whitespace-only) are skipped, never compiled. Fails exactly when
    /// some kept pattern has invalid glob syntax; patterns of earlier
    /// entries are kept.
    pub fn add_custom_patterns(&mut self, patterns: &Vec<String>) -> (r: Result<(), String>)
        requires
            old(self).wf(),
        ensures
            final(self).wf(),
            final(self).gitignore_texts() == old(self).gitignore_texts(),
            final(self).files_only_spec() == old(self).files_only_spec(),
            r is Ok <==> all_compile(kept_patterns(patterns@.map_values(|s: String| s@))),
            r is Ok ==> final(self).custom_texts() == old(self).custom_texts() + kept_patterns(
                patterns@.map_values(|s: String| s@),
            ),
    {
        let ghost ps = patterns@.map_values(|s: String| s@);
        let ghost c0 = self.custom_texts();
        let mut i: usize = 0;
        proof {
            assert(ps.take(0) =~= Seq::<Seq<char>>::empty());
            assert(c0 + kept_patterns(ps.take(0)) =~= c0);
        }
        while i < patterns.len()
            invariant
                i <= patterns@.len(),
                ps == patterns@.map_values(|s: String| s@),
                ps.len() == patterns@.len(),
                self.wf(),
                self.gitignore_patterns == old(self).gitignore_patterns,
                self.ignore_files_only == old(self).ignore_files_only,
                self.custom_texts() =~= c0 + kept_patterns(ps.take(i as int)),
                all_compile(kept_patterns(ps.take(i as int))),
            decreases patterns@.len() - i,
        {
            let ghost before = self.custom_patterns@;
            let trimmed = str_trim(patterns[i].as_str());
            if trimmed.as_str().unicode_len() > 0 {
                match IgnorePattern::compile(patterns[i].as_str()) {
                    Ok(p) => {
                        self.custom_patterns.push(p);
                        proof {
                            assert(self.custom_patterns@ =~= before.push(
                                self.custom_patterns@[before.len() as int],
                            ));
                            assert(self.custom_texts() =~= before.map_values(
                                |q: IgnorePattern| q.text(),
                            ).push(ps[i as int]));
                        }
                    },
                    Err(e) => {
                        proof {
                            assert(trim_seq(ps[i as int]).len() != 0);
                            lemma_kept_patterns_push(ps.take(i as int), ps[i as int]);
                            assert(ps.take(i as int).push(ps[i as int]) =~= ps.take(i + 1));
                            let klen = kept_patterns(ps.take(i as int)).len() as int;
                            assert(kept_patterns(ps.take(i + 1))[klen] == ps[i as int]);
                            assert(!all_compile(kept_patterns(ps.take(i + 1))));
                            lemma_kept_patterns_prefix(ps, i + 1);
                        }
                        return Err(e);
                    },
                }
            }
            proof {
                lemma_kept_patterns_push(ps.take(i as int), ps[i as int]);
                assert(ps.take(i as int).push(ps[i as int]) =~= ps.take(i + 1));
            }
            i = i + 1;
        }
        proof {
            assert(ps.take(i as int) =~= ps);
        }
        Ok(())
    }

    /// Check if a path should be ignored based on gitignore rules.
    pub fn should_ignore_gitignore(&self, path: &str, is_dir: bool) -> (r: bool)
        requires
            self.wf(),
        ensures
            r == any_basic_match(self.gitignore_texts(), last_segment(path@), is_dir),
    {
        Self::matches_any_pattern(path, is_dir, &self.gitignore_patterns)
    }

    /// Check if a path should be ignored based on custom patterns:
    /// each pattern is tried against the final segment, the full path,
    /// and, for directories, their separator-suffixed forms and the
    /// directory-only stem rule; directories are exempt altogether
    /// under files-only scope.
    pub fn should_ignore_custom(&self, path: &str, is_file: bool) -> (r: bool)
        requires
            self.wf(),
        ensures
            r == custom_ignore_matches(self.custom_texts(), self.files_only_spec(), path@, is_file),
    {
        if self.ignore_files_only && !is_file {
            return false;
        }
        let mut i: usize = 0;
        while i < self.custom_patterns.len()
            invariant
                i <= self.custom_patterns@.len(),
                self.wf(),
                !(self.files_only_spec() && !is_file),
                forall|t: int|
                    0 <= t < i ==> !ignore_pattern_matches(
                        #[trigger] self.custom_texts()[t],
                        path@,
                        is_file,
                    ),
            decreases self.custom_patterns@.len() - i,
        {
            if self.custom_patterns[i].matches(path, is_file) {
                assert(ignore_pattern_matches(self.custom_texts()[i as int], path@, is_file));
                return true;
            }
            i = i + 1;
        }
        false
    }

    /// Check if a path's final segment matches any of the given patterns;
    /// for a directory, the segment with a separator appended is also
    /// tried.
    pub fn matches_any_pattern(path: &str, is_dir: bool, patterns: &Vec<IgnorePattern>) -> (r:
        bool)
        requires
            forall|i: int| 0 <= i < patterns@.len() ==> (#[trigger] patterns@[i]).wf(),
        ensures
            r == any_basic_match(
                patterns@.map_values(|p: IgnorePattern| p.text()),
                last_segment(path@),
                is_dir,
            ),
    {
        let ghost texts = patterns@.map_values(|p: IgnorePattern| p.text());
        let name = str_last_segment(path);
        let mut name_slash = String::from_str(name.as_str());
        name_slash.append("/");
        proof {
            reveal_strlit("/");
            assert("/"@ =~= seq!['/']);
        }
        let mut i: usize = 0;
        while i < patterns.len()
            invariant
                i <= patterns@.len(),
                texts == patterns@.map_values(|p: IgnorePattern| p.text()),
                texts.len() == patterns@.len(),
                forall|t: int| 0 <= t < patterns@.len() ==> (#[trigger] patterns@[t]).wf(),
                name@ == last_segment(path@),
                name_slash@ == last_segment(path@) + seq!['/'],
                forall|t: int|
                    0 <= t < i ==> !basic_match(#[trigger] texts[t], last_segment(path@), is_dir),
            decreases patterns@.len() - i,
        {
            if glob_matches(&patterns[i].matcher, name.as_str()) {
                assert(basic_match(texts[i as int], last_segment(path@), is_dir));
                return true;
            }
            if is_dir && glob_matches(&patterns[i].matcher, name_slash.as_str()) {
                assert(basic_match(texts[i as int], last_segment(path@), is_dir));
                return true;
            }
            i = i + 1;
        }
        false
    }
}

/// Compiles one gitignore rule layer from its pattern lines. Fails
/// exactly when some line has invalid glob syntax.
pub fn compile_layer(lines: &Vec<String>) -> (r: Result<Vec<IgnorePattern>, String>)
    ensures
        r is Ok <==> all_compile(lines@.map_values(|s: String| s@)),
        r matches Ok(v) ==> v@.map_values(|p: IgnorePattern| p.text()) == lines@.map_values(
            |s: String| s@,
        ) && (forall|i: int| 0 <= i < v@.len() ==> (#[trigger] v@[i]).wf()),
{
    let ghost ls = lines@.map_values(|s: String| s@);
    let mut out: Vec<IgnorePattern> = Vec::new();
    let mut i: usize = 0;
    proof {
        assert(out@.map_values(|p: IgnorePattern| p.text()) =~= ls.take(0));
    }
    while i < lines.len()
        invariant
            i <= lines@.len(),
            ls == lines@.map_values(|s: String| s@),
            ls.len() == lines@.len(),
            out@.map_values(|p: IgnorePattern| p.text()) =~= ls.take(i as int),
            forall|t: int| 0 <= t < out@.len() ==> (#[trigger] out@[t]).wf(),
            forall|t: int| 0 <= t < i ==> glob_ok(#[trigger] ls[t]),
        decreases lines@.len() - i,
    {
        let ghost before = out@;
        match IgnorePattern::compile(lines[i].as_str()) {
            Ok(p) => {
                out.push(p);
                proof {
                    assert(out@ =~= before.push(out@[before.len() as int]));
                    assert(out@.map_values(|p: IgnorePattern| p.text()) =~= before.map_values(
                        |q: IgnorePattern| q.text(),
                    ).push(ls[i as int]));
                    assert(ls.take(i as int).push(ls[i as int]) =~= ls.take(i + 1));
                }
            },
            Err(e) => {
                proof {
                    assert(!glob_ok(ls[i as int]));
                }
                return Err(e);
            },
        }
        i = i + 1;
    }
    proof {
        assert(ls.take(i as int) =~= ls);
    }
    Ok(out)
}

/// Does any of the patterns match the bare entry name, or, for a
/// directory, the name with a separator appended?
pub fn patterns_basic_match(patterns: &Vec<IgnorePattern>, name: &str, is_dir: bool) -> (r: bool)
    requires
        forall|i: int| 0 <= i < patterns@.len() ==> (#[trigger] patterns@[i]).wf(),
    ensures
        r == any_basic_match(patterns@.map_values(|p: IgnorePattern| p.text()), name@, is_dir),
{
    let ghost texts = patterns@.map_values(|p: IgnorePattern| p.text());
    let mut name_slash = String::from_str(name);
    name_slash.append("/");
    proof {
        reveal_strlit("/");
        assert("/"@ =~= seq!['/']);
    }
    let mut i: usize = 0;
    while i < patterns.len()
        invariant
            i <= patterns@.len(),
            texts == patterns@.map_values(|p: IgnorePattern| p.text()),
            texts.len() == patterns@.len(),
            forall|t: int| 0 <= t < patterns@.len() ==> (#[trigger] patterns@[t]).wf(),
            name_slash@ == name@ + seq!['/'],
            forall|t: int| 0 <= t < i ==> !basic_match(#[trigger] texts[t], name@, is_dir),
        decreases patterns@.len() - i,
    {
        if glob_matches(&patterns[i].matcher, name) {
            assert(basic_match(texts[i as int], name@, is_dir));
            return true;
        }
        if is_dir && glob_matches(&patterns[i].matcher, name_slash.as_str()) {
            assert(basic_match(texts[i as int], name@, is_dir));
            return true;
        }
        i = i + 1;
    }
    false
}

/// A kept-pattern failure in a prefix persists in the whole list.
proof fn lemma_kept_patterns_prefix(ps: Seq<Seq<char>>, k: int)
    requires
        0 <= k <= ps.len(),
        !all_compile(kept_patterns(ps.take(k))),
    ensures
        !all_compile(kept_patterns(ps)),
    decreases ps.len() - k,
{
    if k < ps.len() {
        lemma_kept_patterns_push(ps.take(k), ps[k]);
        assert(ps.take(k).push(ps[k]) =~= ps.take(k + 1));
        let bad = choose|i: int|
            0 <= i < kept_patterns(ps.take(k)).len() && !glob_ok(#[trigger] kept_patterns(
                ps.take(k),
            )[i]);
        if trim_seq(ps[k]).len() == 0 {
            assert(kept_patterns(ps.take(k + 1)) =~= kept_patterns(ps.take(k)));
        } else {
            assert(kept_patterns(ps.take(k + 1))[bad] == kept_patterns(ps.take(k))[bad]);
        }
        assert(!all_compile(kept_patterns(ps.take(k + 1))));
        lemma_kept_patterns_prefix(ps, k + 1);
    } else {
        assert(ps.take(k) =~= ps);
    }
}

} // verus!
