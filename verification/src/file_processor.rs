//! Core file processing: selection over directory snapshots and assembly
//! of the formatted output.

use vstd::prelude::*;

use crate::output::OutputFormatter;
use crate::tree::TreeGenerator;
use crate::walker::FileContent;
use crate::walker::RootPath;
use crate::walker::WalkItemKind;
use crate::FilesToPromptError;
use crate::TocMode;

verus! {

/// The admitted files of all roots, each as its emitted full path and
/// its content: an admitted file root contributes itself, a directory
/// root every admitted file of its walk.
pub open spec fn admitted_files(
    p: crate::walker::PolicyModel,
    paths: Seq<RootPath>,
) -> Seq<(Seq<char>, FileContent)>
    decreases paths.len(),
{
    if paths.len() == 0 {
        Seq::empty()
    } else {
        (match paths[0] {
            RootPath::File { path, content } => {
                if crate::walker::ext_admit(p.exts, path@) && (p.include_hidden
                    || !crate::walker::hidden_name(crate::strutil::last_segment(path@))) {
                    seq![(path@, content)]
                } else {
                    Seq::empty()
                }
            },
            RootPath::Dir { path, dir } => file_items(
                path@,
                crate::walker::spec_walk_dir(p, dir, path@, Seq::empty()),
            ),
            RootPath::Missing { .. } => Seq::empty(),
        }) + admitted_files(p, paths.drop_first())
    }
}

/// The file items of one walk, under their root's path.
pub open spec fn file_items(
    base: Seq<char>,
    items: Seq<(Seq<char>, WalkItemKind)>,
) -> Seq<(Seq<char>, FileContent)>
    decreases items.len(),
{
    if items.len() == 0 {
        Seq::empty()
    } else {
        (match items[0].1 {
            WalkItemKind::File(c) => seq![(base + seq!['/'] + items[0].0, c)],
            WalkItemKind::Dir => Seq::empty(),
        }) + file_items(base, items.drop_first())
    }
}

/// Whether every admitted file could be read.
pub open spec fn files_readable(files: Seq<(Seq<char>, FileContent)>) -> bool {
    forall|i: int|
        0 <= i < files.len() ==> !((#[trigger] files[i]).1 matches FileContent::Unreadable)
}

/// The paths of admitted files skipped for being binary or undecodable.
pub open spec fn skipped_of(files: Seq<(Seq<char>, FileContent)>) -> Seq<Seq<char>>
    decreases files.len(),
{
    if files.len() == 0 {
        Seq::empty()
    } else {
        (match files[0].1 {
            FileContent::Binary => seq![files[0].0],
            _ => Seq::empty(),
        }) + skipped_of(files.drop_first())
    }
}

/// The formatted parts the admitted files produce, threaded through the
/// formatter's state, together with the formatter's final state;
/// binary files produce nothing and leave the state alone.
pub open spec fn fmt_parts<F: OutputFormatter>(
    fmt: F,
    files: Seq<(Seq<char>, FileContent)>,
    line_numbers: bool,
) -> (Seq<Seq<char>>, F)
    decreases files.len(),
{
    if files.len() == 0 {
        (Seq::empty(), fmt)
    } else {
        match files[0].1 {
            FileContent::Text(t) => {
                let head = fmt.format_file_spec(files[0].0, t@, line_numbers);
                let rest = fmt_parts(fmt.after_format(), files.drop_first(), line_numbers);
                (seq![head] + rest.0, rest.1)
            },
            _ => fmt_parts(fmt, files.drop_first(), line_numbers),
        }
    }
}

/// Formatting distributes over concatenation of admitted files, the
/// formatter state threading through.
pub proof fn lemma_fmt_parts_append<F: OutputFormatter>(
    fmt: F,
    a: Seq<(Seq<char>, FileContent)>,
    b: Seq<(Seq<char>, FileContent)>,
    ln: bool,
)
    ensures
        fmt_parts(fmt, a + b, ln).0 =~= fmt_parts(fmt, a, ln).0 + fmt_parts(
            fmt_parts(fmt, a, ln).1,
            b,
            ln,
        ).0,
        fmt_parts(fmt, a + b, ln).1 == fmt_parts(fmt_parts(fmt, a, ln).1, b, ln).1,
    decreases a.len(),
{
    if a.len() == 0 {
        assert(a + b =~= b);
        assert(fmt_parts(fmt, a, ln).0 =~= Seq::<Seq<char>>::empty());
    } else {
        assert((a + b)[0] == a[0]);
        assert((a + b).drop_first() =~= a.drop_first() + b);
        match a[0].1 {
            FileContent::Text(t) => {
                lemma_fmt_parts_append(fmt.after_format(), a.drop_first(), b, ln);
            },
            _ => {
                lemma_fmt_parts_append(fmt, a.drop_first(), b, ln);
            },
        }
    }
}

/// Skipping and readability distribute over concatenation.
pub proof fn lemma_files_append(a: Seq<(Seq<char>, FileContent)>, b: Seq<(Seq<char>, FileContent)>)
    ensures
        skipped_of(a + b) =~= skipped_of(a) + skipped_of(b),
        files_readable(a + b) == (files_readable(a) && files_readable(b)),
    decreases a.len(),
{
    if a.len() == 0 {
        assert(a + b =~= b);
        assert(skipped_of(a) =~= Seq::<Seq<char>>::empty());
        assert(files_readable(a));
    } else {
        assert((a + b)[0] == a[0]);
        assert((a + b).drop_first() =~= a.drop_first() + b);
        lemma_files_append(a.drop_first(), b);
        assert(forall|t: int| 0 <= t < a.len() - 1 ==> #[trigger] a.drop_first()[t] == a[t + 1]);
        assert(forall|t: int| 1 <= t < a.len() ==> #[trigger] a[t] == a.drop_first()[t - 1]);
        assert(forall|t: int|
            1 <= t < (a + b).len() ==> #[trigger] (a + b)[t] == (a.drop_first() + b)[t - 1]);
        if files_readable(a.drop_first()) && !(a[0].1 matches FileContent::Unreadable) {
            assert(files_readable(a));
        }
        if files_readable(a) {
            assert(files_readable(a.drop_first()));
        }
        if files_readable(a + b) {
            assert(files_readable(a.drop_first() + b));
            assert(files_readable(a));
        }
        if !(files_readable(a))  {
            assert(!files_readable(a + b)) by {
                let w = choose|t: int|
                    0 <= t < a.len() && (#[trigger] a[t]).1 matches FileContent::Unreadable;
                assert((a + b)[w] == a[w]);
            }
        } else if !files_readable(b) {
            assert(!files_readable(a.drop_first() + b));
            assert(!files_readable(a + b));
        }
    }
}

/// Handles file processing with filtering and directory traversal.
pub struct FileProcessor {
    pub(crate) gen: TreeGenerator,
    pub(crate) line_numbers: bool,
    pub(crate) toc_mode: Option<TocMode>,
}

impl FileProcessor {
    /// The selection policy this processor applies.
    pub closed spec fn policy_model(self) -> crate::walker::PolicyModel {
        self.gen.policy_model()
    }

    /// Whether output lines are numbered.
    pub closed spec fn line_numbers_spec(self) -> bool {
        self.line_numbers
    }

    /// The requested table-of-contents mode, if any.
    pub closed spec fn toc_mode_spec(self) -> Option<TocMode> {
        self.toc_mode
    }

    /// The compiled custom patterns agree with their texts.
    pub closed spec fn wf(self) -> bool {
        self.gen.wf()
    }

    /// Create a new FileProcessor with the specified options. Fails
    /// exactly when a non-blank ignore pattern has invalid glob syntax.
    pub fn new(
        extensions: Vec<String>,
        include_hidden: bool,
        ignore_files_only: bool,
        ignore_gitignore: bool,
        ignore_patterns: Vec<String>,
        line_numbers: bool,
        toc_mode: Option<TocMode>,
    ) -> (r: Result<FileProcessor, FilesToPromptError>)
        ensures
            r is Ok <==> crate::ignore::all_compile(
                crate::ignore::kept_patterns(ignore_patterns@.map_values(|s: String| s@)),
            ),
            r matches Ok(fp) ==> fp.wf() && fp.line_numbers_spec() == line_numbers
                && fp.toc_mode_spec() == toc_mode && fp.policy_model() == (
            crate::walker::PolicyModel {
                exts: extensions@.map_values(|s: String| s@),
                include_hidden,
                respect_gitignore: !ignore_gitignore,
                custom: crate::ignore::kept_patterns(
                    ignore_patterns@.map_values(|s: String| s@),
                ),
                files_only: ignore_files_only,
            }),
            r matches Err(e) ==> e matches FilesToPromptError::PatternError { .. },
    {
        let custom_ignore = match crate::ignore::CustomIgnore::new(
            ignore_patterns,
            ignore_files_only,
        ) {
            Ok(c) => c,
            Err(e) => {
                return Err(FilesToPromptError::PatternError { message: e });
            },
        };
        let gen = TreeGenerator::new(extensions, include_hidden, ignore_gitignore, custom_ignore);
        Ok(FileProcessor { gen, line_numbers, toc_mode })
    }

    /// Check if a file should be included based on its extension.
    pub fn should_include_file_by_extension(&self, path: &str) -> (r: bool)
        ensures
            r == crate::walker::ext_admit(self.policy_model().exts, path@),
    {
        self.gen.should_include_file(path)
    }

    /// Check if a file is hidden: its own name starts with a dot.
    pub fn is_hidden_file(&self, path: &str) -> (r: bool)
        ensures
            r == crate::walker::hidden_name(crate::strutil::last_segment(path@)),
    {
        let name = crate::strutil::str_last_segment(path);
        crate::walker::hidden_name_exec(name.as_str())
    }
}

/// Whether a stored walk result belongs to its root: a directory root
/// keeps its walk items, any other root keeps none.
pub open spec fn root_items_ok(
    p: crate::walker::PolicyModel,
    root: RootPath,
    items: Seq<(String, WalkItemKind)>,
) -> bool {
    match root {
        RootPath::Dir { path, dir } => items.map_values(
            |q: (String, WalkItemKind)| crate::walker::pair_view(q),
        ) == crate::walker::spec_walk_dir(p, dir, path@, Seq::empty()),
        _ => items.len() == 0,
    }
}

impl FileProcessor {
    /// Process multiple paths and generate output using the specified
    /// formatter: an optional opening piece, the table of contents when
    /// one was requested and is non-empty, one formatted piece per
    /// admitted readable file in walk order, and an optional closing
    /// piece, joined with newlines; admitted binary or undecodable
    /// files are skipped and their paths returned alongside. Fails
    /// exactly when some directory root's walk fails or an admitted
    /// file could not be read.
    #[verifier::rlimit(100)]
    pub fn process_paths<F: OutputFormatter>(
        &self,
        paths: &Vec<RootPath>,
        formatter: &mut F,
    ) -> (r: Result<(String, Vec<String>), FilesToPromptError>)
        requires
            self.wf(),
        ensures
            r is Ok <==> crate::tree::roots_ok(self.policy_model(), paths@) && files_readable(
                admitted_files(self.policy_model(), paths@),
            ),
            r matches Ok(out) ==> ({
                let p = self.policy_model();
                let admitted = admitted_files(p, paths@);
                let fparts = fmt_parts(*old(formatter), admitted, self.line_numbers_spec());
                let start = old(formatter).start_spec();
                let toc_parts = (match self.toc_mode_spec() {
                    Some(m) => {
                        let toc = crate::tree::render_trees_spec(
                            crate::tree::gen_trees_spec(p, paths@),
                            m,
                        );
                        if toc.len() > 0 {
                            seq![old(formatter).toc_spec(toc), Seq::<char>::empty()]
                        } else {
                            Seq::empty()
                        }
                    },
                    None => Seq::empty(),
                });
                let end = fparts.1.end_spec();
                &&& out.0@ == crate::strutil::join_nl(
                    (if start.len() > 0 {
                        seq![start]
                    } else {
                        Seq::empty()
                    }) + toc_parts + fparts.0 + (if end.len() > 0 {
                        seq![end]
                    } else {
                        Seq::empty()
                    }),
                )
                &&& out.1@.map_values(|s: String| s@) == skipped_of(admitted)
                &&& *final(formatter) == fparts.1
            }),
    {
        let ghost p = self.policy_model();
        let ghost fmt0 = *formatter;
        let ghost admitted = admitted_files(p, paths@);
        let ghost lnb = self.line_numbers_spec();
        let mut output: Vec<String> = Vec::new();
        let mut skipped: Vec<String> = Vec::new();
        let start = formatter.start_output();
        let ghost start_v = start@;
        let ghost head_parts: Seq<Seq<char>> = if start_v.len() > 0 {
            seq![start_v]
        } else {
            Seq::empty()
        };
        if start.as_str().unicode_len() > 0 {
            output.push(start);
        }
        proof {
            assert(output@.map_values(|l: String| l@) =~= head_parts);
        }
        // one walk per directory root, reused for the table of contents
        // and for the emitted files
        let mut all_items: Vec<Vec<(String, WalkItemKind)>> = Vec::new();
        let mut i: usize = 0;
        proof {
            assert(paths@.skip(0) =~= paths@);
        }
        while i < paths.len()
            invariant
                i <= paths@.len(),
                self.wf(),
                p == self.policy_model(),
                all_items@.len() == i,
                crate::tree::roots_ok(p, paths@) == crate::tree::roots_ok(
                    p,
                    paths@.skip(i as int),
                ),
                forall|t: int|
                    0 <= t < i ==> root_items_ok(p, paths@[t], (#[trigger] all_items@[t])@),
            decreases paths@.len() - i,
        {
            let ghost rest = paths@.skip(i as int);
            proof {
                assert(rest[0] == paths@[i as int]);
                assert(rest.drop_first() =~= paths@.skip(i as int + 1));
            }
            match &paths[i] {
                RootPath::Dir { path, dir } => {
                    let mut layers: Vec<crate::walker::GitignoreLayer> = Vec::new();
                    let mut items: Vec<(String, WalkItemKind)> = Vec::new();
                    let empty_prefix = "";
                    proof {
                        reveal_strlit("");
                        assert(empty_prefix@ =~= Seq::<char>::empty());
                        assert(crate::walker::layer_texts(layers@)
                            =~= Seq::<(Seq<char>, Seq<Seq<char>>)>::empty());
                        self.gen.lemma_policy_fields();
                    }
                    match self.gen.walk_into(dir, path.as_str(), empty_prefix, &mut layers,
                        &mut items) {
                        Ok(_) => {},
                        Err(e) => {
                            proof {
                                assert(!crate::walker::spec_walk_ok(p, *dir, path@, Seq::empty()));
                                assert(!crate::tree::roots_ok(p, rest));
                            }
                            return Err(e);
                        },
                    }
                    proof {
                        let walked = crate::walker::spec_walk_dir(p, *dir, path@, Seq::empty());
                        assert(items@.map_values(
                            |q: (String, WalkItemKind)| crate::walker::pair_view(q),
                        ) =~= crate::walker::prefix_pairs(Seq::empty(), walked));
                        assert(crate::walker::prefix_pairs(Seq::empty(), walked) =~= walked) by {
                            assert(forall|t: int|
                                0 <= t < walked.len() ==> Seq::<char>::empty() + (
                                #[trigger] walked[t]).0 =~= walked[t].0);
                        }
                        assert(root_items_ok(p, paths@[i as int], items@));
                    }
                    all_items.push(items);
                },
                _ => {
                    let v: Vec<(String, WalkItemKind)> = Vec::new();
                    proof {
                        assert(root_items_ok(p, paths@[i as int], v@));
                    }
                    all_items.push(v);
                },
            }
            i = i + 1;
        }
        proof {
            assert(paths@.skip(i as int).len() == 0);
            assert(crate::tree::roots_ok(p, paths@.skip(i as int)));
            assert(crate::tree::roots_ok(p, paths@));
        }
        // the table of contents, from the stored walks
        let ghost toc_parts_g: Seq<Seq<char>> = (match self.toc_mode_spec() {
            Some(m) => {
                let toc = crate::tree::render_trees_spec(crate::tree::gen_trees_spec(p, paths@), m);
                if toc.len() > 0 {
                    seq![fmt0.toc_spec(toc), Seq::<char>::empty()]
                } else {
                    Seq::empty()
                }
            },
            None => Seq::empty(),
        });
        match self.toc_mode {
            Some(mode) => {
                let trees = self.build_trees(paths, &all_items);
                let toc = self.gen.render_tree(&trees, mode);
                if toc.as_str().unicode_len() > 0 {
                    let ftoc = formatter.format_table_of_contents(toc.as_str());
                    output.push(ftoc);
                    output.push(String::new());
                }
            },
            None => {},
        }
        proof {
            assert(output@.map_values(|l: String| l@) =~= head_parts + toc_parts_g);
        }
        let ghost pre = head_parts + toc_parts_g;
        // the files, in walk order
        let mut i: usize = 0;
        proof {
            assert(paths@.skip(0) =~= paths@);
            assert(skipped@.map_values(|s: String| s@) =~= Seq::<Seq<char>>::empty());
        }
        while i < paths.len()
            invariant
                i <= paths@.len(),
                self.wf(),
                p == self.policy_model(),
                lnb == self.line_numbers_spec(),
                pre == head_parts + toc_parts_g,
                admitted == admitted_files(p, paths@),
                all_items@.len() == paths@.len(),
                forall|t: int|
                    0 <= t < paths@.len() ==> root_items_ok(
                        p,
                        paths@[t],
                        (#[trigger] all_items@[t])@,
                    ),
                output@.map_values(|l: String| l@) + fmt_parts(
                    *formatter,
                    admitted_files(p, paths@.skip(i as int)),
                    lnb,
                ).0 =~= pre + fmt_parts(fmt0, admitted, lnb).0,
                fmt_parts(*formatter, admitted_files(p, paths@.skip(i as int)), lnb).1 == fmt_parts(
                    fmt0,
                    admitted,
                    lnb,
                ).1,
                skipped@.map_values(|s: String| s@) + skipped_of(
                    admitted_files(p, paths@.skip(i as int)),
                ) =~= skipped_of(admitted),
                files_readable(admitted) == files_readable(
                    admitted_files(p, paths@.skip(i as int)),
                ),
            decreases paths@.len() - i,
        {
            let ghost rest = paths@.skip(i as int);
            let ghost adm_rest = admitted_files(p, rest);
            proof {
                assert(rest[0] == paths@[i as int]);
                assert(rest.drop_first() =~= paths@.skip(i as int + 1));
            }
            match &paths[i] {
                RootPath::File { path, content } => {
                    proof {
                        self.gen.lemma_policy_fields();
                    }
                    let admitted_here = self.should_include_file_by_extension(path.as_str()) && (
                    self.gen.include_hidden || !self.is_hidden_file(path.as_str()));
                    let ghost extra: Seq<(Seq<char>, FileContent)> = if admitted_here {
                        seq![(path@, *content)]
                    } else {
                        Seq::empty()
                    };
                    proof {
                        assert(adm_rest == extra + admitted_files(p, paths@.skip(i as int + 1)));
                        lemma_fmt_parts_append(
                            *formatter,
                            extra,
                            admitted_files(p, paths@.skip(i as int + 1)),
                            lnb,
                        );
                        lemma_files_append(extra, admitted_files(p, paths@.skip(i as int + 1)));
                    }
                    if admitted_here {
                        match content {
                            FileContent::Text(t) => {
                                let ghost out_b = output@.map_values(|l: String| l@);
                                let ghost fmt_b = *formatter;
                                let piece = formatter.format_file(
                                    path.as_str(),
                                    t.as_str(),
                                    self.line_numbers,
                                );
                                output.push(piece);
                                proof {
                                    assert(extra[0] == (path@, FileContent::Text(*t)));
                                    assert(extra.drop_first()
                                        =~= Seq::<(Seq<char>, FileContent)>::empty());
                                    assert(fmt_parts(
                                        fmt_b.after_format(),
                                        extra.drop_first(),
                                        lnb,
                                    ).0 =~= Seq::<Seq<char>>::empty());
                                    assert(fmt_parts(
                                        fmt_b.after_format(),
                                        extra.drop_first(),
                                        lnb,
                                    ).1 == fmt_b.after_format());
                                    assert(fmt_parts(fmt_b, extra, lnb).0 =~= seq![
                                        fmt_b.format_file_spec(path@, t@, lnb),
                                    ]);
                                    assert(fmt_parts(fmt_b, extra, lnb).1
                                        == fmt_b.after_format());
                                    assert(output@.map_values(|l: String| l@) =~= out_b + seq![
                                        fmt_b.format_file_spec(path@, t@, lnb),
                                    ]);
                                    assert(skipped_of(extra.drop_first())
                                        =~= Seq::<Seq<char>>::empty());
                                    assert(skipped_of(extra) =~= Seq::<Seq<char>>::empty());
                                    assert(files_readable(extra));
                                }
                            },
                            FileContent::Binary => {
                                let ghost sk_b = skipped@.map_values(|s: String| s@);
                                skipped.push(path.clone());
                                proof {
                                    assert(extra[0] == (path@, FileContent::Binary));
                                    assert(extra.drop_first()
                                        =~= Seq::<(Seq<char>, FileContent)>::empty());
                                    assert(fmt_parts(*formatter, extra.drop_first(), lnb).0
                                        =~= Seq::<Seq<char>>::empty());
                                    assert(fmt_parts(*formatter, extra.drop_first(), lnb).1
                                        == *formatter);
                                    assert(skipped_of(extra.drop_first())
                                        =~= Seq::<Seq<char>>::empty());
                                    assert(fmt_parts(*formatter, extra, lnb).0
                                        =~= Seq::<Seq<char>>::empty());
                                    assert(fmt_parts(*formatter, extra, lnb).1 == *formatter);
                                    assert(skipped@.map_values(|s: String| s@) =~= sk_b.push(
                                        path@,
                                    ));
                                    assert(skipped_of(extra) =~= seq![path@]);
                                    assert(files_readable(extra));
                                    assert(sk_b.push(path@) + skipped_of(
                                        admitted_files(p, paths@.skip(i as int + 1)),
                                    ) =~= sk_b + (seq![path@] + skipped_of(
                                        admitted_files(p, paths@.skip(i as int + 1)),
                                    )));
                                }
                            },
                            FileContent::Unreadable => {
                                proof {
                                    assert(!files_readable(extra)) by {
                                        assert(extra[0].1 matches FileContent::Unreadable);
                                    }
                                    assert(!files_readable(adm_rest));
                                    assert(!files_readable(admitted));
                                }
                                return Err(
                                    FilesToPromptError::Io { message: path.clone() },
                                );
                            },
                        }
                    }
                },
                RootPath::Dir { path, dir } => {
                    let items = &all_items[i];
                    let ghost walked = crate::walker::spec_walk_dir(p, *dir, path@, Seq::empty());
                    let ghost fitems = file_items(path@, walked);
                    proof {
                        assert(root_items_ok(p, paths@[i as int], items@));
                        assert(adm_rest == fitems + admitted_files(p, paths@.skip(i as int + 1)));
                        assert(walked.skip(0) =~= walked);
                        crate::walker::lemma_sorted_idx_valid(Seq::empty(), 0);
                    }
                    let mut j: usize = 0;
                    while j < items.len()
                        invariant
                            j <= items@.len(),
                            self.wf(),
                            p == self.policy_model(),
                            lnb == self.line_numbers_spec(),
                            pre == head_parts + toc_parts_g,
                            admitted == admitted_files(p, paths@),
                            walked.len() == items@.len(),
                            forall|t: int|
                                0 <= t < items@.len() ==> #[trigger] walked[t]
                                    == crate::walker::pair_view(items@[t]),
                            output@.map_values(|l: String| l@) + fmt_parts(
                                *formatter,
                                file_items(path@, walked.skip(j as int)) + admitted_files(
                                    p,
                                    paths@.skip(i as int + 1),
                                ),
                                lnb,
                            ).0 =~= pre + fmt_parts(fmt0, admitted, lnb).0,
                            fmt_parts(
                                *formatter,
                                file_items(path@, walked.skip(j as int)) + admitted_files(
                                    p,
                                    paths@.skip(i as int + 1),
                                ),
                                lnb,
                            ).1 == fmt_parts(fmt0, admitted, lnb).1,
                            skipped@.map_values(|s: String| s@) + skipped_of(
                                file_items(path@, walked.skip(j as int)) + admitted_files(
                                    p,
                                    paths@.skip(i as int + 1),
                                ),
                            ) =~= skipped_of(admitted),
                            files_readable(admitted) == files_readable(
                                file_items(path@, walked.skip(j as int)) + admitted_files(
                                    p,
                                    paths@.skip(i as int + 1),
                                ),
                            ),
                        decreases items@.len() - j,
                    {
                        let ghost w_rest = walked.skip(j as int);
                        proof {
                            assert(w_rest[0] == walked[j as int]);
                            assert(w_rest.drop_first() =~= walked.skip(j as int + 1));
                        }
                        match &items[j].1 {
                            WalkItemKind::File(content) => {
                                let mut full = String::from_str(path.as_str());
                                full.append("/");
                                full.append(items[j].0.as_str());
                                proof {
                                    reveal_strlit("/");
                                    assert("/"@ =~= seq!['/']);
                                    assert(full@ =~= path@ + seq!['/'] + items@[j as int].0@);
                                    assert(file_items(path@, w_rest) == seq![
                                        (full@, *content),
                                    ] + file_items(path@, walked.skip(j as int + 1)));
                                }
                                let ghost single: Seq<(Seq<char>, FileContent)> = seq![
                                    (full@, *content),
                                ];
                                let ghost next = file_items(path@, walked.skip(j as int + 1))
                                    + admitted_files(p, paths@.skip(i as int + 1));
                                proof {
                                    assert(file_items(path@, w_rest) + admitted_files(
                                        p,
                                        paths@.skip(i as int + 1),
                                    ) =~= single + next);
                                    lemma_fmt_parts_append(*formatter, single, next, lnb);
                                    lemma_files_append(single, next);
                                    assert(single.drop_first()
                                        =~= Seq::<(Seq<char>, FileContent)>::empty());
                                }
                                match content {
                                    FileContent::Text(t) => {
                                        let ghost out_b = output@.map_values(|l: String| l@);
                                        let ghost fmt_b = *formatter;
                                        let piece = formatter.format_file(
                                            full.as_str(),
                                            t.as_str(),
                                            self.line_numbers,
                                        );
                                        output.push(piece);
                                        proof {
                                            assert(single[0] == (full@, FileContent::Text(*t)));
                                            assert(fmt_parts(
                                                fmt_b.after_format(),
                                                single.drop_first(),
                                                lnb,
                                            ).0 =~= Seq::<Seq<char>>::empty());
                                            assert(fmt_parts(
                                                fmt_b.after_format(),
                                                single.drop_first(),
                                                lnb,
                                            ).1 == fmt_b.after_format());
                                            assert(fmt_parts(fmt_b, single, lnb).0 =~= seq![
                                                fmt_b.format_file_spec(full@, t@, lnb),
                                            ]);
                                            assert(fmt_parts(fmt_b, single, lnb).1
                                                == fmt_b.after_format());
                                            assert(output@.map_values(|l: String| l@) =~= out_b
                                                + seq![fmt_b.format_file_spec(full@, t@, lnb)]);
                                            assert(skipped_of(single.drop_first())
                                                =~= Seq::<Seq<char>>::empty());
                                            assert(skipped_of(single)
                                                =~= Seq::<Seq<char>>::empty());
                                            assert(files_readable(single));
                                        }
                                    },
                                    FileContent::Binary => {
                                        let ghost sk_b = skipped@.map_values(|s: String| s@);
                                        skipped.push(full);
                                        proof {
                                            assert(single[0] == (
                                                path@ + seq!['/'] + items@[j as int].0@,
                                                FileContent::Binary,
                                            ));
                                            assert(fmt_parts(
                                                *formatter,
                                                single.drop_first(),
                                                lnb,
                                            ).0 =~= Seq::<Seq<char>>::empty());
                                            assert(fmt_parts(
                                                *formatter,
                                                single.drop_first(),
                                                lnb,
                                            ).1 == *formatter);
                                            assert(skipped_of(single.drop_first())
                                                =~= Seq::<Seq<char>>::empty());
                                            assert(skipped_of(single) =~= seq![single[0].0]);
                                            assert(fmt_parts(*formatter, single, lnb).0
                                                =~= Seq::<Seq<char>>::empty());
                                            assert(fmt_parts(*formatter, single, lnb).1
                                                == *formatter);
                                            assert(skipped@.map_values(|s: String| s@)
                                                =~= sk_b.push(
                                                path@ + seq!['/'] + items@[j as int].0@,
                                            ));
                                            assert(files_readable(single));
                                            assert(sk_b.push(single[0].0) + skipped_of(next)
                                                =~= sk_b + (seq![single[0].0] + skipped_of(
                                                next,
                                            )));
                                        }
                                    },
                                    FileContent::Unreadable => {
                                        proof {
                                            assert(!files_readable(single)) by {
                                                assert(single[0].1
                                                    matches FileContent::Unreadable);
                                            }
                                            assert(!files_readable(admitted));
                                        }
                                        return Err(FilesToPromptError::Io { message: full });
                                    },
                                }
                            },
                            WalkItemKind::Dir => {
                                proof {
                                    assert(file_items(path@, w_rest) == file_items(
                                        path@,
                                        walked.skip(j as int + 1),
                                    ));
                                }
                            },
                        }
                        j = j + 1;
                    }
                    proof {
                        assert(walked.skip(j as int).len() == 0);
                        assert(file_items(path@, walked.skip(j as int))
                            =~= Seq::<(Seq<char>, FileContent)>::empty());
                        assert(file_items(path@, walked.skip(j as int)) + admitted_files(
                            p,
                            paths@.skip(i as int + 1),
                        ) =~= admitted_files(p, paths@.skip(i as int + 1)));
                    }
                },
                RootPath::Missing { .. } => {
                    proof {
                        assert(adm_rest == admitted_files(p, paths@.skip(i as int + 1)));
                    }
                },
            }
            i = i + 1;
        }
        proof {
            assert(paths@.skip(i as int).len() == 0);
            assert(admitted_files(p, paths@.skip(i as int))
                =~= Seq::<(Seq<char>, FileContent)>::empty());
            assert(files_readable(admitted));
        }
        let ghost fparts = fmt_parts(fmt0, admitted, lnb);
        proof {
            assert(fmt_parts(*formatter, admitted_files(p, paths@.skip(i as int)), lnb).1
                == *formatter);
            assert(*formatter == fparts.1);
            assert(output@.map_values(|l: String| l@) =~= pre + fparts.0);
            assert(skipped@.map_values(|s: String| s@) =~= skipped_of(admitted));
        }
        let end = formatter.end_output();
        let ghost end_v = end@;
        if end.as_str().unicode_len() > 0 {
            output.push(end);
        }
        proof {
            assert(output@.map_values(|l: String| l@) =~= pre + fparts.0 + (if end_v.len() > 0 {
                seq![end_v]
            } else {
                Seq::<Seq<char>>::empty()
            }));
            assert(pre + fparts.0 + (if end_v.len() > 0 {
                seq![end_v]
            } else {
                Seq::<Seq<char>>::empty()
            }) =~= head_parts + toc_parts_g + fparts.0 + (if end_v.len() > 0 {
                seq![end_v]
            } else {
                Seq::<Seq<char>>::empty()
            }));
        }
        let text = crate::strutil::join_lines(&output);
        Ok((text, skipped))
    }

    /// Builds the table-of-contents trees from the stored walks: one
    /// node per admitted file root, one tree per directory root.
    fn build_trees(
        &self,
        paths: &Vec<RootPath>,
        all_items: &Vec<Vec<(String, WalkItemKind)>>,
    ) -> (r: Vec<crate::tree::TreeNode>)
        requires
            self.wf(),
            all_items@.len() == paths@.len(),
            forall|t: int|
                0 <= t < paths@.len() ==> root_items_ok(
                    self.policy_model(),
                    paths@[t],
                    (#[trigger] all_items@[t])@,
                ),
        ensures
            crate::tree::TreeNode::models(r@) == crate::tree::gen_trees_spec(
                self.policy_model(),
                paths@,
            ),
    {
        let ghost p = self.policy_model();
        let mut trees: Vec<crate::tree::TreeNode> = Vec::new();
        let mut i: usize = 0;
        proof {
            assert(paths@.skip(0) =~= paths@);
            assert(crate::tree::TreeNode::models(trees@) =~= Seq::<crate::tree::NodeModel>::empty());
        }
        while i < paths.len()
            invariant
                i <= paths@.len(),
                self.wf(),
                p == self.policy_model(),
                all_items@.len() == paths@.len(),
                forall|t: int|
                    0 <= t < paths@.len() ==> root_items_ok(
                        p,
                        paths@[t],
                        (#[trigger] all_items@[t])@,
                    ),
                crate::tree::TreeNode::models(trees@) + crate::tree::gen_trees_spec(
                    p,
                    paths@.skip(i as int),
                ) =~= crate::tree::gen_trees_spec(p, paths@),
            decreases paths@.len() - i,
        {
            let ghost rest = paths@.skip(i as int);
            let ghost trees_before = crate::tree::TreeNode::models(trees@);
            proof {
                assert(rest[0] == paths@[i as int]);
                assert(rest.drop_first() =~= paths@.skip(i as int + 1));
            }
            match &paths[i] {
                RootPath::File { path, .. } => {
                    let name = crate::strutil::str_last_segment(path.as_str());
                    let hidden_ok = self.gen.include_hidden || !crate::walker::hidden_name_exec(
                        name.as_str(),
                    );
                    proof {
                        self.gen.lemma_policy_fields();
                    }
                    if self.should_include_file_by_extension(path.as_str()) && hidden_ok {
                        let node = crate::tree::TreeNode::new(name, path.clone(), true);
                        let ghost nm = node.model();
                        let ghost tv = trees@;
                        trees.push(node);
                        proof {
                            crate::tree::TreeNode::lemma_models_pointwise(tv);
                            crate::tree::TreeNode::lemma_models_pointwise(trees@);
                            assert(crate::tree::TreeNode::models(trees@) =~= trees_before.push(nm));
                        }
                    }
                },
                RootPath::Dir { path, dir } => {
                    let items = &all_items[i];
                    let ghost walked = crate::walker::spec_walk_dir(p, *dir, path@, Seq::empty());
                    proof {
                        assert(root_items_ok(p, paths@[i as int], items@));
                    }
                    let name = crate::strutil::str_last_segment(path.as_str());
                    let mut root = crate::tree::TreeNode::new(name, path.clone(), false);
                    let ghost root0 = root.model();
                    let mut j: usize = 0;
                    while j < items.len()
                        invariant
                            j <= items@.len(),
                            walked.len() == items@.len(),
                            forall|t: int|
                                0 <= t < items@.len() ==> #[trigger] walked[t]
                                    == crate::walker::pair_view(items@[t]),
                            crate::tree::build_tree_model(root.model(), walked, j as int)
                                == crate::tree::build_tree_model(root0, walked, 0),
                        decreases items@.len() - j,
                    {
                        let segs = crate::strutil::str_split_segments(items[j].0.as_str());
                        let is_file = match &items[j].1 {
                            WalkItemKind::File(_) => true,
                            WalkItemKind::Dir => false,
                        };
                        proof {
                            assert(segs@.map_values(|s: String| s@)
                                == crate::strutil::split_segments(walked[j as int].0));
                            assert(is_file == (walked[j as int].1 matches WalkItemKind::File(_)));
                        }
                        root.insert_path(&segs, 0, is_file);
                        j = j + 1;
                    }
                    proof {
                        assert(crate::tree::build_tree_model(root.model(), walked, j as int)
                            == root.model());
                        assert(root.model() == crate::tree::dir_tree_model(p, path@, *dir));
                    }
                    let ghost nm = root.model();
                    let ghost tv = trees@;
                    trees.push(root);
                    proof {
                        crate::tree::TreeNode::lemma_models_pointwise(tv);
                        crate::tree::TreeNode::lemma_models_pointwise(trees@);
                        assert(crate::tree::TreeNode::models(trees@) =~= trees_before.push(nm));
                    }
                },
                RootPath::Missing { .. } => {},
            }
            i = i + 1;
            proof {
                assert(crate::tree::TreeNode::models(trees@) + crate::tree::gen_trees_spec(
                    p,
                    paths@.skip(i as int),
                ) =~= crate::tree::gen_trees_spec(p, paths@));
            }
        }
        proof {
            assert(paths@.skip(i as int).len() == 0);
            assert(crate::tree::gen_trees_spec(p, paths@.skip(i as int))
                =~= Seq::<crate::tree::NodeModel>::empty());
            assert(crate::tree::TreeNode::models(trees@) =~= crate::tree::gen_trees_spec(
                p,
                paths@,
            ));
        }
        trees
    }
}

/// The number of bytes the binary heuristic samples.
pub const BINARY_SAMPLE_SIZE: usize = 1024;

/// A control byte that suggests binary content.
pub open spec fn suspicious_byte(b: u8) -> bool {
    (0x01 <= b <= 0x08) || b == 0x0b || (0x0e <= b <= 0x1f)
}

/// The number of suspicious bytes in a sample.
pub open spec fn count_suspicious(s: Seq<u8>) -> int
    decreases s.len(),
{
    if s.len() == 0 {
        0int
    } else {
        (if suspicious_byte(s[0]) {
            1int
        } else {
            0int
        }) + count_suspicious(s.drop_first())
    }
}

pub proof fn lemma_count_suspicious_push(s: Seq<u8>, b: u8)
    ensures
        count_suspicious(s.push(b)) == count_suspicious(s) + (if suspicious_byte(b) {
            1int
        } else {
            0int
        }),
        count_suspicious(s) >= 0,
    decreases s.len(),
{
    if s.len() == 0 {
        assert(s.push(b)[0] == b);
        assert(s.push(b).drop_first() =~= Seq::<u8>::empty());
        assert(count_suspicious(s.push(b).drop_first()) == 0);
    } else {
        lemma_count_suspicious_push(s.drop_first(), b);
        assert(s.push(b)[0] == s[0]);
        assert(s.push(b).drop_first() =~= s.drop_first().push(b));
        assert(count_suspicious(s.push(b)) == (if suspicious_byte(s[0]) {
            1int
        } else {
            0int
        }) + count_suspicious(s.drop_first().push(b)));
        assert(count_suspicious(s) == (if suspicious_byte(s[0]) {
            1int
        } else {
            0int
        }) + count_suspicious(s.drop_first()));
    }
}

/// Whether a byte sequence holds a zero byte.
pub open spec fn has_zero_byte(s: Seq<u8>) -> bool {
    exists|i: int| 0 <= i < s.len() && s[i] == 0
}

/// Whether the bytes look binary: a zero byte in the sample, or more
/// than a tenth of the sample being control bytes.
pub open spec fn is_binary_spec(bytes: Seq<u8>) -> bool {
    let sample = bytes.take(if bytes.len() < BINARY_SAMPLE_SIZE as int {
        bytes.len() as int
    } else {
        BINARY_SAMPLE_SIZE as int
    });
    if sample.len() == 0 {
        false
    } else if has_zero_byte(sample) {
        true
    } else {
        count_suspicious(sample) * 100 / sample.len() as int > 10
    }
}

impl FileProcessor {
    /// Decides whether file bytes are binary, from a bounded sample.
    #[verifier::rlimit(60)]
    pub fn is_binary(bytes: &[u8]) -> (r: bool)
        ensures
            r == is_binary_spec(bytes@),
    {
        let len = bytes.len();
        let sample_len = if len < BINARY_SAMPLE_SIZE {
            len
        } else {
            BINARY_SAMPLE_SIZE
        };
        let ghost sample = bytes@.take(sample_len as int);
        if sample_len == 0 {
            return false;
        }
        let mut suspicious: usize = 0;
        let mut has_zero = false;
        let mut i: usize = 0;
        proof {
            assert(sample.take(0) =~= Seq::<u8>::empty());
        }
        while i < sample_len
            invariant
                i <= sample_len,
                sample_len <= bytes@.len(),
                sample_len <= BINARY_SAMPLE_SIZE,
                sample == bytes@.take(sample_len as int),
                sample.len() == sample_len,
                suspicious as int == count_suspicious(sample.take(i as int)),
                suspicious <= i,
                has_zero == (exists|j: int| 0 <= j < i && sample[j] == 0),
            decreases sample_len - i,
        {
            let b = bytes[i];
            proof {
                assert(sample[i as int] == b);
                lemma_count_suspicious_push(sample.take(i as int), b);
                assert(sample.take(i as int).push(b) =~= sample.take(i + 1));
            }
            if b == 0 {
                has_zero = true;
                proof {
                    assert(sample[i as int] == 0);
                }
            }
            if (0x01 <= b && b <= 0x08) || b == 0x0b || (0x0e <= b && b <= 0x1f) {
                suspicious = suspicious + 1;
            }
            i = i + 1;
        }
        proof {
            assert(sample.take(i as int) =~= sample);
            assert(sample == bytes@.take(
                if bytes@.len() < BINARY_SAMPLE_SIZE as int {
                    bytes@.len() as int
                } else {
                    BINARY_SAMPLE_SIZE as int
                },
            ));
        }
        let verdict = if has_zero {
            true
        } else {
            suspicious * 100 / sample_len > 10
        };
        proof {
            assert(suspicious as int * 100 == count_suspicious(sample) * 100);
            assert(verdict == (if has_zero {
                true
            } else {
                count_suspicious(sample) * 100 / sample.len() as int > 10
            }));
            let sp = bytes@.take(
                if bytes@.len() < BINARY_SAMPLE_SIZE as int {
                    bytes@.len() as int
                } else {
                    BINARY_SAMPLE_SIZE as int
                },
            );
            assert(sp == sample);
            assert(sp.len() != 0);
            if has_zero {
                let w = choose|j: int| 0 <= j < i && sample[j] == 0;
                assert(sp[w] == 0);
                assert(has_zero_byte(sp));
                assert(is_binary_spec(bytes@));
            } else {
                assert(forall|j: int| 0 <= j < sp.len() ==> #[trigger] sp[j] != 0);
                assert(!has_zero_byte(sp));
                assert(is_binary_spec(bytes@) == (count_suspicious(sp) * 100 / sp.len() as int
                    > 10));
            }
            assert(is_binary_spec(bytes@) == verdict);
        }
        verdict
    }
}

} // verus!
