//! The traversal engine: walks an in-memory directory snapshot, applying
//! the selection policy at every entry, and produces the ordered sequence
//! of admitted entries. Entries within a directory are visited in
//! lexicographic order by name, whatever order the snapshot lists them in;
//! a rejected directory is pruned whole.

use vstd::prelude::*;

use crate::strutil::lex_lt;
use crate::strutil::str_lt;

verus! {

/// What a file in the snapshot holds: its text, or the marks that it is
/// binary or could not be read.
pub enum FileContent {
    Text(String),
    Binary,
    Unreadable,
}

/// One directory of the snapshot. `read_error` carries the message of a
/// failed directory listing. `extra_rules` holds the content of ignore
/// sources that apply to this directory but live outside it — at a
/// traversal root, ancestor gitignore files and repository-level and
/// global exclude files, as the application gathered them; empty when
/// there are none.
pub struct FsDir {
    pub entries: Vec<FsEntry>,
    pub read_error: Option<String>,
    pub extra_rules: String,
}

/// One entry of a directory listing.
pub enum FsEntry {
    File { name: String, content: FileContent },
    Dir { name: String, dir: FsDir },
}

/// What one admitted walk item is: a file with its content, or a
/// directory.
pub enum WalkItemKind {
    File(FileContent),
    Dir,
}

/// Copies a file's content value.
pub fn clone_content(c: &FileContent) -> (r: FileContent)
    ensures
        r == *c,
{
    match c {
        FileContent::Text(s) => FileContent::Text(s.clone()),
        FileContent::Binary => FileContent::Binary,
        FileContent::Unreadable => FileContent::Unreadable,
    }
}

/// One root path handed to the engine: a single file with its content, a
/// directory snapshot, or a path that named neither.
pub enum RootPath {
    File { path: String, content: FileContent },
    Dir { path: String, dir: FsDir },
    Missing { path: String },
}

/// The name of an entry.
pub open spec fn entry_name(e: FsEntry) -> Seq<char> {
    match e {
        FsEntry::File { name, .. } => name@,
        FsEntry::Dir { name, .. } => name@,
    }
}

/// Stable insertion of index `k` into an index list ordered by entry
/// name: `k` goes before the first index whose name is greater.
pub open spec fn ins_idx(acc: Seq<int>, entries: Seq<FsEntry>, k: int) -> Seq<int>
    decreases acc.len(),
{
    if acc.len() == 0 {
        seq![k]
    } else if lex_lt(entry_name(entries[k]), entry_name(entries[acc[0]])) {
        seq![k] + acc
    } else {
        seq![acc[0]] + ins_idx(acc.drop_first(), entries, k)
    }
}

/// The first `n` indices, sorted stably by entry name.
pub open spec fn sorted_idx_upto(entries: Seq<FsEntry>, n: int) -> Seq<int>
    decreases n,
{
    if n <= 0 {
        Seq::empty()
    } else {
        ins_idx(sorted_idx_upto(entries, n - 1), entries, n - 1)
    }
}

/// The order in which a directory's entries are visited: indices sorted
/// stably by entry name.
pub open spec fn sorted_idx(entries: Seq<FsEntry>) -> Seq<int> {
    sorted_idx_upto(entries, entries.len() as int)
}

/// Insertion at the scan position: where the first `pos` names are not
/// above the new name and the `pos`-th is, the new index lands at `pos`.
proof fn lemma_ins_idx_shape(acc: Seq<int>, entries: Seq<FsEntry>, k: int, pos: int)
    requires
        0 <= pos <= acc.len(),
        forall|j: int|
            0 <= j < pos ==> !lex_lt(entry_name(entries[k]), entry_name(entries[#[trigger] acc[j]])),
        pos < acc.len() ==> lex_lt(entry_name(entries[k]), entry_name(entries[acc[pos]])),
    ensures
        ins_idx(acc, entries, k) == acc.take(pos) + seq![k] + acc.skip(pos),
    decreases acc.len(),
{
    if acc.len() == 0 {
        assert(ins_idx(acc, entries, k) =~= acc.take(0) + seq![k] + acc.skip(0));
    } else if pos == 0 {
        assert(lex_lt(entry_name(entries[k]), entry_name(entries[acc[0]])));
        assert(ins_idx(acc, entries, k) =~= acc.take(0) + seq![k] + acc.skip(0));
    } else {
        assert(!lex_lt(entry_name(entries[k]), entry_name(entries[acc[0]])));
        let tail = acc.drop_first();
        assert(forall|j: int| 0 <= j < acc.len() - 1 ==> #[trigger] tail[j] == acc[j + 1]);
        lemma_ins_idx_shape(tail, entries, k, pos - 1);
        assert(ins_idx(acc, entries, k) =~= seq![acc[0]] + (tail.take(pos - 1) + seq![k]
            + tail.skip(pos - 1)));
        assert(seq![acc[0]] + (tail.take(pos - 1) + seq![k] + tail.skip(pos - 1)) =~= acc.take(pos)
            + seq![k] + acc.skip(pos));
    }
}

/// Every index the sort yields lies within the entry list, and each of
/// the first `n` indices appears exactly where the sort put it.
proof fn lemma_ins_idx_valid(acc: Seq<int>, entries: Seq<FsEntry>, k: int, lo: int, hi: int)
    requires
        forall|j: int| 0 <= j < acc.len() ==> lo <= #[trigger] acc[j] < hi,
        lo <= k < hi,
    ensures
        ins_idx(acc, entries, k).len() == acc.len() + 1,
        forall|j: int|
            0 <= j < ins_idx(acc, entries, k).len() ==> lo <= #[trigger] ins_idx(acc, entries, k)[j]
                < hi,
    decreases acc.len(),
{
    if acc.len() != 0 && !lex_lt(entry_name(entries[k]), entry_name(entries[acc[0]])) {
        assert(forall|j: int|
            0 <= j < acc.len() - 1 ==> #[trigger] acc.drop_first()[j] == acc[j + 1]);
        lemma_ins_idx_valid(acc.drop_first(), entries, k, lo, hi);
        let r = ins_idx(acc, entries, k);
        let rt = ins_idx(acc.drop_first(), entries, k);
        assert(forall|j: int| 1 <= j < r.len() ==> #[trigger] r[j] == rt[j - 1]);
    }
}

/// The sorted index list is a permutation-sized list of valid indices.
pub proof fn lemma_sorted_idx_valid(entries: Seq<FsEntry>, n: int)
    requires
        0 <= n <= entries.len(),
    ensures
        sorted_idx_upto(entries, n).len() == n,
        forall|j: int|
            0 <= j < n ==> 0 <= #[trigger] sorted_idx_upto(entries, n)[j] < entries.len(),
    decreases n,
{
    if n > 0 {
        lemma_sorted_idx_valid(entries, n - 1);
        lemma_ins_idx_valid(sorted_idx_upto(entries, n - 1), entries, n - 1, 0, entries.len() as int);
    }
}

/// Computes the visit order of a directory's entries: indices sorted
/// stably by entry name.
pub fn sort_entries(entries: &Vec<FsEntry>) -> (r: Vec<usize>)
    ensures
        r@.map_values(|u: usize| u as int) == sorted_idx(entries@),
        forall|j: int| 0 <= j < r@.len() ==> (#[trigger] r@[j]) < entries@.len(),
{
    let mut order: Vec<usize> = Vec::new();
    let mut k: usize = 0;
    proof {
        assert(order@.map_values(|u: usize| u as int) =~= sorted_idx_upto(entries@, 0));
    }
    while k < entries.len()
        invariant
            k <= entries@.len(),
            order@.map_values(|u: usize| u as int) == sorted_idx_upto(entries@, k as int),
            order@.len() == k,
            forall|j: int| 0 <= j < order@.len() ==> (#[trigger] order@[j]) < entries@.len(),
        decreases entries@.len() - k,
    {
        let ghost acc = order@.map_values(|u: usize| u as int);
        let name_k = entry_name_exec(&entries[k]);
        let mut pos: usize = 0;
        while pos < order.len() && !str_lt(name_k.as_str(), entry_name_exec(
            &entries[order[pos]],
        ).as_str())
            invariant
                pos <= order@.len(),
                k < entries@.len(),
                acc == order@.map_values(|u: usize| u as int),
                acc.len() == order@.len(),
                name_k@ == entry_name(entries@[k as int]),
                forall|j: int| 0 <= j < order@.len() ==> (#[trigger] order@[j]) < entries@.len(),
                forall|j: int|
                    0 <= j < pos ==> !lex_lt(
                        entry_name(entries@[k as int]),
                        entry_name(entries@[#[trigger] acc[j]]),
                    ),
            decreases order@.len() - pos,
        {
            pos = pos + 1;
        }
        proof {
            if (pos as int) < acc.len() {
                assert(lex_lt(entry_name(entries@[k as int]), entry_name(entries@[acc[pos as int]])));
            }
            lemma_ins_idx_shape(acc, entries@, k as int, pos as int);
        }
        order.insert(pos, k);
        proof {
            assert(order@.map_values(|u: usize| u as int) =~= acc.take(pos as int) + seq![k as int]
                + acc.skip(pos as int));
        }
        k = k + 1;
    }
    proof {
        assert(sorted_idx_upto(entries@, k as int) == sorted_idx(entries@));
    }
    order
}

/// The name of an entry.
pub fn entry_name_exec(e: &FsEntry) -> (r: String)
    ensures
        r@ == entry_name(*e),
{
    match e {
        FsEntry::File { name, .. } => name.clone(),
        FsEntry::Dir { name, .. } => name.clone(),
    }
}

/// The selection configuration, as the admission rules read it.
pub ghost struct PolicyModel {
    /// Extension allow-list entries; empty means no filter.
    pub exts: Seq<Seq<char>>,
    /// Whether hidden entries (leading dot) are admitted.
    pub include_hidden: bool,
    /// Whether gitignore-style rule files are honoured.
    pub respect_gitignore: bool,
    /// Custom ignore pattern texts.
    pub custom: Seq<Seq<char>>,
    /// Whether custom patterns are scoped to files only.
    pub files_only: bool,
}

/// A name beginning with a dot marks a hidden entry.
pub open spec fn hidden_name(name: Seq<char>) -> bool {
    name.len() > 0 && name[0] == '.'
}

/// A configured extension with one optional leading dot removed.
pub open spec fn strip_dot(e: Seq<char>) -> Seq<char> {
    if e.len() > 0 && e[0] == '.' {
        e.drop_first()
    } else {
        e
    }
}

/// Whether the extension filter admits a path: no filter, or the path's
/// extension equals some configured entry with its leading dot stripped.
pub open spec fn ext_admit(exts: Seq<Seq<char>>, path: Seq<char>) -> bool {
    exts.len() == 0 || (crate::strutil::extension_of(path) matches Some(e) && exists|i: int|
        0 <= i < exts.len() && strip_dot(#[trigger] exts[i]) == e)
}

/// A gitignore rule layer in force, as the specifications see it: the
/// full path of the directory that contributed it, and its rule texts.
/// Rules are tried against the entry's bare name and against its path
/// relative to the layer's directory, so a rule holding a separator
/// anchors below the directory whose ignore file stated it.
pub open spec fn layer_excludes(
    layer: (Seq<char>, Seq<Seq<char>>),
    full: Seq<char>,
    name: Seq<char>,
    is_dir: bool,
) -> bool {
    ||| crate::ignore::any_basic_match(layer.1, name, is_dir)
    ||| (layer.0.len() + 1 <= full.len() && crate::ignore::any_basic_match(
        layer.1,
        full.skip(layer.0.len() as int + 1),
        is_dir,
    ))
}

/// Whether any gitignore rule layer excludes the entry.
pub open spec fn layers_exclude(
    layers: Seq<(Seq<char>, Seq<Seq<char>>)>,
    full: Seq<char>,
    name: Seq<char>,
    is_dir: bool,
) -> bool {
    exists|i: int| 0 <= i < layers.len() && layer_excludes(#[trigger] layers[i], full, name, is_dir)
}

/// Whether a file entry is admitted: hidden-file policy, custom
/// patterns against its full path, the extension filter, and the
/// gitignore layers against its name must all let it through.
pub open spec fn admit_file(
    p: PolicyModel,
    layers: Seq<(Seq<char>, Seq<Seq<char>>)>,
    full: Seq<char>,
    name: Seq<char>,
) -> bool {
    &&& (p.include_hidden || !hidden_name(name))
    &&& !crate::ignore::custom_ignore_matches(p.custom, p.files_only, full, true)
    &&& ext_admit(p.exts, full)
    &&& !layers_exclude(layers, full, name, false)
}

/// Whether a directory entry is descended into: hidden-file policy,
/// custom patterns against its full path, and the gitignore layers
/// against its name must all let it through. Extension filters never
/// prune directories.
pub open spec fn admit_dir(
    p: PolicyModel,
    layers: Seq<(Seq<char>, Seq<Seq<char>>)>,
    full: Seq<char>,
    name: Seq<char>,
) -> bool {
    &&& (p.include_hidden || !hidden_name(name))
    &&& !crate::ignore::custom_ignore_matches(p.custom, p.files_only, full, false)
    &&& !layers_exclude(layers, full, name, true)
}

/// With no custom patterns, no gitignore layers in force, and hidden
/// entries admitted, file admission is the extension filter alone: a
/// file is admitted exactly when the filter is empty or the path's
/// extension equals some configured entry with its one optional leading
/// dot stripped.
pub proof fn lemma_admit_file_is_extension_filter(
    p: PolicyModel,
    layers: Seq<(Seq<char>, Seq<Seq<char>>)>,
    full: Seq<char>,
    name: Seq<char>,
)
    requires
        p.include_hidden,
        p.custom.len() == 0,
        layers.len() == 0,
    ensures
        admit_file(p, layers, full, name) <==> (p.exts.len() == 0 || (
        crate::strutil::extension_of(full) matches Some(e) && exists|i: int|
            0 <= i < p.exts.len() && strip_dot(#[trigger] p.exts[i]) == e)),
{
    assert(!crate::ignore::custom_ignore_matches(p.custom, p.files_only, full, true));
    assert(!layers_exclude(layers, full, name, false));
}

/// Index of the first file entry bearing the given name, or -1.
pub open spec fn find_named_file(entries: Seq<FsEntry>, fname: Seq<char>) -> int
    decreases entries.len(),
{
    if entries.len() == 0 {
        -1
    } else if entries[0] matches FsEntry::File { name, .. } && name@ == fname {
        0
    } else {
        let r = find_named_file(entries.drop_first(), fname);
        if r < 0 {
            -1
        } else {
            r + 1
        }
    }
}

/// The rule lines an ignore file of the given name contributes to its
/// directory's layer: its pattern lines, or nothing when it is absent.
pub open spec fn named_file_lines(entries: Seq<FsEntry>, fname: Seq<char>) -> Seq<Seq<char>> {
    let j = find_named_file(entries, fname);
    if j >= 0 {
        match entries[j] {
            FsEntry::File { content: FileContent::Text(t), .. } => crate::ignore::gitignore_lines(
                t@,
            ),
            _ => Seq::empty(),
        }
    } else {
        Seq::empty()
    }
}

/// Whether an ignore file of the given name, if present, can be read
/// and all its rules compile.
pub open spec fn named_file_ok(entries: Seq<FsEntry>, fname: Seq<char>) -> bool {
    let j = find_named_file(entries, fname);
    if j >= 0 {
        match entries[j] {
            FsEntry::File { content: FileContent::Text(t), .. } => crate::ignore::all_compile(
                crate::ignore::gitignore_lines(t@),
            ),
            _ => false,
        }
    } else {
        true
    }
}

/// The rule texts a directory contributes to its layer: the rules the
/// application gathered from outside sources, then the lines of its
/// `.gitignore` and `.ignore` files.
pub open spec fn dir_rule_texts(dir: FsDir) -> Seq<Seq<char>> {
    crate::ignore::gitignore_lines(dir.extra_rules@) + named_file_lines(
        dir.entries@,
        ".gitignore"@,
    ) + named_file_lines(dir.entries@, ".ignore"@)
}

/// Whether all of a directory's rule sources can be read and compile.
pub open spec fn rules_ok(dir: FsDir) -> bool {
    &&& crate::ignore::all_compile(crate::ignore::gitignore_lines(dir.extra_rules@))
    &&& named_file_ok(dir.entries@, ".gitignore"@)
    &&& named_file_ok(dir.entries@, ".ignore"@)
}

/// The gitignore layers in force inside a directory: the inherited ones
/// plus the directory's own, anchored at its path, when gitignore rules
/// are honoured.
pub open spec fn layers_within(
    p: PolicyModel,
    layers: Seq<(Seq<char>, Seq<Seq<char>>)>,
    dir: FsDir,
    base: Seq<char>,
) -> Seq<(Seq<char>, Seq<Seq<char>>)> {
    if p.respect_gitignore {
        layers.push((base, dir_rule_texts(dir)))
    } else {
        layers
    }
}

/// Each admitted path, prefixed.
pub open spec fn prefix_pairs(prefix: Seq<char>, s: Seq<(Seq<char>, WalkItemKind)>) -> Seq<
    (Seq<char>, WalkItemKind),
> {
    s.map_values(|p: (Seq<char>, WalkItemKind)| (prefix + p.0, p.1))
}

/// Whether the extension filter admits a path.
pub fn ext_admit_exec(extensions: &Vec<String>, path: &str) -> (r: bool)
    ensures
        r == ext_admit(extensions@.map_values(|s: String| s@), path@),
{
    let ghost exts = extensions@.map_values(|s: String| s@);
    if extensions.len() == 0 {
        return true;
    }
    let ext = match crate::strutil::str_extension(path) {
        Some(e) => e,
        None => {
            return false;
        },
    };
    let mut i: usize = 0;
    while i < extensions.len()
        invariant
            i <= extensions@.len(),
            exts == extensions@.map_values(|s: String| s@),
            exts.len() == extensions@.len(),
            crate::strutil::extension_of(path@) == Some(ext@),
            forall|t: int| 0 <= t < i ==> strip_dot(#[trigger] exts[t]) != ext@,
        decreases extensions@.len() - i,
    {
        let entry = &extensions[i];
        let elen = entry.as_str().unicode_len();
        let stripped = if elen > 0 && entry.as_str().get_char(0) == '.' {
            entry.as_str().substring_char(1, elen)
        } else {
            entry.as_str()
        };
        proof {
            assert(stripped@ =~= strip_dot(exts[i as int]));
        }
        if crate::strutil::str_eq(stripped, ext.as_str()) {
            return true;
        }
        i = i + 1;
    }
    false
}

/// Whether a name marks a hidden entry.
pub fn hidden_name_exec(name: &str) -> (r: bool)
    ensures
        r == hidden_name(name@),
{
    name.unicode_len() > 0 && name.get_char(0) == '.'
}

/// One compiled gitignore rule layer: the full path of the directory
/// that contributed it, and its compiled patterns.
pub struct GitignoreLayer {
    pub base: String,
    pub patterns: Vec<crate::ignore::IgnorePattern>,
}

/// The texts of a stack of compiled gitignore layers: each layer's
/// anchoring path and its rule texts.
pub open spec fn layer_texts(layers: Seq<GitignoreLayer>) -> Seq<(Seq<char>, Seq<Seq<char>>)> {
    layers.map_values(
        |l: GitignoreLayer|
            (l.base@, l.patterns@.map_values(|p: crate::ignore::IgnorePattern| p.text())),
    )
}

/// All patterns of all layers agree with their texts.
pub open spec fn layers_wf(layers: Seq<GitignoreLayer>) -> bool {
    forall|i: int, j: int|
        0 <= i < layers.len() && 0 <= j < (#[trigger] layers[i]).patterns@.len() ==> (
        #[trigger] layers[i].patterns@[j]).wf()
}

/// Whether any compiled gitignore layer excludes the entry: its rules
/// are tried against the bare name, and against the entry's path
/// relative to the layer's directory.
pub fn layers_exclude_exec(
    layers: &Vec<GitignoreLayer>,
    full: &str,
    name: &str,
    is_dir: bool,
) -> (r: bool)
    requires
        layers_wf(layers@),
    ensures
        r == layers_exclude(layer_texts(layers@), full@, name@, is_dir),
{
    let ghost lt = layer_texts(layers@);
    let full_len = full.unicode_len();
    let mut i: usize = 0;
    while i < layers.len()
        invariant
            i <= layers@.len(),
            layers_wf(layers@),
            lt == layer_texts(layers@),
            lt.len() == layers@.len(),
            full_len == full@.len(),
            forall|t: int|
                0 <= t < i ==> !layer_excludes(#[trigger] lt[t], full@, name@, is_dir),
        decreases layers@.len() - i,
    {
        if crate::ignore::patterns_basic_match(&layers[i].patterns, name, is_dir) {
            assert(layer_excludes(lt[i as int], full@, name@, is_dir));
            return true;
        }
        let base_len = layers[i].base.as_str().unicode_len();
        if base_len < full_len {
            let rel = full.substring_char(base_len + 1, full_len);
            proof {
                assert(rel@ =~= full@.skip(lt[i as int].0.len() as int + 1));
            }
            if crate::ignore::patterns_basic_match(&layers[i].patterns, rel, is_dir) {
                assert(layer_excludes(lt[i as int], full@, name@, is_dir));
                return true;
            }
        }
        assert(!layer_excludes(lt[i as int], full@, name@, is_dir));
        i = i + 1;
    }
    false
}

/// Is this entry a file bearing the given name?
pub open spec fn is_named_file(e: FsEntry, fname: Seq<char>) -> bool {
    e matches FsEntry::File { name, .. } && name@ == fname
}

/// A first occurrence determines `find_named_file`.
proof fn lemma_find_named_file_at(entries: Seq<FsEntry>, fname: Seq<char>, j: int)
    requires
        0 <= j < entries.len(),
        is_named_file(entries[j], fname),
        forall|t: int| 0 <= t < j ==> !is_named_file(#[trigger] entries[t], fname),
    ensures
        find_named_file(entries, fname) == j,
    decreases entries.len(),
{
    if !is_named_file(entries[0], fname) {
        assert(j > 0);
        assert(forall|t: int|
            0 <= t < entries.len() - 1 ==> #[trigger] entries.drop_first()[t] == entries[t + 1]);
        lemma_find_named_file_at(entries.drop_first(), fname, j - 1);
    }
}

/// Absence of a file of the given name determines `find_named_file`.
proof fn lemma_find_named_file_none(entries: Seq<FsEntry>, fname: Seq<char>)
    requires
        forall|t: int| 0 <= t < entries.len() ==> !is_named_file(#[trigger] entries[t], fname),
    ensures
        find_named_file(entries, fname) == -1,
    decreases entries.len(),
{
    if entries.len() > 0 {
        assert(forall|t: int|
            0 <= t < entries.len() - 1 ==> #[trigger] entries.drop_first()[t] == entries[t + 1]);
        lemma_find_named_file_none(entries.drop_first(), fname);
    }
}

/// Finds the directory's file entry of the given name, if any.
pub(crate) fn find_named_file_exec(entries: &Vec<FsEntry>, fname: &str) -> (r: Option<usize>)
    ensures
        r matches Some(j) ==> find_named_file(entries@, fname@) == j as int && j < entries@.len(),
        r is None ==> find_named_file(entries@, fname@) == -1,
{
    let mut i: usize = 0;
    while i < entries.len()
        invariant
            i <= entries@.len(),
            forall|t: int| 0 <= t < i ==> !is_named_file(#[trigger] entries@[t], fname@),
        decreases entries@.len() - i,
    {
        match &entries[i] {
            FsEntry::File { name, .. } => {
                if crate::strutil::str_eq(name.as_str(), fname) {
                    proof {
                        lemma_find_named_file_at(entries@, fname@, i as int);
                    }
                    return Some(i);
                }
            },
            FsEntry::Dir { .. } => {},
        }
        i = i + 1;
    }
    proof {
        lemma_find_named_file_none(entries@, fname@);
    }
    None
}

/// The view of an admitted entry as the walk's output holds it.
pub open spec fn pair_view(p: (String, WalkItemKind)) -> (Seq<char>, WalkItemKind) {
    (p.0@, p.1)
}

/// Prefixing composes.
pub proof fn lemma_prefix_pairs_compose(p1: Seq<char>, p2: Seq<char>, s: Seq<(Seq<char>, WalkItemKind)>)
    ensures
        prefix_pairs(p1, prefix_pairs(p2, s)) =~= prefix_pairs(p1 + p2, s),
{
    assert forall|i: int| 0 <= i < s.len() implies (#[trigger] prefix_pairs(
        p1,
        prefix_pairs(p2, s),
    )[i]) == prefix_pairs(p1 + p2, s)[i] by {
        assert(p1 + (p2 + s[i].0) =~= (p1 + p2) + s[i].0);
    }
}

/// The admitted entries of a directory subtree, as pairs of a path
/// relative to that directory and a file flag, in depth-first
/// lexicographic order.
pub open spec fn spec_walk_dir(
    p: PolicyModel,
    dir: FsDir,
    base: Seq<char>,
    layers: Seq<(Seq<char>, Seq<Seq<char>>)>,
) -> Seq<(Seq<char>, WalkItemKind)>
    decreases dir, 0int, 0int,
{
    proof {
        assert(decreases_to!(dir => dir.entries));
    }
    spec_walk_list(
        p,
        dir.entries@,
        sorted_idx(dir.entries@),
        base,
        layers_within(p, layers, dir, base),
    )
}

/// The admitted entries contributed by the listed entries, visited in
/// the given index order.
pub open spec fn spec_walk_list(
    p: PolicyModel,
    entries: Seq<FsEntry>,
    order: Seq<int>,
    base: Seq<char>,
    layers: Seq<(Seq<char>, Seq<Seq<char>>)>,
) -> Seq<(Seq<char>, WalkItemKind)>
    decreases entries, 1int, order.len(),
{
    if order.len() == 0 {
        Seq::empty()
    } else {
        let k = order[0];
        let rest = spec_walk_list(p, entries, order.drop_first(), base, layers);
        if 0 <= k < entries.len() {
            match entries[k] {
                FsEntry::File { name, content } => {
                    if admit_file(p, layers, base + seq!['/'] + name@, name@) {
                        seq![(name@, WalkItemKind::File(content))] + rest
                    } else {
                        rest
                    }
                },
                FsEntry::Dir { name, dir } => {
                    if admit_dir(p, layers, base + seq!['/'] + name@, name@) {
                        proof {
                            assert(decreases_to!(entries => entries[k]));
                        }
                        seq![(name@, WalkItemKind::Dir)] + prefix_pairs(
                            name@ + seq!['/'],
                            spec_walk_dir(p, dir, base + seq!['/'] + name@, layers),
                        ) + rest
                    } else {
                        rest
                    }
                },
            }
        } else {
            rest
        }
    }
}

/// Whether the walk of a directory subtree succeeds: its listing was
/// readable, its rule sources (when honoured) are readable and compile,
/// and the same holds below every admitted subdirectory.
pub open spec fn spec_walk_ok(
    p: PolicyModel,
    dir: FsDir,
    base: Seq<char>,
    layers: Seq<(Seq<char>, Seq<Seq<char>>)>,
) -> bool
    decreases dir, 0int, 0int,
{
    proof {
        assert(decreases_to!(dir => dir.entries));
    }
    &&& dir.read_error is None
    &&& (p.respect_gitignore ==> rules_ok(dir))
    &&& spec_walk_list_ok(
        p,
        dir.entries@,
        sorted_idx(dir.entries@),
        base,
        layers_within(p, layers, dir, base),
    )
}

/// Whether walking the listed entries in the given order succeeds.
pub open spec fn spec_walk_list_ok(
    p: PolicyModel,
    entries: Seq<FsEntry>,
    order: Seq<int>,
    base: Seq<char>,
    layers: Seq<(Seq<char>, Seq<Seq<char>>)>,
) -> bool
    decreases entries, 1int, order.len(),
{
    if order.len() == 0 {
        true
    } else {
        let k = order[0];
        let rest = spec_walk_list_ok(p, entries, order.drop_first(), base, layers);
        if 0 <= k < entries.len() {
            match entries[k] {
                FsEntry::Dir { name, dir } => {
                    if admit_dir(p, layers, base + seq!['/'] + name@, name@) {
                        proof {
                            assert(decreases_to!(entries => entries[k]));
                        }
                        spec_walk_ok(p, dir, base + seq!['/'] + name@, layers) && rest
                    } else {
                        rest
                    }
                },
                _ => rest,
            }
        } else {
            rest
        }
    }
}

/// What a real directory listing guarantees: entry names are unique and
/// hold no separator.
pub open spec fn entries_valid(entries: Seq<FsEntry>) -> bool {
    &&& (forall|a: int| 0 <= a < entries.len() ==> entry_name(#[trigger] entries[a]).len() > 0)
    &&& (forall|a: int, b: int|
        0 <= a < b < entries.len() ==> entry_name(#[trigger] entries[a]) != entry_name(
            #[trigger] entries[b],
        ))
    &&& (forall|a: int, j: int|
        0 <= a < entries.len() && 0 <= j < entry_name(entries[a]).len() ==> #[trigger] entry_name(
            entries[a],
        )[j] != '/')
}

/// Whether the policy admits an entry, file or directory.
pub open spec fn entry_admitted(
    p: PolicyModel,
    layers: Seq<(Seq<char>, Seq<Seq<char>>)>,
    base: Seq<char>,
    e: FsEntry,
) -> bool {
    match e {
        FsEntry::File { name, .. } => admit_file(p, layers, base + seq!['/'] + name@, name@),
        FsEntry::Dir { name, .. } => admit_dir(p, layers, base + seq!['/'] + name@, name@),
    }
}

/// A path lies at or below an admitted entry of the listing: it is an
/// admitted entry's own name, or extends an admitted directory's name by
/// a separator.
pub open spec fn below_admitted(
    p: PolicyModel,
    layers: Seq<(Seq<char>, Seq<Seq<char>>)>,
    base: Seq<char>,
    entries: Seq<FsEntry>,
    path: Seq<char>,
) -> bool {
    exists|j: int|
        0 <= j < entries.len() && entry_admitted(p, layers, base, #[trigger] entries[j]) && (path
            == entry_name(entries[j]) || (entries[j] matches FsEntry::Dir { .. }
            && crate::strutil::starts_with(path, entry_name(entries[j]) + seq!['/'])))
}

/// Every path the walk of an entry list yields lies at or below an
/// admitted entry.
proof fn lemma_walk_list_shape(
    p: PolicyModel,
    entries: Seq<FsEntry>,
    order: Seq<int>,
    base: Seq<char>,
    layers: Seq<(Seq<char>, Seq<Seq<char>>)>,
)
    ensures
        forall|t: int|
            0 <= t < spec_walk_list(p, entries, order, base, layers).len() ==> below_admitted(
                p,
                layers,
                base,
                entries,
                (#[trigger] spec_walk_list(p, entries, order, base, layers)[t]).0,
            ),
    decreases order.len(),
{
    if order.len() > 0 {
        let k = order[0];
        let w = spec_walk_list(p, entries, order, base, layers);
        let rest = spec_walk_list(p, entries, order.drop_first(), base, layers);
        lemma_walk_list_shape(p, entries, order.drop_first(), base, layers);
        assert forall|t: int| 0 <= t < w.len() implies below_admitted(
            p,
            layers,
            base,
            entries,
            (#[trigger] w[t]).0,
        ) by {
            if 0 <= k < entries.len() {
                match entries[k] {
                    FsEntry::File { name, .. } => {
                        if admit_file(p, layers, base + seq!['/'] + name@, name@) {
                            if t == 0 {
                                assert(w[0].0 == name@);
                                assert(entry_admitted(p, layers, base, entries[k]));
                                assert(below_admitted(p, layers, base, entries, w[t].0));
                            } else {
                                assert(w[t] == rest[t - 1]);
                            }
                        } else {
                            assert(w[t] == rest[t]);
                        }
                    },
                    FsEntry::Dir { name, dir } => {
                        if admit_dir(p, layers, base + seq!['/'] + name@, name@) {
                            let sub = prefix_pairs(
                                name@ + seq!['/'],
                                spec_walk_dir(p, dir, base + seq!['/'] + name@, layers),
                            );
                            if t == 0 {
                                assert(w[0].0 == name@);
                                assert(entry_admitted(p, layers, base, entries[k]));
                                assert(below_admitted(p, layers, base, entries, w[t].0));
                            } else if t <= sub.len() {
                                assert(w[t] == sub[t - 1]);
                                let inner = spec_walk_dir(
                                    p,
                                    dir,
                                    base + seq!['/'] + name@,
                                    layers,
                                );
                                assert(sub[t - 1].0 == name@ + seq!['/'] + inner[t - 1].0);
                                assert(crate::strutil::starts_with(
                                    sub[t - 1].0,
                                    entry_name(entries[k]) + seq!['/'],
                                )) by {
                                    assert((name@ + seq!['/'] + inner[t - 1].0).subrange(
                                        0,
                                        name@.len() as int + 1,
                                    ) =~= name@ + seq!['/']);
                                }
                                assert(entry_admitted(p, layers, base, entries[k]));
                                assert(below_admitted(p, layers, base, entries, w[t].0));
                            } else {
                                assert(w[t] == rest[t - 1 - sub.len()]);
                            }
                        } else {
                            assert(w[t] == rest[t]);
                        }
                    },
                }
            } else {
                assert(w[t] == rest[t]);
            }
        }
    }
}

/// Two prefixes of one string: the shorter is a prefix of the longer.
proof fn lemma_common_prefix(s: Seq<char>, p1: Seq<char>, p2: Seq<char>)
    requires
        crate::strutil::starts_with(s, p1),
        crate::strutil::starts_with(s, p2),
        p1.len() <= p2.len(),
    ensures
        crate::strutil::starts_with(p2, p1),
{
    assert(p2.subrange(0, p1.len() as int) =~= s.subrange(0, p1.len() as int));
}

/// A rejected directory is pruned whole: when some entry of the walked
/// directory is a subdirectory the policy rejects, no path of the
/// walk's output names it or anything beneath it, whatever deeper rules
/// would have said.
pub proof fn lemma_pruned_dir_absent(
    p: PolicyModel,
    dir: FsDir,
    base: Seq<char>,
    layers: Seq<(Seq<char>, Seq<Seq<char>>)>,
    k: int,
    dname: Seq<char>,
)
    requires
        entries_valid(dir.entries@),
        0 <= k < dir.entries@.len(),
        dir.entries@[k] matches FsEntry::Dir { .. },
        entry_name(dir.entries@[k]) == dname,
        !admit_dir(
            p,
            layers_within(p, layers, dir, base),
            base + seq!['/'] + dname,
            dname,
        ),
    ensures
        forall|t: int|
            0 <= t < spec_walk_dir(p, dir, base, layers).len() ==> (#[trigger] spec_walk_dir(
                p,
                dir,
                base,
                layers,
            )[t]).0 != dname && !crate::strutil::starts_with(
                spec_walk_dir(p, dir, base, layers)[t].0,
                dname + seq!['/'],
            ),
{
    let entries = dir.entries@;
    let l2 = layers_within(p, layers, dir, base);
    let w = spec_walk_dir(p, dir, base, layers);
    assert(w == spec_walk_list(p, entries, sorted_idx(entries), base, l2));
    lemma_walk_list_shape(p, entries, sorted_idx(entries), base, l2);
    assert forall|t: int| 0 <= t < w.len() implies (#[trigger] w[t]).0 != dname
        && !crate::strutil::starts_with(w[t].0, dname + seq!['/']) by {
        assert(below_admitted(p, l2, base, entries, w[t].0));
        let j = choose|j: int|
            0 <= j < entries.len() && entry_admitted(p, l2, base, #[trigger] entries[j]) && (w[t].0
                == entry_name(entries[j]) || (entries[j] matches FsEntry::Dir { .. }
                && crate::strutil::starts_with(w[t].0, entry_name(entries[j]) + seq!['/'])));
        let ename = entry_name(entries[j]);
        assert(j != k) by {
            if j == k {
                assert(entry_admitted(p, l2, base, entries[k]));
            }
        }
        assert(ename != dname);
        if w[t].0 == ename {
            assert(w[t].0 != dname);
            if crate::strutil::starts_with(w[t].0, dname + seq!['/']) {
                // the entry's own name would then hold a separator
                assert(ename.subrange(0, dname.len() as int + 1) == dname + seq!['/']);
                assert(ename[dname.len() as int] == (dname + seq!['/'])[dname.len() as int]);
                assert(ename[dname.len() as int] == '/');
                assert(false);
            }
        } else {
            assert(crate::strutil::starts_with(w[t].0, ename + seq!['/']));
            if w[t].0 == dname {
                // dname would then hold a separator
                assert(dname.subrange(0, ename.len() as int + 1) == ename + seq!['/']);
                assert(dname[ename.len() as int] == dname.subrange(
                    0,
                    ename.len() as int + 1,
                )[ename.len() as int]);
                assert(dname[ename.len() as int] == (ename + seq!['/'])[ename.len() as int]);
                assert(entry_name(entries[k])[ename.len() as int] == '/');
                assert(false);
            }
            if crate::strutil::starts_with(w[t].0, dname + seq!['/']) {
                if dname.len() == ename.len() {
                    lemma_common_prefix(w[t].0, dname + seq!['/'], ename + seq!['/']);
                    assert((ename + seq!['/']).subrange(0, dname.len() as int + 1) =~= ename
                        + seq!['/']);
                    assert(dname + seq!['/'] == ename + seq!['/']);
                    assert((dname + seq!['/']).drop_last() =~= dname);
                    assert((ename + seq!['/']).drop_last() =~= ename);
                    assert(dname == ename);
                    assert(false);
                } else if dname.len() < ename.len() {
                    lemma_common_prefix(w[t].0, dname + seq!['/'], ename + seq!['/']);
                    assert((ename + seq!['/']).subrange(0, dname.len() as int + 1) == dname
                        + seq!['/']);
                    assert((ename + seq!['/'])[dname.len() as int] == '/');
                    assert(ename[dname.len() as int] == '/');
                    assert(false);
                } else {
                    lemma_common_prefix(w[t].0, ename + seq!['/'], dname + seq!['/']);
                    assert((dname + seq!['/']).subrange(0, ename.len() as int + 1) == ename
                        + seq!['/']);
                    assert((dname + seq!['/'])[ename.len() as int] == '/');
                    assert(dname[ename.len() as int] == '/');
                    assert(entry_name(entries[k])[ename.len() as int] == '/');
                    assert(false);
                }
            }
        }
    }
}

/// Every path a valid directory's walk yields is non-empty and does not
/// open with a separator: it opens with some entry's name.
pub proof fn lemma_walk_paths_open_with_names(
    p: PolicyModel,
    dir: FsDir,
    base: Seq<char>,
    layers: Seq<(Seq<char>, Seq<Seq<char>>)>,
)
    requires
        entries_valid(dir.entries@),
    ensures
        forall|t: int|
            0 <= t < spec_walk_dir(p, dir, base, layers).len() ==> (#[trigger] spec_walk_dir(
                p,
                dir,
                base,
                layers,
            )[t]).0.len() > 0 && spec_walk_dir(p, dir, base, layers)[t].0[0] != '/',
{
    let entries = dir.entries@;
    let l2 = layers_within(p, layers, dir, base);
    let w = spec_walk_dir(p, dir, base, layers);
    assert(w == spec_walk_list(p, entries, sorted_idx(entries), base, l2));
    lemma_walk_list_shape(p, entries, sorted_idx(entries), base, l2);
    assert forall|t: int| 0 <= t < w.len() implies (#[trigger] w[t]).0.len() > 0 && w[t].0[0]
        != '/' by {
        assert(below_admitted(p, l2, base, entries, w[t].0));
        let j = choose|j: int|
            0 <= j < entries.len() && entry_admitted(p, l2, base, #[trigger] entries[j]) && (w[t].0
                == entry_name(entries[j]) || (entries[j] matches FsEntry::Dir { .. }
                && crate::strutil::starts_with(w[t].0, entry_name(entries[j]) + seq!['/'])));
        let ename = entry_name(entries[j]);
        assert(ename.len() > 0);
        assert(ename[0] != '/');
        if w[t].0 == ename {
        } else {
            assert(crate::strutil::starts_with(w[t].0, ename + seq!['/']));
            assert(w[t].0.subrange(0, ename.len() as int + 1) == ename + seq!['/']);
            assert(w[t].0[0] == w[t].0.subrange(0, ename.len() as int + 1)[0]);
            assert(w[t].0[0] == ename[0]);
        }
    }
}

/// `find_named_file` lands on a file entry of the given name.
pub proof fn lemma_find_named_file_props(entries: Seq<FsEntry>, fname: Seq<char>)
    ensures
        find_named_file(entries, fname) >= 0 ==> 0 <= find_named_file(entries, fname)
            < entries.len() && is_named_file(entries[find_named_file(entries, fname)], fname),
    decreases entries.len(),
{
    if entries.len() > 0 && !is_named_file(entries[0], fname) {
        lemma_find_named_file_props(entries.drop_first(), fname);
    }
}


} // verus!
