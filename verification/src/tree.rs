//! Tree generation for directory structure visualization.
//!
//! A `TreeNode` represents one filesystem entry in a rendered tree; its
//! children are kept sorted by name so that iteration is deterministic and
//! lexicographic. Every operation is specified against `NodeModel`, the
//! mathematical image of a node.

use vstd::prelude::*;

use crate::strutil::lemma_lex_lt_transitive;
use crate::strutil::lemma_lex_lt_trichotomy;
use crate::strutil::lex_lt;
use crate::strutil::str_eq;
use crate::strutil::str_lt;
use vstd::pervasive::VecAdditionalExecFns;

verus! {

/// Mathematical model of a tree node.
#[verifier::ext_equal]
pub ghost struct NodeModel {
    pub name: Seq<char>,
    pub path: Seq<char>,
    pub is_file: bool,
    pub children: Seq<NodeModel>,
}

/// Represents a node in the directory tree.
pub struct TreeNode {
    pub name: String,
    pub path: String,
    pub is_file: bool,
    pub children: Vec<TreeNode>,
}

impl TreeNode {
    /// The mathematical image of this node.
    pub open spec fn model(self) -> NodeModel
        decreases self,
    {
        NodeModel {
            name: self.name@,
            path: self.path@,
            is_file: self.is_file,
            children: Self::models(self.children@),
        }
    }

    /// The images of a sequence of nodes.
    pub open spec fn models(nodes: Seq<TreeNode>) -> Seq<NodeModel>
        decreases nodes,
    {
        if nodes.len() == 0 {
            Seq::empty()
        } else {
            seq![nodes[0].model()] + Self::models(nodes.drop_first())
        }
    }

    /// Indexing into `models` is the model of the indexed node.
    pub proof fn lemma_models_index(nodes: Seq<TreeNode>, i: int)
        requires
            0 <= i < nodes.len(),
        ensures
            Self::models(nodes).len() == nodes.len(),
            Self::models(nodes)[i] == nodes[i].model(),
        decreases nodes.len(),
    {
        Self::lemma_models_len(nodes);
        if i > 0 {
            Self::lemma_models_index(nodes.drop_first(), i - 1);
        }
    }

    /// `models` preserves length.
    pub proof fn lemma_models_len(nodes: Seq<TreeNode>)
        ensures
            Self::models(nodes).len() == nodes.len(),
        decreases nodes.len(),
    {
        if nodes.len() > 0 {
            Self::lemma_models_len(nodes.drop_first());
        }
    }

    /// `models` maps each node to its model, pointwise.
    pub proof fn lemma_models_pointwise(nodes: Seq<TreeNode>)
        ensures
            Self::models(nodes).len() == nodes.len(),
            forall|i: int|
                0 <= i < nodes.len() ==> #[trigger] Self::models(nodes)[i] == nodes[i].model(),
    {
        Self::lemma_models_len(nodes);
        assert forall|i: int| 0 <= i < nodes.len() implies #[trigger] Self::models(nodes)[i]
            == nodes[i].model() by {
            Self::lemma_models_index(nodes, i);
        }
    }
}

/// Children are strictly sorted by name.
pub open spec fn sorted_by_name(cs: Seq<NodeModel>) -> bool {
    forall|i: int, j: int|
        0 <= i < j < cs.len() ==> lex_lt(#[trigger] cs[i].name, #[trigger] cs[j].name)
}

/// A file node has no children; children are strictly sorted by name, so
/// names are unique and iteration order is deterministic.
pub open spec fn node_wf(n: NodeModel) -> bool
    decreases n,
{
    &&& (n.is_file ==> n.children.len() == 0)
    &&& sorted_by_name(n.children)
    &&& (forall|i: int| 0 <= i < n.children.len() ==> node_wf(#[trigger] n.children[i]))
}

impl TreeNode {
    /// Creates a leaf node.
    pub fn new(name: String, path: String, is_file: bool) -> (r: TreeNode)
        ensures
            r.model() == (NodeModel {
                name: name@,
                path: path@,
                is_file,
                children: Seq::<NodeModel>::empty(),
            }),
            node_wf(r.model()),
    {
        let r = TreeNode { name, path, is_file, children: Vec::new() };
        proof {
            assert(Self::models(r.children@) =~= Seq::<NodeModel>::empty());
        }
        r
    }
}

/// Sorted insertion of a child, replacing an existing child of the same
/// name, as a map keyed by name would.
pub open spec fn insert_child(cs: Seq<NodeModel>, c: NodeModel) -> Seq<NodeModel>
    decreases cs.len(),
{
    if cs.len() == 0 {
        seq![c]
    } else if lex_lt(c.name, cs[0].name) {
        seq![c] + cs
    } else if c.name == cs[0].name {
        seq![c] + cs.drop_first()
    } else {
        seq![cs[0]] + insert_child(cs.drop_first(), c)
    }
}

/// Where the first `k` names are below `c.name` and the `k`-th is not,
/// insertion lands exactly at position `k`, replacing a child of equal name.
pub proof fn lemma_insert_child_shape(cs: Seq<NodeModel>, c: NodeModel, k: int)
    requires
        0 <= k <= cs.len(),
        forall|i: int| 0 <= i < k ==> lex_lt(#[trigger] cs[i].name, c.name),
        k < cs.len() ==> !lex_lt(cs[k].name, c.name),
    ensures
        (k < cs.len() && cs[k].name == c.name) ==> insert_child(cs, c) == cs.take(k) + seq![c]
            + cs.skip(k + 1),
        !(k < cs.len() && cs[k].name == c.name) ==> insert_child(cs, c) == cs.take(k) + seq![c]
            + cs.skip(k),
    decreases cs.len(),
{
    if cs.len() == 0 {
        assert(insert_child(cs, c) =~= cs.take(0) + seq![c] + cs.skip(0));
    } else if k == 0 {
        lemma_lex_lt_trichotomy(c.name, cs[0].name);
        if cs[0].name == c.name {
            assert(insert_child(cs, c) =~= cs.take(0) + seq![c] + cs.skip(1));
        } else {
            assert(lex_lt(c.name, cs[0].name));
            assert(insert_child(cs, c) =~= cs.take(0) + seq![c] + cs.skip(0));
        }
    } else {
        lemma_lex_lt_trichotomy(c.name, cs[0].name);
        assert(lex_lt(cs[0].name, c.name));
        assert(!lex_lt(c.name, cs[0].name) && c.name != cs[0].name);
        let tail = cs.drop_first();
        assert(forall|i: int| 0 <= i < k - 1 ==> lex_lt(#[trigger] tail[i].name, c.name));
        lemma_insert_child_shape(tail, c, k - 1);
        if k < cs.len() && cs[k].name == c.name {
            assert(insert_child(cs, c) =~= seq![cs[0]] + (tail.take(k - 1) + seq![c] + tail.skip(
                k,
            )));
            assert(seq![cs[0]] + (tail.take(k - 1) + seq![c] + tail.skip(k)) =~= cs.take(k)
                + seq![c] + cs.skip(k + 1));
        } else {
            assert(insert_child(cs, c) =~= seq![cs[0]] + (tail.take(k - 1) + seq![c] + tail.skip(
                k - 1,
            )));
            assert(seq![cs[0]] + (tail.take(k - 1) + seq![c] + tail.skip(k - 1)) =~= cs.take(k)
                + seq![c] + cs.skip(k));
        }
    }
}

/// Every element of the insertion result is the new child or an old one.
proof fn lemma_insert_child_elems(cs: Seq<NodeModel>, c: NodeModel)
    ensures
        insert_child(cs, c).len() >= 1,
        forall|t: int|
            0 <= t < insert_child(cs, c).len() ==> (#[trigger] insert_child(cs, c)[t] == c
                || cs.contains(insert_child(cs, c)[t])),
    decreases cs.len(),
{
    if cs.len() == 0 {
    } else if lex_lt(c.name, cs[0].name) {
    } else if c.name == cs[0].name {
        assert(forall|t: int|
            1 <= t < insert_child(cs, c).len() ==> #[trigger] insert_child(cs, c)[t]
                == cs.drop_first()[t - 1]);
        assert(forall|j: int| 0 <= j < cs.len() - 1 ==> cs.contains(#[trigger] cs.drop_first()[j]));
    } else {
        lemma_insert_child_elems(cs.drop_first(), c);
        let r = insert_child(cs, c);
        assert(forall|t: int|
            1 <= t < r.len() ==> #[trigger] r[t] == insert_child(cs.drop_first(), c)[t - 1]);
        assert(forall|j: int| 0 <= j < cs.len() - 1 ==> cs.contains(#[trigger] cs.drop_first()[j]));
        assert(cs.contains(r[0]));
    }
}

/// Insertion keeps the children sorted and well-formed.
pub proof fn lemma_insert_child_wf(cs: Seq<NodeModel>, c: NodeModel)
    requires
        sorted_by_name(cs),
        forall|i: int| 0 <= i < cs.len() ==> node_wf(#[trigger] cs[i]),
        node_wf(c),
    ensures
        sorted_by_name(insert_child(cs, c)),
        forall|i: int|
            0 <= i < insert_child(cs, c).len() ==> node_wf(#[trigger] insert_child(cs, c)[i]),
    decreases cs.len(),
{
    let r = insert_child(cs, c);
    if cs.len() == 0 {
    } else if lex_lt(c.name, cs[0].name) {
        assert forall|i: int, j: int| 0 <= i < j < r.len() implies lex_lt(
            #[trigger] r[i].name,
            #[trigger] r[j].name,
        ) by {
            if i == 0 {
                if j > 1 {
                    lemma_lex_lt_transitive(c.name, cs[0].name, cs[j - 1].name);
                }
            }
        }
    } else if c.name == cs[0].name {
        assert forall|i: int, j: int| 0 <= i < j < r.len() implies lex_lt(
            #[trigger] r[i].name,
            #[trigger] r[j].name,
        ) by {
            assert(r[j] == cs.drop_first()[j - 1]);
            if i > 0 {
                assert(r[i] == cs.drop_first()[i - 1]);
            }
        }
    } else {
        lemma_lex_lt_trichotomy(c.name, cs[0].name);
        assert(lex_lt(cs[0].name, c.name));
        let tail = cs.drop_first();
        lemma_insert_child_wf(tail, c);
        lemma_insert_child_elems(tail, c);
        let rt = insert_child(tail, c);
        assert forall|i: int, j: int| 0 <= i < j < r.len() implies lex_lt(
            #[trigger] r[i].name,
            #[trigger] r[j].name,
        ) by {
            if i == 0 {
                assert(r[j] == rt[j - 1]);
                if rt[j - 1] == c {
                } else {
                    assert(tail.contains(rt[j - 1]));
                    let w = choose|w: int| 0 <= w < tail.len() && tail[w] == rt[j - 1];
                    assert(lex_lt(cs[0].name, tail[w].name));
                }
            } else {
                assert(r[i] == rt[i - 1] && r[j] == rt[j - 1]);
            }
        }
        assert forall|i: int| 0 <= i < r.len() implies node_wf(#[trigger] r[i]) by {
            if i > 0 {
                assert(r[i] == rt[i - 1]);
            }
        }
    }
}

impl TreeNode {
    /// Add a child node to this node, keeping children sorted by name;
    /// a child of the same name is replaced.
    pub fn add_child(&mut self, child: TreeNode)
        requires
            node_wf(old(self).model()),
            node_wf(child.model()),
            !old(self).is_file,
        ensures
            final(self).name == old(self).name,
            final(self).path == old(self).path,
            final(self).is_file == old(self).is_file,
            final(self).model().children == insert_child(
                old(self).model().children,
                child.model(),
            ),
            node_wf(final(self).model()),
    {
        let ghost old_children = self.children@;
        let ghost old_cs = Self::models(old_children);
        let ghost cm = child.model();
        proof {
            Self::lemma_models_pointwise(old_children);
        }
        let mut k: usize = 0;
        while k < self.children.len() && str_lt(self.children[k].name.as_str(),
            child.name.as_str())
            invariant
                k <= self.children@.len(),
                self.children@ == old_children,
                forall|i: int| 0 <= i < k ==> lex_lt(#[trigger] old_children[i].name@, child.name@),
            decreases self.children@.len() - k,
        {
            k = k + 1;
        }
        proof {
            assert(forall|i: int| 0 <= i < k ==> lex_lt(#[trigger] old_cs[i].name, cm.name));
            if (k as int) < old_cs.len() {
                assert(!lex_lt(old_cs[k as int].name, cm.name));
            }
            lemma_insert_child_shape(old_cs, cm, k as int);
        }
        let replace = k < self.children.len() && str_eq(
            self.children[k].name.as_str(),
            child.name.as_str(),
        );
        if replace {
            self.children.set(k, child);
            proof {
                Self::lemma_models_pointwise(self.children@);
                assert(Self::models(self.children@) =~= old_cs.take(k as int) + seq![cm]
                    + old_cs.skip(k as int + 1));
            }
        } else {
            self.children.insert(k, child);
            proof {
                Self::lemma_models_pointwise(self.children@);
                assert(Self::models(self.children@) =~= old_cs.take(k as int) + seq![cm]
                    + old_cs.skip(k as int));
            }
        }
        proof {
            lemma_insert_child_wf(old_cs, cm);
        }
    }
}

/// Index of the first child named `name`, or -1 when there is none.
pub open spec fn find_child(cs: Seq<NodeModel>, name: Seq<char>) -> int
    decreases cs.len(),
{
    if cs.len() == 0 {
        -1
    } else if cs[0].name == name {
        0
    } else {
        let r = find_child(cs.drop_first(), name);
        if r < 0 {
            -1
        } else {
            r + 1
        }
    }
}

/// `find_child` returns the first index bearing the name, or -1.
pub proof fn lemma_find_child_props(cs: Seq<NodeModel>, name: Seq<char>)
    ensures
        -1 <= find_child(cs, name) < cs.len(),
        find_child(cs, name) >= 0 ==> cs[find_child(cs, name)].name == name,
        forall|t: int|
            0 <= t < cs.len() && (find_child(cs, name) < 0 || t < find_child(cs, name))
                ==> (#[trigger] cs[t]).name != name,
    decreases cs.len(),
{
    if cs.len() > 0 && cs[0].name != name {
        lemma_find_child_props(cs.drop_first(), name);
        assert(forall|t: int| 1 <= t < cs.len() ==> #[trigger] cs[t] == cs.drop_first()[t - 1]);
    }
}

/// A first occurrence determines `find_child`.
pub proof fn lemma_find_child_at(cs: Seq<NodeModel>, name: Seq<char>, j: int)
    requires
        0 <= j < cs.len(),
        cs[j].name == name,
        forall|t: int| 0 <= t < j ==> (#[trigger] cs[t]).name != name,
    ensures
        find_child(cs, name) == j,
    decreases cs.len(),
{
    if cs[0].name != name {
        assert(j > 0);
        assert(forall|t: int| 0 <= t < cs.len() - 1 ==> #[trigger] cs.drop_first()[t] == cs[t + 1]);
        lemma_find_child_at(cs.drop_first(), name, j - 1);
    }
}

/// Absence of the name determines `find_child`.
pub proof fn lemma_find_child_none(cs: Seq<NodeModel>, name: Seq<char>)
    requires
        forall|t: int| 0 <= t < cs.len() ==> (#[trigger] cs[t]).name != name,
    ensures
        find_child(cs, name) == -1,
    decreases cs.len(),
{
    if cs.len() > 0 {
        assert(forall|t: int| 0 <= t < cs.len() - 1 ==> #[trigger] cs.drop_first()[t] == cs[t + 1]);
        lemma_find_child_none(cs.drop_first(), name);
    }
}

/// A node freshly created for one path segment.
pub open spec fn fresh_node(parent_path: Seq<char>, name: Seq<char>, is_file: bool) -> NodeModel {
    NodeModel { name, path: parent_path + seq!['/'] + name, is_file, children: Seq::empty() }
}

/// Inserting the path `segs[i..]` below `n`: walks existing children by
/// segment name, creating intermediate directory nodes as needed; only the
/// final segment is marked with `is_file`. An existing node is descended
/// into in place and keeps its own name, path and kind.
pub open spec fn insert_path_model(
    n: NodeModel,
    segs: Seq<Seq<char>>,
    i: int,
    is_file: bool,
) -> NodeModel
    decreases segs.len() - i,
{
    if i < 0 || i >= segs.len() {
        n
    } else {
        let name = segs[i];
        let j = find_child(n.children, name);
        if j >= 0 {
            let sub = insert_path_model(n.children[j], segs, i + 1, is_file);
            NodeModel { children: n.children.update(j, sub), ..n }
        } else {
            let fresh = fresh_node(n.path, name, i == segs.len() - 1 && is_file);
            let sub = insert_path_model(fresh, segs, i + 1, is_file);
            NodeModel { children: insert_child(n.children, sub), ..n }
        }
    }
}

/// Insertion never changes a node's own name, path or kind.
pub proof fn lemma_insert_path_heads(n: NodeModel, segs: Seq<Seq<char>>, i: int, is_file: bool)
    ensures
        insert_path_model(n, segs, i, is_file).name == n.name,
        insert_path_model(n, segs, i, is_file).path == n.path,
        insert_path_model(n, segs, i, is_file).is_file == n.is_file,
{
}

/// After inserting `c`, a child named `c.name` is found exactly where `c`
/// was put, provided no other child bears that name.
proof fn lemma_find_after_insert(cs: Seq<NodeModel>, c: NodeModel)
    requires
        forall|t: int| 0 <= t < cs.len() ==> (#[trigger] cs[t]).name != c.name,
    ensures
        0 <= find_child(insert_child(cs, c), c.name) < insert_child(cs, c).len(),
        insert_child(cs, c)[find_child(insert_child(cs, c), c.name)] == c,
    decreases cs.len(),
{
    let r = insert_child(cs, c);
    if cs.len() == 0 {
        assert(r[0] == c);
        assert(find_child(r, c.name) == 0);
    } else if lex_lt(c.name, cs[0].name) {
        assert(r[0] == c);
        assert(find_child(r, c.name) == 0);
    } else if c.name == cs[0].name {
        assert(false);
    } else {
        assert(forall|t: int| 0 <= t < cs.len() - 1 ==> #[trigger] cs.drop_first()[t] == cs[t + 1]);
        lemma_find_after_insert(cs.drop_first(), c);
        let rt = insert_child(cs.drop_first(), c);
        assert(r.drop_first() =~= rt);
        assert(r[0] == cs[0]);
        assert(r[0].name != c.name);
        let ft = find_child(rt, c.name);
        assert(find_child(r, c.name) == ft + 1);
        assert(r[ft + 1] == rt[ft]);
    }
}

/// Inserting a child twice with the same name is the same as inserting it
/// once and replacing.
proof fn lemma_insert_child_again(cs: Seq<NodeModel>, c1: NodeModel, c2: NodeModel)
    requires
        c1.name == c2.name,
    ensures
        insert_child(insert_child(cs, c1), c2) =~= insert_child(cs, c2),
    decreases cs.len(),
{
    let r1 = insert_child(cs, c1);
    lemma_lex_lt_trichotomy(c2.name, c1.name);
    if cs.len() == 0 {
        assert(r1[0] == c1);
        assert(!lex_lt(c2.name, r1[0].name));
        assert(insert_child(r1, c2) =~= seq![c2]);
    } else if lex_lt(c1.name, cs[0].name) {
        assert(r1[0] == c1);
        assert(insert_child(r1, c2) =~= seq![c2] + r1.drop_first());
        assert(r1.drop_first() =~= cs);
    } else if c1.name == cs[0].name {
        assert(r1[0] == c1);
        assert(insert_child(r1, c2) =~= seq![c2] + r1.drop_first());
        assert(r1.drop_first() =~= cs.drop_first());
    } else {
        lemma_insert_child_again(cs.drop_first(), c1, c2);
        assert(r1[0] == cs[0]);
        assert(r1.drop_first() =~= insert_child(cs.drop_first(), c1));
        assert(insert_child(r1, c2) =~= seq![cs[0]] + insert_child(
            insert_child(cs.drop_first(), c1),
            c2,
        ));
        assert(insert_child(cs, c2) =~= seq![cs[0]] + insert_child(cs.drop_first(), c2));
    }
}

/// Inserting the same path twice yields the same tree as inserting it
/// once: node lookup goes by segment name, not by insertion event.
pub proof fn lemma_insert_path_idempotent(n: NodeModel, segs: Seq<Seq<char>>, i: int, is_file: bool)
    ensures
        insert_path_model(insert_path_model(n, segs, i, is_file), segs, i, is_file)
            == insert_path_model(n, segs, i, is_file),
    decreases segs.len() - i,
{
    if 0 <= i < segs.len() {
        let name = segs[i];
        let cs = n.children;
        let j = find_child(cs, name);
        lemma_find_child_props(cs, name);
        let m1 = insert_path_model(n, segs, i, is_file);
        if j >= 0 {
            let sub = insert_path_model(cs[j], segs, i + 1, is_file);
            lemma_insert_path_heads(cs[j], segs, i + 1, is_file);
            assert(m1.children == cs.update(j, sub));
            assert(forall|t: int| 0 <= t < j ==> (#[trigger] m1.children[t]).name != name);
            assert(m1.children[j].name == name);
            lemma_find_child_at(m1.children, name, j);
            lemma_insert_path_idempotent(cs[j], segs, i + 1, is_file);
            let m2 = insert_path_model(m1, segs, i, is_file);
            assert(m2.children == m1.children.update(j, sub));
            assert(m1.children.update(j, sub) =~= m1.children);
            assert(m2 =~= m1);
        } else {
            let fresh = fresh_node(n.path, name, i == segs.len() - 1 && is_file);
            let sub = insert_path_model(fresh, segs, i + 1, is_file);
            lemma_insert_path_heads(fresh, segs, i + 1, is_file);
            assert(m1.children == insert_child(cs, sub));
            lemma_find_after_insert(cs, sub);
            let f2 = find_child(m1.children, name);
            assert(m1.children[f2] == sub);
            lemma_insert_path_idempotent(fresh, segs, i + 1, is_file);
            let sub2 = insert_path_model(sub, segs, i + 1, is_file);
            assert(sub2 == sub);
            let m2 = insert_path_model(m1, segs, i, is_file);
            assert(m2.children == m1.children.update(f2, sub));
            assert(m1.children.update(f2, sub) =~= m1.children);
            assert(m2 =~= m1);
        }
    }
}

impl TreeNode {
    /// Inserts the path `segs[i..]` below this node, creating intermediate
    /// directory nodes as needed; the final segment is marked per
    /// `is_file`. Idempotent: see `lemma_insert_path_idempotent`.
    pub fn insert_path(&mut self, segs: &Vec<String>, i: usize, is_file: bool)
        requires
            i <= segs@.len(),
        ensures
            final(self).model() == insert_path_model(
                old(self).model(),
                segs@.map_values(|s: String| s@),
                i as int,
                is_file,
            ),
        decreases segs@.len() - i,
    {
        let ghost gsegs = segs@.map_values(|s: String| s@);
        if i >= segs.len() {
            return ;
        }
        let ghost n0 = self.model();
        let ghost cs = n0.children;
        let ghost name = gsegs[i as int];
        proof {
            Self::lemma_models_pointwise(self.children@);
            lemma_find_child_props(cs, name);
        }
        // look for an existing child bearing this segment's name
        let mut j: usize = 0;
        let mut found = false;
        while !found && j < self.children.len()
            invariant
                j <= self.children@.len(),
                i < segs@.len(),
                cs == TreeNode::models(self.children@),
                cs.len() == self.children@.len(),
                name == segs@.map_values(|s: String| s@)[i as int],
                forall|t: int| 0 <= t < cs.len() ==> #[trigger] cs[t] == self.children@[t].model(),
                forall|t: int| 0 <= t < j ==> (#[trigger] cs[t]).name != name,
                found ==> j < cs.len() && cs[j as int].name == name,
            decreases self.children@.len() - j + (if found {
                0int
            } else {
                1int
            }),
        {
            if crate::strutil::str_eq(self.children[j].name.as_str(), segs[i].as_str()) {
                found = true;
            } else {
                j = j + 1;
            }
        }
        if found {
            proof {
                lemma_find_child_at(cs, name, j as int);
            }
            let mut base = self.children.remove(j);
            base.insert_path(segs, i + 1, is_file);
            self.children.insert(j, base);
            proof {
                Self::lemma_models_pointwise(self.children@);
                let sub = insert_path_model(cs[j as int], gsegs, i + 1, is_file);
                assert(Self::models(self.children@) =~= cs.update(j as int, sub));
                assert(self.model() =~= insert_path_model(n0, gsegs, i as int, is_file));
            }
        } else {
            proof {
                lemma_find_child_none(cs, name);
            }
            let node_is_file = i + 1 == segs.len() && is_file;
            let mut p = String::new();
            p.append(self.path.as_str());
            p.append("/");
            p.append(segs[i].as_str());
            proof {
                reveal_strlit("/");
                assert("/"@ =~= seq!['/']);
            }
            let mut base = TreeNode::new(segs[i].clone(), p, node_is_file);
            proof {
                assert(base.model() =~= fresh_node(n0.path, name, i as int == gsegs.len() - 1
                    && is_file));
            }
            base.insert_path(segs, i + 1, is_file);
            // place the new subtree at its sorted position
            let ghost fresh = fresh_node(n0.path, name, i as int == gsegs.len() - 1 && is_file);
            let ghost sub = insert_path_model(fresh, gsegs, i + 1, is_file);
            proof {
                lemma_insert_path_heads(fresh, gsegs, i + 1, is_file);
                assert(base.model() == sub);
            }
            let mut k: usize = 0;
            while k < self.children.len() && str_lt(self.children[k].name.as_str(),
                base.name.as_str())
                invariant
                    k <= self.children@.len(),
                    cs == TreeNode::models(self.children@),
                    cs.len() == self.children@.len(),
                    forall|t: int|
                        0 <= t < cs.len() ==> #[trigger] cs[t] == self.children@[t].model(),
                    base.model() == sub,
                    forall|t: int| 0 <= t < k ==> lex_lt((#[trigger] cs[t]).name, sub.name),
                decreases self.children@.len() - k,
            {
                k = k + 1;
            }
            proof {
                if (k as int) < cs.len() {
                    assert(!lex_lt(cs[k as int].name, sub.name));
                    lemma_lex_lt_trichotomy(sub.name, cs[k as int].name);
                    assert(cs[k as int].name != sub.name);
                    assert(lex_lt(sub.name, cs[k as int].name));
                }
                lemma_insert_child_shape(cs, sub, k as int);
            }
            self.children.insert(k, base);
            proof {
                Self::lemma_models_pointwise(self.children@);
                assert(Self::models(self.children@) =~= cs.take(k as int) + seq![sub] + cs.skip(
                    k as int,
                ));
                assert(Self::models(self.children@) == insert_child(cs, sub));
                assert(self.model() =~= insert_path_model(n0, gsegs, i as int, is_file));
            }
        }
    }
}

/// An integer capped at `usize::MAX`, the value a saturating count returns.
pub open spec fn clamp_usize(n: int) -> int {
    if n > usize::MAX {
        usize::MAX as int
    } else {
        n
    }
}

/// Number of nodes in the tree rooted at `n`, including `n` itself.
pub open spec fn count_nodes_model(n: NodeModel) -> int
    decreases n,
{
    1 + count_nodes_list(n.children)
}

/// Total node count over a sequence of trees.
pub open spec fn count_nodes_list(cs: Seq<NodeModel>) -> int
    decreases cs,
{
    if cs.len() == 0 {
        0int
    } else {
        count_nodes_model(cs[0]) + count_nodes_list(cs.drop_first())
    }
}

/// Number of file nodes in the tree rooted at `n`.
pub open spec fn count_files_model(n: NodeModel) -> int
    decreases n,
{
    (if n.is_file {
        1int
    } else {
        0int
    }) + count_files_list(n.children)
}

/// Total file count over a sequence of trees.
pub open spec fn count_files_list(cs: Seq<NodeModel>) -> int
    decreases cs,
{
    if cs.len() == 0 {
        0int
    } else {
        count_files_model(cs[0]) + count_files_list(cs.drop_first())
    }
}

/// Number of lines the tree rooted at `n` would render to: one line per
/// shown node; a file node under `show_files == false` contributes nothing,
/// but its ancestor directories still count.
pub open spec fn estimate_model(n: NodeModel, show_files: bool) -> int
    decreases n,
{
    if !show_files && n.is_file {
        0int
    } else {
        1 + estimate_list(n.children, show_files)
    }
}

/// Total line estimate over a sequence of trees.
pub open spec fn estimate_list(cs: Seq<NodeModel>, show_files: bool) -> int
    decreases cs,
{
    if cs.len() == 0 {
        0int
    } else {
        estimate_model(cs[0], show_files) + estimate_list(cs.drop_first(), show_files)
    }
}

/// All three counts are non-negative, and node counts are positive.
pub proof fn lemma_counts_nonneg(n: NodeModel)
    ensures
        count_nodes_model(n) >= 1,
        count_files_model(n) >= 0,
        estimate_model(n, true) >= 0,
        estimate_model(n, false) >= 0,
    decreases n,
{
    lemma_counts_list_nonneg(n.children);
}

/// List counts are non-negative.
pub proof fn lemma_counts_list_nonneg(cs: Seq<NodeModel>)
    ensures
        count_nodes_list(cs) >= 0,
        count_files_list(cs) >= 0,
        estimate_list(cs, true) >= 0,
        estimate_list(cs, false) >= 0,
    decreases cs,
{
    if cs.len() > 0 {
        lemma_counts_nonneg(cs[0]);
        lemma_counts_list_nonneg(cs.drop_first());
    }
}

/// Extending a list extends its counts.
proof fn lemma_count_list_push(cs: Seq<NodeModel>, x: NodeModel)
    ensures
        count_nodes_list(cs.push(x)) == count_nodes_list(cs) + count_nodes_model(x),
        count_files_list(cs.push(x)) == count_files_list(cs) + count_files_model(x),
        estimate_list(cs.push(x), true) == estimate_list(cs, true) + estimate_model(x, true),
        estimate_list(cs.push(x), false) == estimate_list(cs, false) + estimate_model(x, false),
    decreases cs.len(),
{
    if cs.len() == 0 {
        assert(cs.push(x)[0] == x);
        assert(cs.push(x).drop_first() =~= Seq::<NodeModel>::empty());
        assert(count_nodes_list(cs.push(x).drop_first()) == 0);
        assert(count_files_list(cs.push(x).drop_first()) == 0);
        assert(count_nodes_list(cs.push(x)) == count_nodes_model(x));
        assert(count_files_list(cs.push(x)) == count_files_model(x));
        assert(estimate_list(cs.push(x).drop_first(), true) == 0);
        assert(estimate_list(cs.push(x).drop_first(), false) == 0);
        assert(estimate_list(cs.push(x), true) == estimate_model(x, true));
        assert(estimate_list(cs.push(x), false) == estimate_model(x, false));
    } else {
        lemma_count_list_push(cs.drop_first(), x);
        assert(cs.push(x).drop_first() =~= cs.drop_first().push(x));
        assert(cs.push(x)[0] == cs[0]);
        assert(count_nodes_list(cs.push(x)) == count_nodes_model(cs[0]) + count_nodes_list(
            cs.drop_first().push(x),
        ));
        assert(count_files_list(cs.push(x)) == count_files_model(cs[0]) + count_files_list(
            cs.drop_first().push(x),
        ));
        assert(count_nodes_list(cs) == count_nodes_model(cs[0]) + count_nodes_list(
            cs.drop_first(),
        ));
        assert(count_files_list(cs) == count_files_model(cs[0]) + count_files_list(
            cs.drop_first(),
        ));
        assert(estimate_list(cs.push(x), true) == estimate_model(cs[0], true) + estimate_list(
            cs.drop_first().push(x),
            true,
        ));
        assert(estimate_list(cs.push(x), false) == estimate_model(cs[0], false) + estimate_list(
            cs.drop_first().push(x),
            false,
        ));
        assert(estimate_list(cs, true) == estimate_model(cs[0], true) + estimate_list(
            cs.drop_first(),
            true,
        ));
        assert(estimate_list(cs, false) == estimate_model(cs[0], false) + estimate_list(
            cs.drop_first(),
            false,
        ));
    }
}

impl TreeNode {
    /// Get the total number of nodes in this tree (including self),
    /// saturating at `usize::MAX`.
    pub fn count_nodes(&self) -> (r: usize)
        ensures
            r as int == clamp_usize(count_nodes_model(self.model())),
        decreases *self,
    {
        let mut acc: usize = 1;
        let mut i: usize = 0;
        let ghost cs = Self::models(self.children@);
        proof {
            Self::lemma_models_len(self.children@);
            assert(cs.take(0) =~= Seq::<NodeModel>::empty());
        }
        while i < self.children.len()
            invariant
                i <= self.children@.len(),
                cs == Self::models(self.children@),
                cs.len() == self.children@.len(),
                acc as int == clamp_usize(1 + count_nodes_list(cs.take(i as int))),
            decreases self.children@.len() - i,
        {
            proof {
                assert(decreases_to!(*self => self.children));
                assert(decreases_to!(self.children => self.children@[i as int]));
            }
            let c = self.children[i].count_nodes();
            proof {
                Self::lemma_models_index(self.children@, i as int);
                lemma_count_list_push(cs.take(i as int), cs[i as int]);
                lemma_counts_list_nonneg(cs.take(i as int));
                lemma_counts_nonneg(cs[i as int]);
                assert(cs.take(i as int).push(cs[i as int]) =~= cs.take(i + 1));
            }
            acc = acc.saturating_add(c);
            i = i + 1;
        }
        proof {
            assert(cs.take(i as int) =~= cs);
        }
        acc
    }

    /// Get the number of file nodes in this tree, saturating at
    /// `usize::MAX`.
    pub fn count_files(&self) -> (r: usize)
        ensures
            r as int == clamp_usize(count_files_model(self.model())),
        decreases *self,
    {
        let mut acc: usize = if self.is_file {
            1
        } else {
            0
        };
        let mut i: usize = 0;
        let ghost cs = Self::models(self.children@);
        proof {
            Self::lemma_models_len(self.children@);
            assert(cs.take(0) =~= Seq::<NodeModel>::empty());
        }
        while i < self.children.len()
            invariant
                i <= self.children@.len(),
                cs == Self::models(self.children@),
                cs.len() == self.children@.len(),
                acc as int == clamp_usize(
                    (if self.is_file {
                        1int
                    } else {
                        0int
                    }) + count_files_list(cs.take(i as int)),
                ),
            decreases self.children@.len() - i,
        {
            proof {
                assert(decreases_to!(*self => self.children));
                assert(decreases_to!(self.children => self.children@[i as int]));
            }
            let c = self.children[i].count_files();
            proof {
                Self::lemma_models_index(self.children@, i as int);
                lemma_count_list_push(cs.take(i as int), cs[i as int]);
                lemma_counts_list_nonneg(cs.take(i as int));
                lemma_counts_nonneg(cs[i as int]);
                assert(cs.take(i as int).push(cs[i as int]) =~= cs.take(i + 1));
            }
            acc = acc.saturating_add(c);
            i = i + 1;
        }
        proof {
            assert(cs.take(i as int) =~= cs);
        }
        acc
    }

    /// Estimate the number of lines this tree would take to render,
    /// saturating at `usize::MAX`.
    pub fn estimate_render_lines(&self, show_files: bool) -> (r: usize)
        ensures
            r as int == clamp_usize(estimate_model(self.model(), show_files)),
        decreases *self,
    {
        if !show_files && self.is_file {
            return 0;
        }
        let mut acc: usize = 1;
        let mut i: usize = 0;
        let ghost cs = Self::models(self.children@);
        proof {
            Self::lemma_models_len(self.children@);
            assert(cs.take(0) =~= Seq::<NodeModel>::empty());
        }
        while i < self.children.len()
            invariant
                i <= self.children@.len(),
                cs == Self::models(self.children@),
                cs.len() == self.children@.len(),
                acc as int == clamp_usize(1 + estimate_list(cs.take(i as int), show_files)),
            decreases self.children@.len() - i,
        {
            proof {
                assert(decreases_to!(*self => self.children));
                assert(decreases_to!(self.children => self.children@[i as int]));
            }
            let c = self.children[i].estimate_render_lines(show_files);
            proof {
                Self::lemma_models_index(self.children@, i as int);
                lemma_count_list_push(cs.take(i as int), cs[i as int]);
                lemma_counts_list_nonneg(cs.take(i as int));
                lemma_counts_nonneg(cs[i as int]);
                assert(cs.take(i as int).push(cs[i as int]) =~= cs.take(i + 1));
            }
            acc = acc.saturating_add(c);
            i = i + 1;
        }
        proof {
            assert(cs.take(i as int) =~= cs);
        }
        acc
    }
}

/// The branch connector preceding a node's name.
pub open spec fn connector(is_last: bool) -> Seq<char> {
    if is_last {
        "└── "@
    } else {
        "├── "@
    }
}

/// The prefix extension for a node's children.
pub open spec fn prefix_extension(is_last: bool) -> Seq<char> {
    if is_last {
        "    "@
    } else {
        "│   "@
    }
}

/// The name as displayed: directories carry a trailing separator.
pub open spec fn displayed_name(n: NodeModel) -> Seq<char> {
    if n.is_file {
        n.name
    } else {
        n.name + seq!['/']
    }
}

/// The lines a node renders to: its own connector line, then its children,
/// depth first; a file node is invisible under `show_files == false`.
pub open spec fn render_node_model(
    n: NodeModel,
    prefix: Seq<char>,
    is_last: bool,
    show_files: bool,
) -> Seq<Seq<char>>
    decreases n,
{
    if !show_files && n.is_file {
        Seq::empty()
    } else {
        seq![prefix + connector(is_last) + displayed_name(n)] + render_children_model(
            n.children,
            prefix + prefix_extension(is_last),
            show_files,
        )
    }
}

/// The lines of a list of siblings; only the final sibling of the full
/// list is rendered with the closing connector.
pub open spec fn render_children_model(
    cs: Seq<NodeModel>,
    prefix: Seq<char>,
    show_files: bool,
) -> Seq<Seq<char>>
    decreases cs,
{
    if cs.len() == 0 {
        Seq::empty()
    } else {
        render_node_model(cs[0], prefix, cs.len() == 1, show_files) + render_children_model(
            cs.drop_first(),
            prefix,
            show_files,
        )
    }
}

/// Renders one node and its subtree into `output`, one line per shown
/// node.
pub fn render_node_into(
    node: &TreeNode,
    prefix: &str,
    is_last: bool,
    show_files: bool,
    output: &mut Vec<String>,
)
    ensures
        final(output)@.map_values(|l: String| l@) == old(output)@.map_values(|l: String| l@)
            + render_node_model(node.model(), prefix@, is_last, show_files),
    decreases *node,
{
    let ghost target = old(output)@.map_values(|l: String| l@) + render_node_model(
        node.model(),
        prefix@,
        is_last,
        show_files,
    );
    if !show_files && node.is_file {
        proof {
            assert(old(output)@.map_values(|l: String| l@) =~= target);
        }
        return ;
    }
    let mut line = String::new();
    line.append(prefix);
    if is_last {
        line.append("└── ");
    } else {
        line.append("├── ");
    }
    line.append(node.name.as_str());
    if !node.is_file {
        line.append("/");
        proof {
            reveal_strlit("/");
            assert("/"@ =~= seq!['/']);
        }
    }
    proof {
        assert(line@ =~= prefix@ + connector(is_last) + displayed_name(node.model()));
    }
    let mut child_prefix = String::new();
    child_prefix.append(prefix);
    if is_last {
        child_prefix.append("    ");
    } else {
        child_prefix.append("│   ");
    }
    let ghost out0 = old(output)@.map_values(|l: String| l@);
    output.push(line);
    proof {
        assert(output@.map_values(|l: String| l@) =~= out0 + seq![
            prefix@ + connector(is_last) + displayed_name(node.model()),
        ]);
    }
    let ghost cs = TreeNode::models(node.children@);
    let ghost cp = child_prefix@;
    let mut i: usize = 0;
    proof {
        TreeNode::lemma_models_pointwise(node.children@);
        assert(cs.skip(0) =~= cs);
    }
    while i < node.children.len()
        invariant
            i <= node.children@.len(),
            cs == TreeNode::models(node.children@),
            cs.len() == node.children@.len(),
            forall|t: int| 0 <= t < cs.len() ==> #[trigger] cs[t] == node.children@[t].model(),
            child_prefix@ == cp,
            output@.map_values(|l: String| l@) + render_children_model(
                cs.skip(i as int),
                cp,
                show_files,
            ) =~= target,
        decreases node.children@.len() - i,
    {
        proof {
            assert(decreases_to!(*node => node.children));
            assert(decreases_to!(node.children => node.children@[i as int]));
        }
        let child_is_last = i == node.children.len() - 1;
        let ghost out_i = output@.map_values(|l: String| l@);
        render_node_into(&node.children[i], child_prefix.as_str(), child_is_last, show_files,
            output);
        proof {
            let rest = cs.skip(i as int);
            assert(rest[0] == cs[i as int]);
            assert(child_is_last == (rest.len() == 1));
            assert(rest.drop_first() =~= cs.skip(i + 1));
            assert(render_children_model(rest, cp, show_files) == render_node_model(
                cs[i as int],
                cp,
                child_is_last,
                show_files,
            ) + render_children_model(cs.skip(i + 1), cp, show_files));
            assert(output@.map_values(|l: String| l@) =~= out_i + render_node_model(
                cs[i as int],
                cp,
                child_is_last,
                show_files,
            ));
        }
        i = i + 1;
    }
    proof {
        assert(cs.skip(i as int).len() == 0);
        assert(render_children_model(cs.skip(i as int), cp, show_files)
            =~= Seq::<Seq<char>>::empty());
        assert(output@.map_values(|l: String| l@) =~= target);
    }
}

/// Handles tree generation for directory structures: it carries the
/// selection policy and renders the trees the walk produces.
pub struct TreeGenerator {
    pub(crate) extensions: Vec<String>,
    pub(crate) include_hidden: bool,
    pub(crate) ignore_gitignore: bool,
    pub(crate) custom_ignore: crate::ignore::CustomIgnore,
}

impl TreeGenerator {
    /// The selection policy this generator applies.
    pub closed spec fn policy_model(self) -> crate::walker::PolicyModel {
        crate::walker::PolicyModel {
            exts: self.extensions@.map_values(|s: String| s@),
            include_hidden: self.include_hidden,
            respect_gitignore: !self.ignore_gitignore,
            custom: self.custom_ignore.texts(),
            files_only: self.custom_ignore.files_only_spec(),
        }
    }

    /// The compiled custom patterns agree with their texts.
    pub closed spec fn wf(self) -> bool {
        self.custom_ignore.wf()
    }

    pub fn new(
        extensions: Vec<String>,
        include_hidden: bool,
        ignore_gitignore: bool,
        custom_ignore: crate::ignore::CustomIgnore,
    ) -> (r: TreeGenerator)
        requires
            custom_ignore.wf(),
        ensures
            r.wf(),
            r.policy_model() == (crate::walker::PolicyModel {
                exts: extensions@.map_values(|s: String| s@),
                include_hidden,
                respect_gitignore: !ignore_gitignore,
                custom: custom_ignore.texts(),
                files_only: custom_ignore.files_only_spec(),
            }),
    {
        TreeGenerator { extensions, include_hidden, ignore_gitignore, custom_ignore }
    }

    /// The policy model reads the generator's fields directly.
    pub(crate) proof fn lemma_policy_fields(self)
        ensures
            self.policy_model().exts == self.extensions@.map_values(|s: String| s@),
            self.policy_model().include_hidden == self.include_hidden,
            self.policy_model().respect_gitignore == !self.ignore_gitignore,
            self.policy_model().custom == self.custom_ignore.texts(),
            self.policy_model().files_only == self.custom_ignore.files_only_spec(),
            self.wf() == self.custom_ignore.wf(),
    {
    }

    /// Check if a file should be included based on extension filters.
    pub fn should_include_file(&self, path: &str) -> (r: bool)
        ensures
            r == crate::walker::ext_admit(self.policy_model().exts, path@),
    {
        crate::walker::ext_admit_exec(&self.extensions, path)
    }
}

/// The root-relative form of `full` under `base`: the remainder after
/// the base and one separator, the empty path when they are equal, and
/// nothing when `base` is no prefix of `full`.
pub open spec fn rel_of(base: Seq<char>, full: Seq<char>) -> Option<Seq<char>> {
    if full == base {
        Some(Seq::empty())
    } else if crate::strutil::starts_with(full, base + seq!['/']) {
        Some(full.skip(base.len() as int + 1))
    } else {
        None
    }
}

/// The tree after inserting the paths of all walk items from index `i`
/// on, in order.
pub open spec fn build_tree_model(
    root: NodeModel,
    items: Seq<(Seq<char>, crate::walker::WalkItemKind)>,
    i: int,
) -> NodeModel
    decreases items.len() - i,
{
    if i < 0 || i >= items.len() {
        root
    } else {
        build_tree_model(
            insert_path_model(
                root,
                crate::strutil::split_segments(items[i].0),
                0,
                items[i].1 matches crate::walker::WalkItemKind::File(_),
            ),
            items,
            i + 1,
        )
    }
}

impl TreeGenerator {
    /// Add a path to the tree structure: the path relative to the base
    /// is split into segments and inserted below the root; a path not
    /// under the base is ignored.
    pub fn add_path_to_tree(
        &self,
        root: &mut TreeNode,
        base_path: &str,
        full_path: &str,
        is_file: bool,
    )
        ensures
            final(root).model() == (match rel_of(base_path@, full_path@) {
                Some(rel) => insert_path_model(
                    old(root).model(),
                    crate::strutil::split_segments(rel),
                    0,
                    is_file,
                ),
                None => old(root).model(),
            }),
    {
        if crate::strutil::str_eq(full_path, base_path) {
            let segs: Vec<String> = Vec::new();
            root.insert_path(&segs, 0, is_file);
            proof {
                assert(segs@.map_values(|s: String| s@) =~= crate::strutil::split_segments(
                    Seq::empty(),
                ));
            }
            return ;
        }
        let mut base_slash = String::from_str(base_path);
        base_slash.append("/");
        proof {
            reveal_strlit("/");
            assert("/"@ =~= seq!['/']);
        }
        if !crate::strutil::str_starts_with(full_path, base_slash.as_str()) {
            return ;
        }
        let flen = full_path.unicode_len();
        let blen = base_slash.as_str().unicode_len();
        let rel = full_path.substring_char(blen, flen);
        let segs = crate::strutil::str_split_segments(rel);
        root.insert_path(&segs, 0, is_file);
        proof {
            assert(rel@ =~= full_path@.skip(base_path@.len() as int + 1));
            assert(segs@.map_values(|s: String| s@) == crate::strutil::split_segments(rel@));
        }
    }
}

/// The tree a directory root produces: its own node filled in by one
/// insertion per admitted walk item.
pub open spec fn dir_tree_model(
    p: crate::walker::PolicyModel,
    path: Seq<char>,
    dir: crate::walker::FsDir,
) -> NodeModel {
    build_tree_model(
        NodeModel {
            name: crate::strutil::last_segment(path),
            path,
            is_file: false,
            children: Seq::empty(),
        },
        crate::walker::spec_walk_dir(p, dir, path, Seq::empty()),
        0,
    )
}

/// The trees generated for a list of root paths: one per admitted file
/// root and one per directory root, in input order. A file root enters
/// the tree exactly when the listing admits it: the extension filter
/// and the hidden-file rule both let it through.
pub open spec fn gen_trees_spec(
    p: crate::walker::PolicyModel,
    paths: Seq<crate::walker::RootPath>,
) -> Seq<NodeModel>
    decreases paths.len(),
{
    if paths.len() == 0 {
        Seq::empty()
    } else {
        (match paths[0] {
            crate::walker::RootPath::File { path, .. } => {
                if crate::walker::ext_admit(p.exts, path@) && (p.include_hidden
                    || !crate::walker::hidden_name(crate::strutil::last_segment(path@))) {
                    seq![
                        NodeModel {
                            name: crate::strutil::last_segment(path@),
                            path: path@,
                            is_file: true,
                            children: Seq::empty(),
                        },
                    ]
                } else {
                    Seq::empty()
                }
            },
            crate::walker::RootPath::Dir { path, dir } => seq![dir_tree_model(p, path@, dir)],
            crate::walker::RootPath::Missing { .. } => Seq::empty(),
        }) + gen_trees_spec(p, paths.drop_first())
    }
}

/// Whether every directory root of the list walks without error.
pub open spec fn roots_ok(
    p: crate::walker::PolicyModel,
    paths: Seq<crate::walker::RootPath>,
) -> bool
    decreases paths.len(),
{
    if paths.len() == 0 {
        true
    } else {
        (match paths[0] {
            crate::walker::RootPath::Dir { path, dir } => crate::walker::spec_walk_ok(
                p,
                dir,
                path@,
                Seq::empty(),
            ),
            _ => true,
        }) && roots_ok(p, paths.drop_first())
    }
}

impl TreeGenerator {
    /// Generate a tree structure for the given root paths: a single
    /// node per admitted file root, and one tree per directory root
    /// holding every admitted entry of its walk; a directory root's
    /// tree is returned even when nothing below it was admitted. Fails
    /// exactly when some directory root's walk fails.
    pub fn generate_tree(&self, paths: &Vec<crate::walker::RootPath>) -> (r: Result<
        Vec<TreeNode>,
        crate::FilesToPromptError,
    >)
        requires
            self.wf(),
        ensures
            r is Ok <==> roots_ok(self.policy_model(), paths@),
            r matches Ok(ts) ==> TreeNode::models(ts@) == gen_trees_spec(
                self.policy_model(),
                paths@,
            ),
    {
        let ghost p = self.policy_model();
        let mut trees: Vec<TreeNode> = Vec::new();
        let mut i: usize = 0;
        proof {
            assert(paths@.skip(0) =~= paths@);
            assert(TreeNode::models(trees@) =~= Seq::<NodeModel>::empty());
        }
        while i < paths.len()
            invariant
                i <= paths@.len(),
                self.wf(),
                p == self.policy_model(),
                TreeNode::models(trees@) + gen_trees_spec(p, paths@.skip(i as int))
                    =~= gen_trees_spec(p, paths@),
                roots_ok(p, paths@) == roots_ok(p, paths@.skip(i as int)),
            decreases paths@.len() - i,
        {
            let ghost rest = paths@.skip(i as int);
            let ghost trees_before = TreeNode::models(trees@);
            proof {
                assert(rest[0] == paths@[i as int]);
                assert(rest.drop_first() =~= paths@.skip(i as int + 1));
            }
            match &paths[i] {
                crate::walker::RootPath::File { path, .. } => {
                    let name = crate::strutil::str_last_segment(path.as_str());
                    let hidden_ok = self.include_hidden || !crate::walker::hidden_name_exec(
                        name.as_str(),
                    );
                    proof {
                        self.lemma_policy_fields();
                    }
                    if self.should_include_file(path.as_str()) && hidden_ok {
                        let node = TreeNode::new(name, path.clone(), true);
                        let ghost nm = node.model();
                        let ghost tv = trees@;
                        trees.push(node);
                        proof {
                            TreeNode::lemma_models_pointwise(tv);
                            TreeNode::lemma_models_pointwise(trees@);
                            assert(TreeNode::models(trees@) =~= trees_before.push(nm));
                        }
                    }
                },
                crate::walker::RootPath::Dir { path, dir } => {
                    let mut layers: Vec<crate::walker::GitignoreLayer> = Vec::new();
                    let mut items: Vec<(String, crate::walker::WalkItemKind)> = Vec::new();
                    let empty_prefix = "";
                    proof {
                        reveal_strlit("");
                        assert(empty_prefix@ =~= Seq::<char>::empty());
                        assert(crate::walker::layer_texts(layers@)
                            =~= Seq::<(Seq<char>, Seq<Seq<char>>)>::empty());
                    }
                    match self.walk_into(dir, path.as_str(), empty_prefix, &mut layers,
                        &mut items) {
                        Ok(_) => {},
                        Err(e) => {
                            proof {
                                assert(!crate::walker::spec_walk_ok(p, *dir, path@, Seq::empty()));
                                assert(!roots_ok(p, rest));
                                assert(!roots_ok(p, paths@));
                            }
                            return Err(e);
                        },
                    }
                    let ghost walked = crate::walker::spec_walk_dir(p, *dir, path@, Seq::empty());
                    proof {
                        assert(items@.map_values(
                            |q: (String, crate::walker::WalkItemKind)| crate::walker::pair_view(q),
                        ) =~= crate::walker::prefix_pairs(Seq::empty(), walked));
                        assert(crate::walker::prefix_pairs(Seq::empty(), walked) =~= walked) by {
                            assert(forall|t: int|
                                0 <= t < walked.len() ==> Seq::<char>::empty() + (
                                #[trigger] walked[t]).0 =~= walked[t].0);
                        }
                    }
                    let name = crate::strutil::str_last_segment(path.as_str());
                    let mut root = TreeNode::new(name, path.clone(), false);
                    let ghost root0 = root.model();
                    let mut j: usize = 0;
                    while j < items.len()
                        invariant
                            j <= items@.len(),
                            walked.len() == items@.len(),
                            forall|t: int|
                                0 <= t < items@.len() ==> #[trigger] walked[t]
                                    == crate::walker::pair_view(items@[t]),
                            build_tree_model(root.model(), walked, j as int) == build_tree_model(
                                root0,
                                walked,
                                0,
                            ),
                        decreases items@.len() - j,
                    {
                        let segs = crate::strutil::str_split_segments(items[j].0.as_str());
                        let is_file = match &items[j].1 {
                            crate::walker::WalkItemKind::File(_) => true,
                            crate::walker::WalkItemKind::Dir => false,
                        };
                        proof {
                            assert(segs@.map_values(|s: String| s@)
                                == crate::strutil::split_segments(walked[j as int].0));
                            assert(is_file == (walked[j as int].1
                                matches crate::walker::WalkItemKind::File(_)));
                        }
                        root.insert_path(&segs, 0, is_file);
                        j = j + 1;
                    }
                    proof {
                        assert(build_tree_model(root.model(), walked, j as int) == root.model());
                        assert(root.model() == dir_tree_model(p, path@, *dir));
                    }
                    let ghost nm = root.model();
                    let ghost tv = trees@;
                    trees.push(root);
                    proof {
                        TreeNode::lemma_models_pointwise(tv);
                        TreeNode::lemma_models_pointwise(trees@);
                        assert(TreeNode::models(trees@) =~= trees_before.push(nm));
                    }
                },
                crate::walker::RootPath::Missing { .. } => {},
            }
            i = i + 1;
            proof {
                assert(TreeNode::models(trees@) + gen_trees_spec(p, paths@.skip(i as int))
                    =~= gen_trees_spec(p, paths@));
            }
        }
        proof {
            assert(paths@.skip(i as int).len() == 0);
            assert(gen_trees_spec(p, paths@.skip(i as int)) =~= Seq::<NodeModel>::empty());
            assert(TreeNode::models(trees@) =~= gen_trees_spec(p, paths@));
            assert(roots_ok(p, paths@));
        }
        Ok(trees)
    }
}

/// Inserting a path whose first segment is not `dname` never gives the
/// root a child named `dname`.
proof fn lemma_insert_path_no_new_child(
    n: NodeModel,
    segs: Seq<Seq<char>>,
    i: int,
    is_file: bool,
    dname: Seq<char>,
)
    requires
        find_child(n.children, dname) == -1,
        0 <= i < segs.len() ==> segs[i] != dname,
    ensures
        find_child(insert_path_model(n, segs, i, is_file).children, dname) == -1,
{
    lemma_find_child_props(n.children, dname);
    if 0 <= i < segs.len() {
        let name = segs[i];
        let cs = n.children;
        let j = find_child(cs, name);
        lemma_find_child_props(cs, name);
        let m = insert_path_model(n, segs, i, is_file);
        if j >= 0 {
            let sub = insert_path_model(cs[j], segs, i + 1, is_file);
            lemma_insert_path_heads(cs[j], segs, i + 1, is_file);
            assert(m.children == cs.update(j, sub));
            assert(forall|t: int|
                0 <= t < m.children.len() ==> (#[trigger] m.children[t]).name != dname);
            lemma_find_child_none(m.children, dname);
        } else {
            let fresh = fresh_node(n.path, name, i == segs.len() - 1 && is_file);
            let sub = insert_path_model(fresh, segs, i + 1, is_file);
            lemma_insert_path_heads(fresh, segs, i + 1, is_file);
            assert(m.children == insert_child(cs, sub));
            lemma_insert_child_elems(cs, sub);
            assert(forall|t: int|
                0 <= t < m.children.len() ==> (#[trigger] m.children[t]).name != dname) by {
                assert(forall|t: int|
                    0 <= t < m.children.len() ==> (#[trigger] m.children[t] == sub
                        || cs.contains(m.children[t])));
            }
            lemma_find_child_none(m.children, dname);
        }
    }
}

/// A pruned directory never appears in the built tree: when no inserted
/// path names `dname` or anything beneath it, and the paths carry no
/// leading separator, the tree gains no child named `dname`.
pub proof fn lemma_build_tree_no_pruned_child(
    root: NodeModel,
    items: Seq<(Seq<char>, crate::walker::WalkItemKind)>,
    i: int,
    dname: Seq<char>,
)
    requires
        find_child(root.children, dname) == -1,
        forall|t: int|
            i <= t < items.len() ==> (#[trigger] items[t]).0 != dname
                && !crate::strutil::starts_with(items[t].0, dname + seq!['/']) && (items[t].0.len()
                > 0 ==> items[t].0[0] != '/'),
    ensures
        find_child(build_tree_model(root, items, i).children, dname) == -1,
    decreases items.len() - i,
{
    if 0 <= i < items.len() {
        let p = items[i].0;
        let segs = crate::strutil::split_segments(p);
        let is_file = items[i].1 matches crate::walker::WalkItemKind::File(_);
        let root2 = insert_path_model(root, segs, 0, is_file);
        if p.len() == 0 {
            assert(segs.len() == 0);
            lemma_insert_path_no_new_child(root, segs, 0, is_file, dname);
        } else {
            crate::strutil::lemma_split_segments_first(p);
            assert(segs[0] != dname) by {
                if segs[0] == dname {
                    assert(p == dname || crate::strutil::starts_with(p, dname + seq!['/']));
                }
            }
            lemma_insert_path_no_new_child(root, segs, 0, is_file, dname);
        }
        lemma_build_tree_no_pruned_child(root2, items, i + 1, dname);
    }
}

/// Pruning carries to the rendered tree: when an entry of the walked
/// directory is a subdirectory the policy rejects, the tree built for
/// that directory has no child bearing its name, so neither it nor
/// anything beneath it is ever rendered.
pub proof fn lemma_pruned_dir_absent_from_tree(
    p: crate::walker::PolicyModel,
    path: Seq<char>,
    dir: crate::walker::FsDir,
    k: int,
    dname: Seq<char>,
)
    requires
        crate::walker::entries_valid(dir.entries@),
        0 <= k < dir.entries@.len(),
        dir.entries@[k] matches crate::walker::FsEntry::Dir { .. },
        crate::walker::entry_name(dir.entries@[k]) == dname,
        !crate::walker::admit_dir(
            p,
            crate::walker::layers_within(p, Seq::empty(), dir, path),
            path + seq!['/'] + dname,
            dname,
        ),
    ensures
        find_child(dir_tree_model(p, path, dir).children, dname) == -1,
{
    let items = crate::walker::spec_walk_dir(p, dir, path, Seq::empty());
    crate::walker::lemma_pruned_dir_absent(p, dir, path, Seq::empty(), k, dname);
    crate::walker::lemma_walk_paths_open_with_names(p, dir, path, Seq::empty());
    let root0 = NodeModel {
        name: crate::strutil::last_segment(path),
        path,
        is_file: false,
        children: Seq::empty(),
    };
    lemma_find_child_none(root0.children, dname);
    lemma_build_tree_no_pruned_child(root0, items, 0, dname);
}

/// The auto-mode line threshold: a table of contents whose estimated
/// rendering with files shown reaches this many lines falls back to
/// directories only.
pub const AUTO_TOC_LINE_THRESHOLD: usize = 100;

/// Whether files are shown for the given mode and trees.
pub open spec fn show_files_of(ts: Seq<NodeModel>, mode: crate::TocMode) -> bool {
    match mode {
        crate::TocMode::DirsOnly => false,
        crate::TocMode::FilesAndDirs => true,
        crate::TocMode::Auto => estimate_list(ts, true) < AUTO_TOC_LINE_THRESHOLD as int,
    }
}

/// The rendered text of a list of root trees: their lines joined with
/// newlines; empty when there are no trees.
pub open spec fn render_trees_spec(ts: Seq<NodeModel>, mode: crate::TocMode) -> Seq<char> {
    if ts.len() == 0 {
        Seq::empty()
    } else {
        crate::strutil::join_nl(render_children_model(ts, Seq::empty(), show_files_of(ts, mode)))
    }
}

impl TreeGenerator {
    /// Render a single tree node with proper indentation and tree
    /// characters, appending one line per shown node to `output`.
    pub fn render_node(
        node: &TreeNode,
        prefix: &str,
        is_last: bool,
        show_files: bool,
        output: &mut Vec<String>,
    )
        ensures
            final(output)@.map_values(|l: String| l@) == old(output)@.map_values(|l: String| l@)
                + render_node_model(node.model(), prefix@, is_last, show_files),
    {
        render_node_into(node, prefix, is_last, show_files, output)
    }

    /// Render trees to text: in auto mode files are shown exactly when
    /// the estimated line count with files stays under
    /// `AUTO_TOC_LINE_THRESHOLD`.
    pub fn render_tree(&self, trees: &Vec<TreeNode>, mode: crate::TocMode) -> (r: String)
        ensures
            r@ == render_trees_spec(TreeNode::models(trees@), mode),
    {
        let ghost ts = TreeNode::models(trees@);
        proof {
            TreeNode::lemma_models_pointwise(trees@);
        }
        if trees.len() == 0 {
            let r = String::new();
            proof {
                assert(r@ =~= render_trees_spec(ts, mode));
            }
            return r;
        }
        let show_files: bool = match mode {
            crate::TocMode::DirsOnly => false,
            crate::TocMode::FilesAndDirs => true,
            crate::TocMode::Auto => {
                let mut total: usize = 0;
                let mut i: usize = 0;
                proof {
                    assert(ts.take(0) =~= Seq::<NodeModel>::empty());
                }
                while i < trees.len()
                    invariant
                        i <= trees@.len(),
                        ts == TreeNode::models(trees@),
                        ts.len() == trees@.len(),
                        forall|t: int|
                            0 <= t < ts.len() ==> #[trigger] ts[t] == trees@[t].model(),
                        total as int == clamp_usize(estimate_list(ts.take(i as int), true)),
                    decreases trees@.len() - i,
                {
                    let c = trees[i].estimate_render_lines(true);
                    proof {
                        lemma_count_list_push(ts.take(i as int), ts[i as int]);
                        lemma_counts_list_nonneg(ts.take(i as int));
                        lemma_counts_nonneg(ts[i as int]);
                        assert(ts.take(i as int).push(ts[i as int]) =~= ts.take(i + 1));
                    }
                    total = total.saturating_add(c);
                    i = i + 1;
                }
                proof {
                    assert(ts.take(i as int) =~= ts);
                }
                total < AUTO_TOC_LINE_THRESHOLD
            },
        };
        proof {
            assert(show_files == show_files_of(ts, mode));
        }
        let mut output: Vec<String> = Vec::new();
        let ghost target = render_children_model(ts, Seq::empty(), show_files);
        let mut i: usize = 0;
        proof {
            assert(ts.skip(0) =~= ts);
            assert(output@.map_values(|l: String| l@) =~= Seq::<Seq<char>>::empty());
        }
        while i < trees.len()
            invariant
                i <= trees@.len(),
                ts == TreeNode::models(trees@),
                ts.len() == trees@.len(),
                forall|t: int| 0 <= t < ts.len() ==> #[trigger] ts[t] == trees@[t].model(),
                target == render_children_model(ts, Seq::empty(), show_files),
                output@.map_values(|l: String| l@) + render_children_model(
                    ts.skip(i as int),
                    Seq::empty(),
                    show_files,
                ) =~= target,
            decreases trees@.len() - i,
        {
            let is_last = i == trees.len() - 1;
            let ghost out_i = output@.map_values(|l: String| l@);
            let empty_prefix = "";
            proof {
                reveal_strlit("");
                assert(empty_prefix@ =~= Seq::<char>::empty());
            }
            Self::render_node(&trees[i], empty_prefix, is_last, show_files, &mut output);
            proof {
                let rest = ts.skip(i as int);
                assert(rest[0] == ts[i as int]);
                assert(is_last == (rest.len() == 1));
                assert(rest.drop_first() =~= ts.skip(i + 1));
                assert(render_children_model(rest, Seq::empty(), show_files) == render_node_model(
                    ts[i as int],
                    Seq::empty(),
                    is_last,
                    show_files,
                ) + render_children_model(ts.skip(i + 1), Seq::empty(), show_files));
                assert(output@.map_values(|l: String| l@) =~= out_i + render_node_model(
                    ts[i as int],
                    Seq::empty(),
                    is_last,
                    show_files,
                ));
            }
            i = i + 1;
        }
        proof {
            assert(render_children_model(ts.skip(i as int), Seq::empty(), show_files)
                =~= Seq::<Seq<char>>::empty());
            assert(output@.map_values(|l: String| l@) =~= target);
        }
        crate::strutil::join_lines(&output)
    }
}

impl TreeGenerator {
    /// Walks one directory subtree: every admitted entry is appended to
    /// `out` as a path under `rel_prefix` with its file flag, depth
    /// first, names in lexicographic order; a rejected directory is
    /// pruned whole. Fails exactly when a listing could not be read, or
    /// an honoured rule source is unreadable or holds a rule that does
    /// not compile, anywhere in the admitted subtree.
    pub fn walk_into(
        &self,
        dir: &crate::walker::FsDir,
        base: &str,
        rel_prefix: &str,
        layers: &mut Vec<crate::walker::GitignoreLayer>,
        out: &mut Vec<(String, crate::walker::WalkItemKind)>,
    ) -> (r: Result<(), crate::FilesToPromptError>)
        requires
            self.wf(),
            crate::walker::layers_wf(old(layers)@),
        ensures
            r is Ok <==> crate::walker::spec_walk_ok(self.policy_model(), *dir, base@, crate::walker::layer_texts(old(layers)@)),
            r is Ok ==> final(layers)@ == old(layers)@ && crate::walker::layers_wf(final(layers)@),
            r is Ok ==> final(out)@.map_values(|q: (String, crate::walker::WalkItemKind)| crate::walker::pair_view(q)) == old(
                out,
            )@.map_values(|q: (String, crate::walker::WalkItemKind)| crate::walker::pair_view(q)) + crate::walker::prefix_pairs(
                rel_prefix@,
                crate::walker::spec_walk_dir(self.policy_model(), *dir, base@, crate::walker::layer_texts(old(layers)@)),
            ),
        decreases *dir,
    {
        let ghost p = self.policy_model();
        let ghost l0 = crate::walker::layer_texts(old(layers)@);
        let ghost entries_g = dir.entries@;
        let ghost out0 = old(out)@.map_values(|q: (String, crate::walker::WalkItemKind)| crate::walker::pair_view(q));
        match &dir.read_error {
            Some(m) => {
                return Err(crate::FilesToPromptError::Io { message: m.clone() });
            },
            None => {},
        }
        // the directory's rule layer: outside sources the application
        // gathered, then the directory's own ignore files
        if !self.ignore_gitignore {
            let mut texts: Vec<String> = crate::ignore::parse_gitignore_lines(
                dir.extra_rules.as_str(),
            );
            proof {
                assert(texts@.map_values(|s: String| s@) == crate::ignore::gitignore_lines(
                    dir.extra_rules@,
                ));
            }
            match crate::walker::find_named_file_exec(&dir.entries, ".gitignore") {
                Some(j) => {
                    proof {
                        crate::walker::lemma_find_named_file_props(entries_g, ".gitignore"@);
                    }
                    match &dir.entries[j] {
                        crate::walker::FsEntry::File { content: crate::walker::FileContent::Text(t), .. } => {
                            let mut more = crate::ignore::parse_gitignore_lines(t.as_str());
                            let ghost before = texts@.map_values(|s: String| s@);
                            texts.append(&mut more);
                            proof {
                                assert(texts@.map_values(|s: String| s@) =~= before
                                    + crate::walker::named_file_lines(entries_g, ".gitignore"@));
                            }
                        },
                        crate::walker::FsEntry::File { .. } => {
                            proof {
                                assert(!crate::walker::named_file_ok(entries_g, ".gitignore"@));
                                assert(!crate::walker::rules_ok(*dir));
                            }
                            let msg = crate::strutil::str_concat(base, "/.gitignore");
                            return Err(crate::FilesToPromptError::Io { message: msg });
                        },
                        crate::walker::FsEntry::Dir { .. } => {
                            proof {
                                assert(false);
                            }
                        },
                    }
                },
                None => {
                    proof {
                        assert(crate::walker::named_file_lines(entries_g, ".gitignore"@)
                            =~= Seq::<Seq<char>>::empty());
                        assert(texts@.map_values(|s: String| s@) =~= texts@.map_values(
                            |s: String| s@,
                        ) + crate::walker::named_file_lines(entries_g, ".gitignore"@));
                    }
                },
            }
            proof {
                assert(texts@.map_values(|s: String| s@) =~= crate::ignore::gitignore_lines(
                    dir.extra_rules@,
                ) + crate::walker::named_file_lines(entries_g, ".gitignore"@));
            }
            match crate::walker::find_named_file_exec(&dir.entries, ".ignore") {
                Some(j) => {
                    proof {
                        crate::walker::lemma_find_named_file_props(entries_g, ".ignore"@);
                    }
                    match &dir.entries[j] {
                        crate::walker::FsEntry::File { content: crate::walker::FileContent::Text(t), .. } => {
                            let mut more = crate::ignore::parse_gitignore_lines(t.as_str());
                            let ghost before = texts@.map_values(|s: String| s@);
                            texts.append(&mut more);
                            proof {
                                assert(texts@.map_values(|s: String| s@) =~= before
                                    + crate::walker::named_file_lines(entries_g, ".ignore"@));
                            }
                        },
                        crate::walker::FsEntry::File { .. } => {
                            proof {
                                assert(!crate::walker::named_file_ok(entries_g, ".ignore"@));
                                assert(!crate::walker::rules_ok(*dir));
                            }
                            let msg = crate::strutil::str_concat(base, "/.ignore");
                            return Err(crate::FilesToPromptError::Io { message: msg });
                        },
                        crate::walker::FsEntry::Dir { .. } => {
                            proof {
                                assert(false);
                            }
                        },
                    }
                },
                None => {
                    proof {
                        assert(crate::walker::named_file_lines(entries_g, ".ignore"@)
                            =~= Seq::<Seq<char>>::empty());
                        assert(texts@.map_values(|s: String| s@) =~= texts@.map_values(
                            |s: String| s@,
                        ) + crate::walker::named_file_lines(entries_g, ".ignore"@));
                    }
                },
            }
            proof {
                assert(texts@.map_values(|s: String| s@) =~= crate::walker::dir_rule_texts(*dir));
            }
            match crate::ignore::compile_layer(&texts) {
                Ok(pats) => {
                    let ghost pat_texts = pats@.map_values(
                        |q: crate::ignore::IgnorePattern| q.text(),
                    );
                    layers.push(
                        crate::walker::GitignoreLayer {
                            base: String::from_str(base),
                            patterns: pats,
                        },
                    );
                    proof {
                        assert(pat_texts == crate::walker::dir_rule_texts(*dir));
                        assert(crate::walker::layer_texts(layers@) =~= l0.push(
                            (base@, crate::walker::dir_rule_texts(*dir)),
                        ));
                        assert(p.respect_gitignore);
                        assert(crate::walker::layer_texts(layers@)
                            == crate::walker::layers_within(p, l0, *dir, base@));
                        crate::ignore::lemma_all_compile_append(
                            crate::ignore::gitignore_lines(dir.extra_rules@)
                                + crate::walker::named_file_lines(entries_g, ".gitignore"@),
                            crate::walker::named_file_lines(entries_g, ".ignore"@),
                        );
                        crate::ignore::lemma_all_compile_append(
                            crate::ignore::gitignore_lines(dir.extra_rules@),
                            crate::walker::named_file_lines(entries_g, ".gitignore"@),
                        );
                        assert(crate::walker::rules_ok(*dir));
                    }
                },
                Err(e) => {
                    proof {
                        crate::ignore::lemma_all_compile_append(
                            crate::ignore::gitignore_lines(dir.extra_rules@)
                                + crate::walker::named_file_lines(entries_g, ".gitignore"@),
                            crate::walker::named_file_lines(entries_g, ".ignore"@),
                        );
                        crate::ignore::lemma_all_compile_append(
                            crate::ignore::gitignore_lines(dir.extra_rules@),
                            crate::walker::named_file_lines(entries_g, ".gitignore"@),
                        );
                        assert(!crate::walker::rules_ok(*dir));
                    }
                    return Err(crate::FilesToPromptError::PatternError { message: e });
                },
            }
        }
        let ghost stack = layers@;
        let ghost l2 = crate::walker::layer_texts(stack);
        proof {
            assert(l2 == crate::walker::layers_within(p, l0, *dir, base@));
            if p.respect_gitignore {
                assert(crate::walker::rules_ok(*dir));
            }
        }
        let order = crate::walker::sort_entries(&dir.entries);
        let ghost ints = order@.map_values(|u: usize| u as int);
        let ghost walked = crate::walker::spec_walk_list(p, entries_g, ints, base@, l2);
        let ghost target = out0 + crate::walker::prefix_pairs(rel_prefix@, walked);
        proof {
            assert(crate::walker::spec_walk_dir(p, *dir, base@, l0) == walked);
            assert(ints.skip(0) =~= ints);
        }
        let mut t: usize = 0;
        while t < order.len()
            invariant
                t <= order@.len(),
                self.wf(),
                p == self.policy_model(),
                l0 == crate::walker::layer_texts(old(layers)@),
                entries_g == dir.entries@,
                ints == order@.map_values(|u: usize| u as int),
                ints == crate::walker::sorted_idx(entries_g),
                ints.len() == order@.len(),
                forall|j: int| 0 <= j < order@.len() ==> (#[trigger] order@[j]) < entries_g.len(),
                layers@ == stack,
                l2 == crate::walker::layer_texts(stack),
                crate::walker::layers_wf(stack),
                dir.read_error is None,
                p.respect_gitignore ==> crate::walker::rules_ok(*dir),
                l2 == crate::walker::layers_within(p, l0, *dir, base@),
                walked == crate::walker::spec_walk_list(p, entries_g, ints, base@, l2),
                walked == crate::walker::spec_walk_dir(p, *dir, base@, l0),
                target == out0 + crate::walker::prefix_pairs(rel_prefix@, walked),
                out@.map_values(|q: (String, crate::walker::WalkItemKind)| crate::walker::pair_view(q)) + crate::walker::prefix_pairs(
                    rel_prefix@,
                    crate::walker::spec_walk_list(p, entries_g, ints.skip(t as int), base@, l2),
                ) =~= target,
                crate::walker::spec_walk_list_ok(p, entries_g, ints, base@, l2) == crate::walker::spec_walk_list_ok(
                    p,
                    entries_g,
                    ints.skip(t as int),
                    base@,
                    l2,
                ),
            decreases order@.len() - t,
        {
            let k = order[t];
            let ghost rest_ints = ints.skip(t as int);
            let ghost out_before = out@.map_values(|q: (String, crate::walker::WalkItemKind)| crate::walker::pair_view(q));
            proof {
                assert(rest_ints[0] == k as int);
                assert(rest_ints.drop_first() =~= ints.skip(t as int + 1));
            }
            match &dir.entries[k] {
                crate::walker::FsEntry::File { name, content } => {
                    let mut full = String::from_str(base);
                    full.append("/");
                    full.append(name.as_str());
                    proof {
                        reveal_strlit("/");
                        assert("/"@ =~= seq!['/']);
                        assert(full@ =~= base@ + seq!['/'] + name@);
                    }
                    let admitted = (self.include_hidden || !crate::walker::hidden_name_exec(name.as_str()))
                        && !self.custom_ignore.should_ignore_file(full.as_str()) && crate::walker::ext_admit_exec(
                        &self.extensions,
                        full.as_str(),
                    ) && !crate::walker::layers_exclude_exec(layers, full.as_str(), name.as_str(), false);
                    proof {
                        assert(admitted == crate::walker::admit_file(p, l2, base@ + seq!['/'] + name@, name@));
                    }
                    if admitted {
                        let relp = crate::strutil::str_concat(rel_prefix, name.as_str());
                        out.push((relp, crate::walker::WalkItemKind::File(crate::walker::clone_content(content))));
                        proof {
                            assert(out@.map_values(|q: (String, crate::walker::WalkItemKind)| crate::walker::pair_view(q))
                                =~= out_before.push((rel_prefix@ + name@, crate::walker::WalkItemKind::File(*content))));
                            assert(crate::walker::spec_walk_list(p, entries_g, rest_ints, base@, l2) == seq![
                                (name@, crate::walker::WalkItemKind::File(*content)),
                            ] + crate::walker::spec_walk_list(p, entries_g, ints.skip(t as int + 1), base@, l2));
                            assert(crate::walker::prefix_pairs(rel_prefix@, crate::walker::spec_walk_list(p, entries_g, rest_ints, base@, l2))
                                =~= seq![(rel_prefix@ + name@, crate::walker::WalkItemKind::File(*content))] + crate::walker::prefix_pairs(
                                rel_prefix@,
                                crate::walker::spec_walk_list(p, entries_g, ints.skip(t as int + 1), base@, l2),
                            ));
                        }
                    } else {
                        proof {
                            assert(crate::walker::spec_walk_list(p, entries_g, rest_ints, base@, l2)
                                == crate::walker::spec_walk_list(p, entries_g, ints.skip(t as int + 1), base@, l2));
                        }
                    }
                },
                crate::walker::FsEntry::Dir { name, dir: d } => {
                    let mut full = String::from_str(base);
                    full.append("/");
                    full.append(name.as_str());
                    proof {
                        reveal_strlit("/");
                        assert("/"@ =~= seq!['/']);
                        assert(full@ =~= base@ + seq!['/'] + name@);
                    }
                    let admitted = (self.include_hidden || !crate::walker::hidden_name_exec(name.as_str()))
                        && !self.custom_ignore.should_ignore_dir(full.as_str())
                        && !crate::walker::layers_exclude_exec(layers, full.as_str(), name.as_str(), true);
                    proof {
                        assert(admitted == crate::walker::admit_dir(p, l2, base@ + seq!['/'] + name@, name@));
                    }
                    if admitted {
                        let relp = crate::strutil::str_concat(rel_prefix, name.as_str());
                        out.push((relp, crate::walker::WalkItemKind::Dir));
                        let mut rel2 = crate::strutil::str_concat(rel_prefix, name.as_str());
                        rel2.append("/");
                        proof {
                            reveal_strlit("/");
                            assert("/"@ =~= seq!['/']);
                            assert(rel2@ =~= rel_prefix@ + (name@ + seq!['/']));
                            assert(decreases_to!(*dir => dir.entries));
                            assert(decreases_to!(dir.entries => dir.entries@[k as int]));
                            assert(decreases_to!(dir.entries@[k as int] => *d));
                        }
                        let ghost mid = out@.map_values(|q: (String, crate::walker::WalkItemKind)| crate::walker::pair_view(q));
                        match self.walk_into(d, full.as_str(), rel2.as_str(), layers, out) {
                            Ok(_) => {
                                proof {
                                    let sub = crate::walker::spec_walk_dir(p, *d, base@ + seq!['/'] + name@, l2);
                                    assert(mid =~= out_before.push((rel_prefix@ + name@, crate::walker::WalkItemKind::Dir)));
                                    assert(out@.map_values(|q: (String, crate::walker::WalkItemKind)| crate::walker::pair_view(q))
                                        =~= mid + crate::walker::prefix_pairs(rel2@, sub));
                                    crate::walker::lemma_prefix_pairs_compose(rel_prefix@, name@ + seq!['/'], sub);
                                    assert(crate::walker::spec_walk_list(p, entries_g, rest_ints, base@, l2)
                                        == seq![(name@, crate::walker::WalkItemKind::Dir)] + crate::walker::prefix_pairs(
                                        name@ + seq!['/'],
                                        sub,
                                    ) + crate::walker::spec_walk_list(
                                        p,
                                        entries_g,
                                        ints.skip(t as int + 1),
                                        base@,
                                        l2,
                                    ));
                                    assert(crate::walker::prefix_pairs(rel_prefix@, crate::walker::spec_walk_list(p, entries_g, rest_ints, base@, l2))
                                        =~= seq![(rel_prefix@ + name@, crate::walker::WalkItemKind::Dir)] + crate::walker::prefix_pairs(
                                        rel_prefix@,
                                        crate::walker::prefix_pairs(name@ + seq!['/'], sub),
                                    ) + crate::walker::prefix_pairs(
                                        rel_prefix@,
                                        crate::walker::spec_walk_list(
                                            p,
                                            entries_g,
                                            ints.skip(t as int + 1),
                                            base@,
                                            l2,
                                        ),
                                    ));
                                    assert(crate::walker::spec_walk_list_ok(p, entries_g, rest_ints, base@, l2)
                                        == crate::walker::spec_walk_list_ok(
                                        p,
                                        entries_g,
                                        ints.skip(t as int + 1),
                                        base@,
                                        l2,
                                    ));
                                }
                            },
                            Err(e) => {
                                proof {
                                    assert(!crate::walker::spec_walk_ok(p, *d, base@ + seq!['/'] + name@, l2));
                                    assert(!crate::walker::spec_walk_list_ok(p, entries_g, rest_ints, base@, l2));
                                    assert(!crate::walker::spec_walk_list_ok(p, entries_g, ints, base@, l2));
                                    assert(!crate::walker::spec_walk_ok(p, *dir, base@, l0));
                                }
                                return Err(e);
                            },
                        }
                    } else {
                        proof {
                            assert(crate::walker::spec_walk_list(p, entries_g, rest_ints, base@, l2)
                                == crate::walker::spec_walk_list(p, entries_g, ints.skip(t as int + 1), base@, l2));
                            assert(crate::walker::spec_walk_list_ok(p, entries_g, rest_ints, base@, l2)
                                == crate::walker::spec_walk_list_ok(
                                p,
                                entries_g,
                                ints.skip(t as int + 1),
                                base@,
                                l2,
                            ));
                        }
                    }
                },
            }
            t = t + 1;
        }
        proof {
            assert(ints.skip(t as int).len() == 0);
            assert(crate::walker::spec_walk_list(p, entries_g, ints.skip(t as int), base@, l2)
                =~= Seq::<(Seq<char>, crate::walker::WalkItemKind)>::empty());
            assert(crate::walker::prefix_pairs(rel_prefix@, crate::walker::spec_walk_list(p, entries_g, ints.skip(t as int), base@, l2))
                =~= Seq::<(Seq<char>, crate::walker::WalkItemKind)>::empty());
            assert(out@.map_values(|q: (String, crate::walker::WalkItemKind)| crate::walker::pair_view(q)) =~= target);
            assert(crate::walker::spec_walk_list_ok(p, entries_g, ints.skip(t as int), base@, l2));
            assert(crate::walker::spec_walk_list_ok(p, entries_g, ints, base@, l2));
            assert(crate::walker::spec_walk_ok(p, *dir, base@, l0));
        }
        if !self.ignore_gitignore {
            let popped = layers.pop();
            proof {
                assert(layers@ =~= old(layers)@);
            }
        }
        Ok(())
    }
}
} // verus!
