use crate::ModKey;
use vstd::prelude::*;
use vstd::string::*;

verus! {

// ---------------------------------------------------------------------------
// Raw and provenanced trees
// ---------------------------------------------------------------------------

/// An immutable description of one filesystem entry belonging to a single
/// overlay source: a directory with named children, or a plain file.
#[derive(Debug, PartialEq, Eq)]
pub enum Node {
    Dir { name: String, children: Vec<Node> },
    File { name: String },
}

/// A node of the merged logical tree: like `Node`, but every file records
/// which source currently owns the path (its provenance).
#[derive(Debug, PartialEq, Eq)]
pub enum SourcedNode {
    Dir { name: String, children: Vec<SourcedNode> },
    File { name: String, source: ModKey },
}

/// Mathematical abstraction of a `Node`: names as character sequences,
/// children as a sequence.
pub enum NodeView {
    Dir { name: Seq<char>, children: Seq<NodeView> },
    File { name: Seq<char> },
}

/// Mathematical abstraction of a `SourcedNode`.
pub enum SourcedNodeView {
    Dir { name: Seq<char>, children: Seq<SourcedNodeView> },
    File { name: Seq<char>, source: ModKey },
}

pub open spec fn node_view(n: Node) -> NodeView
    decreases n, 0nat,
{
    match n {
        Node::Dir { name, children } => NodeView::Dir {
            name: name@,
            children: nodes_view(children@),
        },
        Node::File { name } => NodeView::File { name: name@ },
    }
}

pub open spec fn nodes_view(cs: Seq<Node>) -> Seq<NodeView>
    decreases cs, 1nat,
{
    if cs.len() == 0 {
        Seq::empty()
    } else {
        seq![node_view(cs[0])] + nodes_view(cs.skip(1))
    }
}

pub open spec fn sourced_view(n: SourcedNode) -> SourcedNodeView
    decreases n, 0nat,
{
    match n {
        SourcedNode::Dir { name, children } => SourcedNodeView::Dir {
            name: name@,
            children: sourced_views(children@),
        },
        SourcedNode::File { name, source } => SourcedNodeView::File { name: name@, source },
    }
}

pub open spec fn sourced_views(cs: Seq<SourcedNode>) -> Seq<SourcedNodeView>
    decreases cs, 1nat,
{
    if cs.len() == 0 {
        Seq::empty()
    } else {
        seq![sourced_view(cs[0])] + sourced_views(cs.skip(1))
    }
}

impl NodeView {
    pub open spec fn name(self) -> Seq<char> {
        match self {
            NodeView::Dir { name, .. } => name,
            NodeView::File { name } => name,
        }
    }

    /// Well-formed: at every level the child names are distinct.
    pub open spec fn wf(self) -> bool
        decreases self,
    {
        match self {
            NodeView::File { .. } => true,
            NodeView::Dir { children, .. } => {
                &&& forall|i: int, j: int|
                    0 <= i < j < children.len() ==> children[i].name() != children[j].name()
                &&& forall|i: int| 0 <= i < children.len() ==> (#[trigger] children[i]).wf()
            },
        }
    }
}

impl SourcedNodeView {
    pub open spec fn name(self) -> Seq<char> {
        match self {
            SourcedNodeView::Dir { name, .. } => name,
            SourcedNodeView::File { name, .. } => name,
        }
    }

    pub open spec fn wf(self) -> bool
        decreases self,
    {
        match self {
            SourcedNodeView::File { .. } => true,
            SourcedNodeView::Dir { children, .. } => {
                &&& forall|i: int, j: int|
                    0 <= i < j < children.len() ==> children[i].name() != children[j].name()
                &&& forall|i: int| 0 <= i < children.len() ==> (#[trigger] children[i]).wf()
            },
        }
    }
}

/// Index of the first child with the given name, or `cs.len()` if absent.
pub open spec fn find_index(cs: Seq<SourcedNodeView>, name: Seq<char>) -> int
    decreases cs.len(),
{
    if cs.len() == 0 {
        0
    } else if cs[0].name() == name {
        0
    } else {
        1 + find_index(cs.skip(1), name)
    }
}

/// The first child with the given name, if any.
pub open spec fn find_child(cs: Seq<SourcedNodeView>, name: Seq<char>) -> Option<SourcedNodeView> {
    let i = find_index(cs, name);
    if i < cs.len() {
        Some(cs[i])
    } else {
        None
    }
}

pub proof fn lemma_find_index(cs: Seq<SourcedNodeView>, name: Seq<char>)
    ensures
        0 <= find_index(cs, name) <= cs.len(),
        find_index(cs, name) < cs.len() ==> cs[find_index(cs, name)].name() == name,
        forall|k: int| 0 <= k < find_index(cs, name) ==> cs[k].name() != name,
    decreases cs.len(),
{
    if cs.len() != 0 && cs[0].name() != name {
        lemma_find_index(cs.skip(1), name);
        assert forall|k: int| 0 <= k < find_index(cs, name) implies cs[k].name() != name by {
            if k > 0 {
                assert(cs.skip(1)[k - 1] == cs[k]);
            }
        }
    }
}

// ---------------------------------------------------------------------------
// Merge: fold raw source trees into one provenanced tree
// ---------------------------------------------------------------------------

/// A fresh provenanced copy of a raw tree: same shape, every file tagged
/// with the given source.
pub open spec fn provenanced(n: NodeView, source: ModKey) -> SourcedNodeView
    decreases n, 0nat,
{
    match n {
        NodeView::File { name } => SourcedNodeView::File { name, source },
        NodeView::Dir { name, children } => SourcedNodeView::Dir {
            name,
            children: provenanced_children(children, source),
        },
    }
}

pub open spec fn provenanced_children(cs: Seq<NodeView>, source: ModKey) -> Seq<SourcedNodeView>
    decreases cs, 1nat,
{
    if cs.len() == 0 {
        Seq::empty()
    } else {
        seq![provenanced(cs[0], source)] + provenanced_children(cs.skip(1), source)
    }
}

/// One source tree written over an accumulator tree: directories merge
/// child by child, a file over a file is replaced (last writer wins), and
/// a type mismatch leaves the accumulator unchanged.
pub open spec fn overwritten(acc: SourcedNodeView, n: NodeView, source: ModKey) -> SourcedNodeView
    decreases n, 0nat,
{
    match (acc, n) {
        (SourcedNodeView::Dir { name, children }, NodeView::Dir { children: inc, .. }) => SourcedNodeView::Dir {
            name,
            children: merge_children(children, inc, source),
        },
        (SourcedNodeView::File { .. }, NodeView::File { .. }) => provenanced(n, source),
        _ => acc,
    }
}

/// One incoming child merged into an accumulator's child list: merged into
/// the first child of the same name, or appended as a fresh copy.
pub open spec fn merge_child(
    acc: Seq<SourcedNodeView>,
    inc: NodeView,
    source: ModKey,
) -> Seq<SourcedNodeView>
    decreases inc, 1nat,
{
    let i = find_index(acc, inc.name());
    if i < acc.len() {
        acc.update(i, overwritten(acc[i], inc, source))
    } else {
        acc.push(provenanced(inc, source))
    }
}

/// All incoming children merged into an accumulator's child list, in order.
pub open spec fn merge_children(
    acc: Seq<SourcedNodeView>,
    inc: Seq<NodeView>,
    source: ModKey,
) -> Seq<SourcedNodeView>
    decreases inc, 2nat,
{
    if inc.len() == 0 {
        acc
    } else {
        merge_children(merge_child(acc, inc[0], source), inc.skip(1), source)
    }
}

pub proof fn lemma_nodes_view(cs: Seq<Node>)
    ensures
        nodes_view(cs).len() == cs.len(),
        forall|i: int| 0 <= i < cs.len() ==> nodes_view(cs)[i] == node_view(cs[i]),
    decreases cs,
{
    if cs.len() != 0 {
        lemma_nodes_view(cs.skip(1));
        assert forall|i: int| 0 <= i < cs.len() implies nodes_view(cs)[i] == node_view(cs[i]) by {
            if i > 0 {
                assert(cs.skip(1)[i - 1] == cs[i]);
            }
        }
    }
}

pub proof fn lemma_sourced_views(cs: Seq<SourcedNode>)
    ensures
        sourced_views(cs).len() == cs.len(),
        forall|i: int| 0 <= i < cs.len() ==> sourced_views(cs)[i] == sourced_view(cs[i]),
    decreases cs,
{
    if cs.len() != 0 {
        lemma_sourced_views(cs.skip(1));
        assert forall|i: int| 0 <= i < cs.len() implies sourced_views(cs)[i] == sourced_view(cs[i]) by {
            if i > 0 {
                assert(cs.skip(1)[i - 1] == cs[i]);
            }
        }
    }
}

pub proof fn lemma_provenanced_children(cs: Seq<NodeView>, source: ModKey)
    ensures
        provenanced_children(cs, source).len() == cs.len(),
        forall|i: int|
            0 <= i < cs.len() ==> provenanced_children(cs, source)[i] == provenanced(cs[i], source),
    decreases cs,
{
    if cs.len() != 0 {
        lemma_provenanced_children(cs.skip(1), source);
        assert forall|i: int|
            0 <= i < cs.len() implies provenanced_children(cs, source)[i] == provenanced(
            cs[i],
            source,
        ) by {
            if i > 0 {
                assert(cs.skip(1)[i - 1] == cs[i]);
            }
        }
    }
}

/// The first name match at a known position pins down `find_index`.
pub proof fn lemma_find_index_is(cs: Seq<SourcedNodeView>, name: Seq<char>, j: int)
    requires
        0 <= j <= cs.len(),
        forall|k: int| 0 <= k < j ==> cs[k].name() != name,
        j < cs.len() ==> cs[j].name() == name,
    ensures
        find_index(cs, name) == j,
    decreases cs.len(),
{
    if cs.len() == 0 {
    } else if cs[0].name() == name {
        assert(j == 0);
    } else {
        assert(j >= 1);
        assert forall|k: int| 0 <= k < j - 1 implies cs.skip(1)[k].name() != name by {
            assert(cs.skip(1)[k] == cs[k + 1]);
        }
        if j - 1 < cs.len() - 1 {
            assert(cs.skip(1)[j - 1] == cs[j]);
        }
        lemma_find_index_is(cs.skip(1), name, j - 1);
    }
}

/// The logical path of a child entry: parent path, a slash, the child name.
pub open spec fn child_path(path: Seq<char>, name: Seq<char>) -> Seq<char> {
    path + seq!['/'] + name
}

/// Index of the first raw child with the given name, or `cs.len()`.
pub open spec fn find_raw_index(cs: Seq<NodeView>, name: Seq<char>) -> int
    decreases cs.len(),
{
    if cs.len() == 0 {
        0
    } else if cs[0].name() == name {
        0
    } else {
        1 + find_raw_index(cs.skip(1), name)
    }
}

/// The first raw child with the given name, if any.
pub open spec fn find_raw(cs: Seq<NodeView>, name: Seq<char>) -> Option<NodeView> {
    let i = find_raw_index(cs, name);
    if i < cs.len() {
        Some(cs[i])
    } else {
        None
    }
}

pub proof fn lemma_find_raw_index(cs: Seq<NodeView>, name: Seq<char>)
    ensures
        0 <= find_raw_index(cs, name) <= cs.len(),
        find_raw_index(cs, name) < cs.len() ==> cs[find_raw_index(cs, name)].name() == name,
        forall|k: int| 0 <= k < find_raw_index(cs, name) ==> cs[k].name() != name,
    decreases cs.len(),
{
    if cs.len() != 0 && cs[0].name() != name {
        lemma_find_raw_index(cs.skip(1), name);
        assert forall|k: int| 0 <= k < find_raw_index(cs, name) implies cs[k].name() != name by {
            if k > 0 {
                assert(cs.skip(1)[k - 1] == cs[k]);
            }
        }
    }
}

pub proof fn lemma_provenanced_name(n: NodeView, source: ModKey)
    ensures
        provenanced(n, source).name() == n.name(),
{
}

pub proof fn lemma_overwritten_name(a: SourcedNodeView, n: NodeView, source: ModKey)
    ensures
        a.name() == n.name() ==> overwritten(a, n, source).name() == a.name(),
{
    lemma_provenanced_name(n, source);
}

/// How one merged-in child shows up under name lookup: the incoming name
/// is found merged or freshly provenanced; every other name is untouched.
pub proof fn lemma_merge_child_find(
    acc: Seq<SourcedNodeView>,
    inc: NodeView,
    source: ModKey,
    name: Seq<char>,
)
    ensures
        find_child(merge_child(acc, inc, source), name) == (if name == inc.name() {
            match find_child(acc, name) {
                Some(a) => Some(overwritten(a, inc, source)),
                None => Some(provenanced(inc, source)),
            }
        } else {
            find_child(acc, name)
        }),
{
    lemma_find_index(acc, inc.name());
    lemma_find_index(acc, name);
    lemma_provenanced_name(inc, source);
    let i = find_index(acc, inc.name());
    let fi = find_index(acc, name);
    if i < acc.len() {
        let m2 = acc.update(i, overwritten(acc[i], inc, source));
        lemma_overwritten_name(acc[i], inc, source);
        assert forall|k: int| 0 <= k < m2.len() implies m2[k].name() == acc[k].name() by {
            if k != i {
                assert(m2[k] == acc[k]);
            }
        }
        lemma_find_index_is(m2, name, fi);
    } else {
        let m2 = acc.push(provenanced(inc, source));
        if name == inc.name() {
            lemma_find_index_is(m2, name, acc.len() as int);
        } else {
            if fi < acc.len() {
                lemma_find_index_is(m2, name, fi);
            } else {
                lemma_find_index_is(m2, name, m2.len() as int);
            }
        }
    }
}

/// How a whole merged-in child list shows up under name lookup, provided
/// the incoming names are distinct.
pub proof fn lemma_merge_children_find(
    acc: Seq<SourcedNodeView>,
    inc: Seq<NodeView>,
    source: ModKey,
    name: Seq<char>,
)
    requires
        forall|i: int, j: int| 0 <= i < j < inc.len() ==> inc[i].name() != inc[j].name(),
    ensures
        find_child(merge_children(acc, inc, source), name) == (match find_raw(inc, name) {
            Some(n) => match find_child(acc, name) {
                Some(a) => Some(overwritten(a, n, source)),
                None => Some(provenanced(n, source)),
            },
            None => find_child(acc, name),
        }),
    decreases inc.len(),
{
    lemma_find_raw_index(inc, name);
    if inc.len() == 0 {
    } else {
        let acc2 = merge_child(acc, inc[0], source);
        lemma_merge_child_find(acc, inc[0], source, name);
        assert forall|i: int, j: int|
            0 <= i < j < inc.skip(1).len() implies inc.skip(1)[i].name() != inc.skip(
            1,
        )[j].name() by {
            assert(inc.skip(1)[i] == inc[i + 1]);
            assert(inc.skip(1)[j] == inc[j + 1]);
        }
        lemma_merge_children_find(acc2, inc.skip(1), source, name);
        lemma_find_raw_index(inc.skip(1), name);
        if inc[0].name() == name {
            assert forall|k: int| 0 <= k < inc.skip(1).len() implies inc.skip(1)[k].name()
                != name by {
                assert(inc.skip(1)[k] == inc[k + 1]);
            }
            assert(find_raw(inc.skip(1), name) is None);
            assert(find_raw(inc, name) == Some(inc[0]));
        } else {
            assert(find_raw_index(inc, name) == 1 + find_raw_index(inc.skip(1), name));
            if find_raw_index(inc.skip(1), name) < inc.skip(1).len() {
                assert(find_raw(inc, name) == Some(inc[find_raw_index(inc, name)]));
                assert(inc.skip(1)[find_raw_index(inc.skip(1), name)] == inc[find_raw_index(
                    inc,
                    name,
                )]);
            }
        }
    }
}

/// A fresh provenanced copy of a well-formed raw tree is well-formed.
pub proof fn lemma_provenanced_wf(n: NodeView, source: ModKey)
    requires
        n.wf(),
    ensures
        provenanced(n, source).wf(),
    decreases n, 0nat,
{
    match n {
        NodeView::File { .. } => {
        },
        NodeView::Dir { children, .. } => {
            lemma_provenanced_children(children, source);
            let pc = provenanced_children(children, source);
            assert forall|i: int, j: int| 0 <= i < j < pc.len() implies pc[i].name()
                != pc[j].name() by {
                lemma_provenanced_name(children[i], source);
                lemma_provenanced_name(children[j], source);
            }
            assert forall|i: int| 0 <= i < pc.len() implies (#[trigger] pc[i]).wf() by {
                lemma_provenanced_wf(children[i], source);
            }
        },
    }
}

/// One merged-in child keeps the accumulator's child list well-formed:
/// names stay distinct and every child stays well-formed.
pub proof fn lemma_merge_child_wf(acc: Seq<SourcedNodeView>, inc: NodeView, source: ModKey)
    requires
        forall|a: int, b: int| 0 <= a < b < acc.len() ==> acc[a].name() != acc[b].name(),
        forall|i: int| 0 <= i < acc.len() ==> (#[trigger] acc[i]).wf(),
        inc.wf(),
    ensures
        ({
            let r = merge_child(acc, inc, source);
            &&& forall|a: int, b: int| 0 <= a < b < r.len() ==> r[a].name() != r[b].name()
            &&& forall|i: int| 0 <= i < r.len() ==> (#[trigger] r[i]).wf()
        }),
    decreases inc, 1nat,
{
    let i = find_index(acc, inc.name());
    lemma_find_index(acc, inc.name());
    let r = merge_child(acc, inc, source);
    if i < acc.len() {
        lemma_overwritten_wf(acc[i], inc, source);
        lemma_overwritten_name(acc[i], inc, source);
        assert forall|a: int, b: int| 0 <= a < b < r.len() implies r[a].name() != r[b].name() by {
            if a != i {
                assert(r[a] == acc[a]);
            }
            if b != i {
                assert(r[b] == acc[b]);
            }
        }
    } else {
        lemma_provenanced_wf(inc, source);
        lemma_provenanced_name(inc, source);
        assert forall|a: int, b: int| 0 <= a < b < r.len() implies r[a].name() != r[b].name() by {
            if b == acc.len() {
                assert(acc[a].name() != inc.name());
            }
        }
    }
}

/// A whole merged-in child list keeps the accumulator well-formed.
pub proof fn lemma_merge_children_wf(
    acc: Seq<SourcedNodeView>,
    incs: Seq<NodeView>,
    source: ModKey,
)
    requires
        forall|a: int, b: int| 0 <= a < b < acc.len() ==> acc[a].name() != acc[b].name(),
        forall|i: int| 0 <= i < acc.len() ==> (#[trigger] acc[i]).wf(),
        forall|i: int| 0 <= i < incs.len() ==> (#[trigger] incs[i]).wf(),
    ensures
        ({
            let r = merge_children(acc, incs, source);
            &&& forall|a: int, b: int| 0 <= a < b < r.len() ==> r[a].name() != r[b].name()
            &&& forall|i: int| 0 <= i < r.len() ==> (#[trigger] r[i]).wf()
        }),
    decreases incs, 2nat,
{
    if incs.len() == 0 {
        assert(merge_children(acc, incs, source) == acc);
    } else {
        lemma_merge_child_wf(acc, incs[0], source);
        assert forall|i: int| 0 <= i < incs.skip(1).len() implies (#[trigger] incs.skip(
            1,
        )[i]).wf() by {
            assert(incs.skip(1)[i] == incs[i + 1]);
        }
        lemma_merge_children_wf(merge_child(acc, incs[0], source), incs.skip(1), source);
        assert(merge_children(acc, incs, source) == merge_children(
            merge_child(acc, incs[0], source),
            incs.skip(1),
            source,
        ));
    }
}

/// Merging a well-formed raw tree over a well-formed accumulator yields
/// a well-formed tree: no merge ever duplicates a name.
pub proof fn lemma_overwritten_wf(acc: SourcedNodeView, n: NodeView, source: ModKey)
    requires
        acc.wf(),
        n.wf(),
    ensures
        overwritten(acc, n, source).wf(),
    decreases n, 0nat,
{
    match (acc, n) {
        (SourcedNodeView::Dir { name, children }, NodeView::Dir { children: inc, .. }) => {
            lemma_merge_children_wf(children, inc, source);
            let oc = merge_children(children, inc, source);
            assert(overwritten(acc, n, source) == (SourcedNodeView::Dir { name, children: oc }));
            assert(forall|a: int, b: int| 0 <= a < b < oc.len() ==> oc[a].name() != oc[b].name());
            assert(forall|i: int| 0 <= i < oc.len() ==> (#[trigger] oc[i]).wf());
        },
        (SourcedNodeView::File { .. }, NodeView::File { .. }) => {
            lemma_provenanced_wf(n, source);
        },
        _ => {
        },
    }
}

/// The tree is a directory with distinct child names that holds a file
/// named `x` at its top level.
pub open spec fn top_level_file(t: NodeView, x: Seq<char>) -> bool {
    &&& t is Dir
    &&& forall|i: int, j: int|
        0 <= i < j < t->Dir_children.len() ==> t->Dir_children[i].name()
            != t->Dir_children[j].name()
    &&& find_raw(t->Dir_children, x) matches Some(f) && f is File
}

/// Priority correctness: when two sources both provide a file of one name
/// at the top level, and the deployment they are merged onto does not hold
/// a directory of that name, the source merged later (higher priority)
/// owns the file in the merged tree.
pub proof fn lemma_priority(
    acc: SourcedNodeView,
    ta: NodeView,
    tb: NodeView,
    ka: ModKey,
    kb: ModKey,
    x: Seq<char>,
)
    requires
        acc is Dir,
        ta is Dir,
        tb is Dir,
        forall|i: int, j: int|
            0 <= i < j < ta->Dir_children.len() ==> ta->Dir_children[i].name()
                != ta->Dir_children[j].name(),
        forall|i: int, j: int|
            0 <= i < j < tb->Dir_children.len() ==> tb->Dir_children[i].name()
                != tb->Dir_children[j].name(),
        find_raw(ta->Dir_children, x) matches Some(f) && f is File,
        find_raw(tb->Dir_children, x) matches Some(g) && g is File,
        match find_child(acc->Dir_children, x) {
            Some(a) => a is File,
            None => true,
        },
    ensures
        ({
            let m = overwritten(overwritten(acc, ta, ka), tb, kb);
            &&& m is Dir
            &&& find_child(m->Dir_children, x) == Some(
                SourcedNodeView::File { name: x, source: kb },
            )
        }),
{
    let f = find_raw(ta->Dir_children, x)->0;
    let g = find_raw(tb->Dir_children, x)->0;
    lemma_find_raw_index(ta->Dir_children, x);
    lemma_find_raw_index(tb->Dir_children, x);
    let m1 = overwritten(acc, ta, ka);
    lemma_merge_children_find(acc->Dir_children, ta->Dir_children, ka, x);
    let h = find_child(m1->Dir_children, x)->0;
    assert(h == SourcedNodeView::File { name: x, source: ka });
    lemma_merge_children_find(m1->Dir_children, tb->Dir_children, kb, x);
}

/// No difference, no operations: diffing any well-formed tree against
/// itself yields the empty operation list.
pub proof fn lemma_diff_self(t: SourcedNodeView, path: Seq<char>)
    requires
        t.wf(),
    ensures
        diff_ops(t, t, path) == Seq::<OpView>::empty(),
    decreases t, 0nat,
{
    match t {
        SourcedNodeView::File { .. } => {
        },
        SourcedNodeView::Dir { children, .. } => {
            lemma_diff_old_children_self(children, children, path);
            lemma_diff_new_children_self(children, children, path);
            assert(diff_ops(t, t, path) =~= Seq::<OpView>::empty());
        },
    }
}

proof fn lemma_diff_old_children_self(
    cs: Seq<SourcedNodeView>,
    full: Seq<SourcedNodeView>,
    path: Seq<char>,
)
    requires
        forall|a: int, b: int| 0 <= a < b < full.len() ==> full[a].name() != full[b].name(),
        forall|i: int| 0 <= i < full.len() ==> (#[trigger] full[i]).wf(),
        forall|i: int| 0 <= i < cs.len() ==> full.contains(#[trigger] cs[i]),
    ensures
        diff_old_children(cs, full, path) == Seq::<OpView>::empty(),
    decreases cs, 1nat,
{
    if cs.len() != 0 {
        let o = cs[0];
        let w = choose|w: int| 0 <= w < full.len() && full[w] == o;
        lemma_find_index(full, o.name());
        assert(find_index(full, o.name()) < full.len());
        let fi = find_index(full, o.name());
        assert(full[fi] == o) by {
            if fi != w {
                assert(full[fi].name() == full[w].name());
            }
        }
        assert(o.wf()) by {
            assert(full[w].wf());
        }
        lemma_diff_self(o, child_path(path, o.name()));
        assert forall|i: int| 0 <= i < cs.skip(1).len() implies full.contains(
            #[trigger] cs.skip(1)[i],
        ) by {
            assert(cs.skip(1)[i] == cs[i + 1]);
        }
        lemma_diff_old_children_self(cs.skip(1), full, path);
        assert(diff_old_children(cs, full, path) =~= Seq::<OpView>::empty());
    }
}

proof fn lemma_diff_new_children_self(
    cs: Seq<SourcedNodeView>,
    full: Seq<SourcedNodeView>,
    path: Seq<char>,
)
    requires
        forall|i: int| 0 <= i < cs.len() ==> full.contains(#[trigger] cs[i]),
    ensures
        diff_new_children(full, cs, path) == Seq::<OpView>::empty(),
    decreases cs,
{
    if cs.len() != 0 {
        let n = cs[0];
        let w = choose|w: int| 0 <= w < full.len() && full[w] == n;
        lemma_find_index(full, n.name());
        assert(find_index(full, n.name()) < full.len()) by {
            if find_index(full, n.name()) == full.len() {
                assert(full[w].name() != n.name());
            }
        }
        assert forall|i: int| 0 <= i < cs.skip(1).len() implies full.contains(
            #[trigger] cs.skip(1)[i],
        ) by {
            assert(cs.skip(1)[i] == cs[i + 1]);
        }
        lemma_diff_new_children_self(cs.skip(1), full, path);
        assert(diff_new_children(full, cs, path) =~= Seq::<OpView>::empty());
    }
}

// ---------------------------------------------------------------------------
// The diff of flat trees, operation by operation
// ---------------------------------------------------------------------------

/// Whether every entry of a child list is a file.
pub open spec fn all_files(cs: Seq<SourcedNodeView>) -> bool {
    forall|i: int| 0 <= i < cs.len() ==> (#[trigger] cs[i]) is File
}

/// A child path names its child: for one parent path, different names
/// give different child paths.
pub proof fn lemma_child_path_injective(path: Seq<char>, n1: Seq<char>, n2: Seq<char>)
    ensures
        child_path(path, n1) == child_path(path, n2) ==> n1 == n2,
{
    if child_path(path, n1) == child_path(path, n2) {
        assert(seq!['/'].len() == 1);
        assert(child_path(path, n1).len() == path.len() + 1 + n1.len());
        assert(child_path(path, n2).len() == path.len() + 1 + n2.len());
        assert(n1.len() == n2.len());
        assert forall|k: int| 0 <= k < n1.len() implies n1[k] == n2[k] by {
            assert(child_path(path, n1)[path.len() + 1 + k] == n1[k]);
            assert(child_path(path, n2)[path.len() + 1 + k] == n2[k]);
        }
        assert(n1 =~= n2);
    }
}

/// The operation the first diff pass emits for the old file `o`: removal
/// when the new tree dropped the name, a provenance change when it kept
/// it under a different source, nothing when nothing changed.
pub open spec fn flat_old_op(
    o: SourcedNodeView,
    newcs: Seq<SourcedNodeView>,
    path: Seq<char>,
) -> Option<OpView> {
    match find_child(newcs, o.name()) {
        Some(w) => {
            if o->File_source != w->File_source {
                Some(
                    OpView {
                        path: child_path(path, o.name()),
                        kind: OperationKind::ChangeSource(w->File_source),
                    },
                )
            } else {
                None
            }
        },
        None => Some(
            OpView { path: child_path(path, o.name()), kind: OperationKind::RemoveFile },
        ),
    }
}

/// The operation the second diff pass emits for the new file `w`: a
/// creation exactly when the old tree lacked the name.
pub open spec fn flat_new_op(
    oldcs: Seq<SourcedNodeView>,
    w: SourcedNodeView,
    path: Seq<char>,
) -> Option<OpView> {
    if find_child(oldcs, w.name()) is Some {
        None
    } else {
        Some(
            OpView {
                path: child_path(path, w.name()),
                kind: OperationKind::CreateFile(w->File_source),
            },
        )
    }
}

/// For flat trees the first diff pass is exactly one `flat_old_op` per
/// old child that asks for one, at pairwise distinct paths.
pub proof fn lemma_flat_old_pass(
    oldcs: Seq<SourcedNodeView>,
    newcs: Seq<SourcedNodeView>,
    path: Seq<char>,
)
    requires
        all_files(oldcs),
        all_files(newcs),
        forall|a: int, b: int| 0 <= a < b < oldcs.len() ==> oldcs[a].name() != oldcs[b].name(),
    ensures
        ({
            let ops = diff_old_children(oldcs, newcs, path);
            &&& forall|idx: int|
                0 <= idx < ops.len() ==> exists|i: int|
                    0 <= i < oldcs.len() && Some(#[trigger] ops[idx]) == flat_old_op(
                        oldcs[i],
                        newcs,
                        path,
                    )
            &&& forall|i: int|
                0 <= i < oldcs.len() && flat_old_op(#[trigger] oldcs[i], newcs, path) is Some
                    ==> ops.contains(flat_old_op(oldcs[i], newcs, path)->0)
            &&& forall|idx1: int, idx2: int|
                0 <= idx1 < idx2 < ops.len() ==> ops[idx1].path != ops[idx2].path
        }),
    decreases oldcs.len(),
{
    let ops = diff_old_children(oldcs, newcs, path);
    if oldcs.len() != 0 {
        let o = oldcs[0];
        let p0 = child_path(path, o.name());
        lemma_find_index(newcs, o.name());
        let block = match find_child(newcs, o.name()) {
            Some(n) => diff_ops(o, n, p0),
            None => remove_ops(o, p0),
        };
        assert(match flat_old_op(o, newcs, path) {
            Some(op) => block == seq![op],
            None => block == Seq::<OpView>::empty(),
        });
        assert forall|a: int, b: int|
            0 <= a < b < oldcs.skip(1).len() implies oldcs.skip(1)[a].name() != oldcs.skip(
            1,
        )[b].name() by {
            assert(oldcs.skip(1)[a] == oldcs[a + 1]);
            assert(oldcs.skip(1)[b] == oldcs[b + 1]);
        }
        assert(all_files(oldcs.skip(1))) by {
            assert forall|i: int| 0 <= i < oldcs.skip(1).len() implies (#[trigger] oldcs.skip(
                1,
            )[i]) is File by {
                assert(oldcs.skip(1)[i] == oldcs[i + 1]);
            }
        }
        lemma_flat_old_pass(oldcs.skip(1), newcs, path);
        let rest = diff_old_children(oldcs.skip(1), newcs, path);
        assert(ops == block + rest);
        assert forall|idx: int| 0 <= idx < ops.len() implies exists|i: int|
            0 <= i < oldcs.len() && Some(#[trigger] ops[idx]) == flat_old_op(
                oldcs[i],
                newcs,
                path,
            ) by {
            if idx < block.len() {
                assert(Some(ops[idx]) == flat_old_op(oldcs[0], newcs, path));
            } else {
                let i = choose|i: int|
                    0 <= i < oldcs.skip(1).len() && Some(rest[idx - block.len()]) == flat_old_op(
                        oldcs.skip(1)[i],
                        newcs,
                        path,
                    );
                assert(oldcs.skip(1)[i] == oldcs[i + 1]);
                assert(Some(ops[idx]) == flat_old_op(oldcs[i + 1], newcs, path));
            }
        }
        assert forall|i: int|
            0 <= i < oldcs.len() && flat_old_op(#[trigger] oldcs[i], newcs, path) is Some implies ops.contains(
            flat_old_op(oldcs[i], newcs, path)->0,
        ) by {
            if i == 0 {
                assert(ops[0] == flat_old_op(oldcs[0], newcs, path)->0);
            } else {
                assert(oldcs.skip(1)[i - 1] == oldcs[i]);
                assert(rest.contains(flat_old_op(oldcs[i], newcs, path)->0));
                let w = choose|w: int|
                    0 <= w < rest.len() && rest[w] == flat_old_op(oldcs[i], newcs, path)->0;
                assert(ops[block.len() + w] == rest[w]);
            }
        }
        assert forall|idx1: int, idx2: int|
            0 <= idx1 < idx2 < ops.len() implies ops[idx1].path != ops[idx2].path by {
            if idx1 < block.len() && idx2 >= block.len() {
                let i = choose|i: int|
                    0 <= i < oldcs.skip(1).len() && Some(rest[idx2 - block.len()]) == flat_old_op(
                        oldcs.skip(1)[i],
                        newcs,
                        path,
                    );
                assert(oldcs.skip(1)[i] == oldcs[i + 1]);
                assert(ops[idx2].path == child_path(path, oldcs[i + 1].name()));
                assert(ops[idx1].path == child_path(path, oldcs[0].name()));
                lemma_child_path_injective(path, oldcs[0].name(), oldcs[i + 1].name());
            } else if idx1 >= block.len() {
                assert(ops[idx1] == rest[idx1 - block.len()]);
                assert(ops[idx2] == rest[idx2 - block.len()]);
            }
        }
    }
}

/// For flat trees the second diff pass is exactly one `flat_new_op` per
/// new child that asks for one, at pairwise distinct paths.
pub proof fn lemma_flat_new_pass(
    oldcs: Seq<SourcedNodeView>,
    newcs: Seq<SourcedNodeView>,
    path: Seq<char>,
)
    requires
        all_files(newcs),
        forall|a: int, b: int| 0 <= a < b < newcs.len() ==> newcs[a].name() != newcs[b].name(),
    ensures
        ({
            let ops = diff_new_children(oldcs, newcs, path);
            &&& forall|idx: int|
                0 <= idx < ops.len() ==> exists|i: int|
                    0 <= i < newcs.len() && Some(#[trigger] ops[idx]) == flat_new_op(
                        oldcs,
                        newcs[i],
                        path,
                    )
            &&& forall|i: int|
                0 <= i < newcs.len() && flat_new_op(oldcs, #[trigger] newcs[i], path) is Some
                    ==> ops.contains(flat_new_op(oldcs, newcs[i], path)->0)
            &&& forall|idx1: int, idx2: int|
                0 <= idx1 < idx2 < ops.len() ==> ops[idx1].path != ops[idx2].path
        }),
    decreases newcs.len(),
{
    let ops = diff_new_children(oldcs, newcs, path);
    if newcs.len() != 0 {
        let w = newcs[0];
        let p0 = child_path(path, w.name());
        lemma_find_index(oldcs, w.name());
        let block = match find_child(oldcs, w.name()) {
            Some(_) => Seq::<OpView>::empty(),
            None => create_ops(w, p0),
        };
        assert(match flat_new_op(oldcs, w, path) {
            Some(op) => block == seq![op],
            None => block == Seq::<OpView>::empty(),
        });
        assert forall|a: int, b: int|
            0 <= a < b < newcs.skip(1).len() implies newcs.skip(1)[a].name() != newcs.skip(
            1,
        )[b].name() by {
            assert(newcs.skip(1)[a] == newcs[a + 1]);
            assert(newcs.skip(1)[b] == newcs[b + 1]);
        }
        assert(all_files(newcs.skip(1))) by {
            assert forall|i: int| 0 <= i < newcs.skip(1).len() implies (#[trigger] newcs.skip(
                1,
            )[i]) is File by {
                assert(newcs.skip(1)[i] == newcs[i + 1]);
            }
        }
        lemma_flat_new_pass(oldcs, newcs.skip(1), path);
        let rest = diff_new_children(oldcs, newcs.skip(1), path);
        assert(ops == block + rest);
        assert forall|idx: int| 0 <= idx < ops.len() implies exists|i: int|
            0 <= i < newcs.len() && Some(#[trigger] ops[idx]) == flat_new_op(
                oldcs,
                newcs[i],
                path,
            ) by {
            if idx < block.len() {
                assert(Some(ops[idx]) == flat_new_op(oldcs, newcs[0], path));
            } else {
                let i = choose|i: int|
                    0 <= i < newcs.skip(1).len() && Some(rest[idx - block.len()]) == flat_new_op(
                        oldcs,
                        newcs.skip(1)[i],
                        path,
                    );
                assert(newcs.skip(1)[i] == newcs[i + 1]);
                assert(Some(ops[idx]) == flat_new_op(oldcs, newcs[i + 1], path));
            }
        }
        assert forall|i: int|
            0 <= i < newcs.len() && flat_new_op(oldcs, #[trigger] newcs[i], path) is Some implies ops.contains(
            flat_new_op(oldcs, newcs[i], path)->0,
        ) by {
            if i == 0 {
                assert(ops[0] == flat_new_op(oldcs, newcs[0], path)->0);
            } else {
                assert(newcs.skip(1)[i - 1] == newcs[i]);
                assert(rest.contains(flat_new_op(oldcs, newcs[i], path)->0));
                let w2 = choose|w2: int|
                    0 <= w2 < rest.len() && rest[w2] == flat_new_op(oldcs, newcs[i], path)->0;
                assert(ops[block.len() + w2] == rest[w2]);
            }
        }
        assert forall|idx1: int, idx2: int|
            0 <= idx1 < idx2 < ops.len() implies ops[idx1].path != ops[idx2].path by {
            if idx1 < block.len() && idx2 >= block.len() {
                let i = choose|i: int|
                    0 <= i < newcs.skip(1).len() && Some(rest[idx2 - block.len()]) == flat_new_op(
                        oldcs,
                        newcs.skip(1)[i],
                        path,
                    );
                assert(newcs.skip(1)[i] == newcs[i + 1]);
                assert(ops[idx2].path == child_path(path, newcs[i + 1].name()));
                assert(ops[idx1].path == child_path(path, newcs[0].name()));
                lemma_child_path_injective(path, newcs[0].name(), newcs[i + 1].name());
            } else if idx1 >= block.len() {
                assert(ops[idx1] == rest[idx1 - block.len()]);
                assert(ops[idx2] == rest[idx2 - block.len()]);
            }
        }
    }
}

// ---------------------------------------------------------------------------
// Ordering of removal operations
// ---------------------------------------------------------------------------

/// Whether `q` lies strictly inside the directory at `p`.
pub open spec fn path_under(q: Seq<char>, p: Seq<char>) -> bool {
    q.len() > p.len() && q.take(p.len() as int) == p && q[p.len() as int] == '/'
}

/// Whether `q` equals `p` or lies strictly inside the directory at `p`.
pub open spec fn at_or_under(q: Seq<char>, p: Seq<char>) -> bool {
    q == p || path_under(q, p)
}

/// All names in a tree are plain entry names: nonempty, no separator.
pub open spec fn clean_names(t: SourcedNodeView) -> bool
    decreases t,
{
    match t {
        SourcedNodeView::File { name, .. } => name.len() > 0 && !name.contains('/'),
        SourcedNodeView::Dir { name, children } => {
            &&& name.len() > 0
            &&& !name.contains('/')
            &&& forall|i: int| 0 <= i < children.len() ==> clean_names(#[trigger] children[i])
        },
    }
}

/// A path confined to a child entry lies strictly inside the parent.
proof fn lemma_child_confine(p: Seq<char>, n: Seq<char>, x: Seq<char>)
    requires
        at_or_under(x, child_path(p, n)),
    ensures
        path_under(x, p),
{
    let pc = child_path(p, n);
    assert(x.len() > p.len());
    assert forall|k: int| 0 <= k < p.len() + 1 implies x[k] == pc[k] by {
        if x != pc {
            assert(x.take(pc.len() as int)[k] == x[k]);
        }
    }
    assert(x.take(p.len() as int) =~= p);
    assert(pc[p.len() as int] == '/');
}

/// Two paths confined to differently named siblings cannot be nested:
/// the names would have to agree.
proof fn lemma_sibling_names(
    p: Seq<char>,
    na: Seq<char>,
    nb: Seq<char>,
    x: Seq<char>,
    q: Seq<char>,
)
    requires
        na.len() > 0,
        nb.len() > 0,
        !na.contains('/'),
        !nb.contains('/'),
        at_or_under(x, child_path(p, na)),
        at_or_under(q, child_path(p, nb)),
        path_under(x, q),
    ensures
        na == nb,
{
    let pa = child_path(p, na);
    let pb = child_path(p, nb);
    assert(x.len() >= pa.len());
    assert(x.len() > q.len() && q.len() >= pb.len());
    assert forall|k: int| 0 <= k < pa.len() implies x[k] == pa[k] by {
        if x != pa {
            assert(x.take(pa.len() as int)[k] == x[k]);
        }
    }
    assert forall|k: int| 0 <= k < q.len() implies x[k] == q[k] by {
        assert(x.take(q.len() as int)[k] == x[k]);
    }
    assert forall|k: int| 0 <= k < pb.len() implies q[k] == pb[k] by {
        if q != pb {
            assert(q.take(pb.len() as int)[k] == q[k]);
        }
    }
    assert(x[pb.len() as int] == '/') by {
        if q == pb {
            assert(x[q.len() as int] == '/');
        } else {
            assert(q[pb.len() as int] == '/');
        }
    }
    if na.len() < nb.len() {
        assert(x.len() > pa.len());
        assert(x[pa.len() as int] == '/');
        assert(pb[pa.len() as int] == nb[na.len() as int]);
        assert(nb[na.len() as int] == '/');
        assert(nb.contains('/'));
        assert(false);
    } else if nb.len() < na.len() {
        assert(pa[pb.len() as int] == na[nb.len() as int]);
        assert(x[pb.len() as int] == pa[pb.len() as int]);
        assert(na[nb.len() as int] == '/');
        assert(na.contains('/'));
        assert(false);
    } else {
        assert forall|k: int| 0 <= k < na.len() implies na[k] == nb[k] by {
            assert(pa[p.len() + 1 + k] == na[k]);
            assert(pb[p.len() + 1 + k] == nb[k]);
            assert(x[p.len() + 1 + k] == pa[p.len() + 1 + k]);
            assert(x[p.len() + 1 + k] == pb[p.len() + 1 + k]);
        }
        assert(na =~= nb);
    }
}

/// Directory removal ordering: every operation of a subtree removal stays
/// at or inside the removed root, and no operation that touches a
/// descendant of a directory comes after that directory's own removal —
/// files and subdirectories are gone before their parent is removed.
pub proof fn lemma_remove_ops_ordering(t: SourcedNodeView, path: Seq<char>)
    requires
        t.wf(),
        clean_names(t),
    ensures
        forall|i: int|
            0 <= i < remove_ops(t, path).len() ==> at_or_under(
                #[trigger] remove_ops(t, path)[i].path,
                path,
            ),
        forall|i: int, j: int|
            0 <= j <= i < remove_ops(t, path).len() && remove_ops(t, path)[j].kind
                is RemoveDir ==> !path_under(
                remove_ops(t, path)[i].path,
                remove_ops(t, path)[j].path,
            ),
    decreases t, 0nat,
{
    match t {
        SourcedNodeView::File { .. } => {
        },
        SourcedNodeView::Dir { children, .. } => {
            lemma_remove_ops_children_props(children, path);
            let ops_c = remove_ops_children(children, path);
            let ops = remove_ops(t, path);
            assert(ops.len() == ops_c.len() + 1);
            assert forall|i: int| 0 <= i < ops.len() implies at_or_under(
                #[trigger] ops[i].path,
                path,
            ) by {
                if i < ops_c.len() {
                    assert(ops[i] == ops_c[i]);
                    let b = choose|b: int|
                        0 <= b < children.len() && at_or_under(
                            ops_c[i].path,
                            child_path(path, children[b].name()),
                        );
                    lemma_child_confine(path, children[b].name(), ops_c[i].path);
                } else {
                    assert(ops[i].path == path);
                }
            }
            assert forall|i: int, j: int|
                0 <= j <= i < ops.len() && ops[j].kind is RemoveDir implies !path_under(
                ops[i].path,
                ops[j].path,
            ) by {
                if i < ops_c.len() {
                    assert(ops[i] == ops_c[i] && ops[j] == ops_c[j]);
                } else {
                    if j < ops_c.len() {
                        assert(ops[j] == ops_c[j]);
                        let b = choose|b: int|
                            0 <= b < children.len() && at_or_under(
                                ops_c[j].path,
                                child_path(path, children[b].name()),
                            );
                        assert(ops_c[j].path.len() >= child_path(
                            path,
                            children[b].name(),
                        ).len());
                        assert(ops[i].path == path);
                    } else {
                        assert(ops[i].path == path && ops[j].path == path);
                    }
                }
            }
        },
    }
}

/// The removal operations of a child list: each is confined to one child
/// entry, and descendants always go before their directory.
proof fn lemma_remove_ops_children_props(cs: Seq<SourcedNodeView>, path: Seq<char>)
    requires
        forall|a: int, b: int| 0 <= a < b < cs.len() ==> cs[a].name() != cs[b].name(),
        forall|i: int| 0 <= i < cs.len() ==> (#[trigger] cs[i]).wf(),
        forall|i: int| 0 <= i < cs.len() ==> clean_names(#[trigger] cs[i]),
    ensures
        forall|i: int|
            0 <= i < remove_ops_children(cs, path).len() ==> exists|b: int|
                0 <= b < cs.len() && at_or_under(
                    #[trigger] remove_ops_children(cs, path)[i].path,
                    child_path(path, cs[b].name()),
                ),
        forall|i: int, j: int|
            0 <= j <= i < remove_ops_children(cs, path).len() && remove_ops_children(
                cs,
                path,
            )[j].kind is RemoveDir ==> !path_under(
                remove_ops_children(cs, path)[i].path,
                remove_ops_children(cs, path)[j].path,
            ),
    decreases cs, 1nat,
{
    if cs.len() != 0 {
        let p0 = child_path(path, cs[0].name());
        let block = remove_ops(cs[0], p0);
        lemma_remove_ops_ordering(cs[0], p0);
        assert forall|a: int, b: int|
            0 <= a < b < cs.skip(1).len() implies cs.skip(1)[a].name() != cs.skip(
            1,
        )[b].name() by {
            assert(cs.skip(1)[a] == cs[a + 1]);
            assert(cs.skip(1)[b] == cs[b + 1]);
        }
        assert forall|i: int| 0 <= i < cs.skip(1).len() implies (#[trigger] cs.skip(1)[i]).wf()
            && clean_names(cs.skip(1)[i]) by {
            assert(cs.skip(1)[i] == cs[i + 1]);
        }
        lemma_remove_ops_children_props(cs.skip(1), path);
        let rest = remove_ops_children(cs.skip(1), path);
        let ops_c = remove_ops_children(cs, path);
        assert(ops_c == block + rest);
        assert forall|i: int| 0 <= i < ops_c.len() implies exists|b: int|
            0 <= b < cs.len() && at_or_under(
                #[trigger] ops_c[i].path,
                child_path(path, cs[b].name()),
            ) by {
            if i < block.len() {
                assert(ops_c[i] == block[i]);
                assert(at_or_under(ops_c[i].path, child_path(path, cs[0].name())));
            } else {
                assert(ops_c[i] == rest[i - block.len()]);
                let b = choose|b: int|
                    0 <= b < cs.skip(1).len() && at_or_under(
                        rest[i - block.len()].path,
                        child_path(path, cs.skip(1)[b].name()),
                    );
                assert(cs.skip(1)[b] == cs[b + 1]);
                assert(at_or_under(ops_c[i].path, child_path(path, cs[b + 1].name())));
            }
        }
        assert forall|i: int, j: int|
            0 <= j <= i < ops_c.len() && ops_c[j].kind is RemoveDir implies !path_under(
            ops_c[i].path,
            ops_c[j].path,
        ) by {
            if i < block.len() {
                assert(ops_c[i] == block[i] && ops_c[j] == block[j]);
            } else if j >= block.len() {
                assert(ops_c[i] == rest[i - block.len()] && ops_c[j] == rest[j - block.len()]);
            } else {
                // a later sibling's operation against an earlier removal
                assert(ops_c[j] == block[j]);
                assert(at_or_under(block[j].path, child_path(path, cs[0].name())));
                assert(ops_c[i] == rest[i - block.len()]);
                let b = choose|b: int|
                    0 <= b < cs.skip(1).len() && at_or_under(
                        rest[i - block.len()].path,
                        child_path(path, cs.skip(1)[b].name()),
                    );
                assert(cs.skip(1)[b] == cs[b + 1]);
                assert(cs[b + 1].name() != cs[0].name());
                if path_under(ops_c[i].path, ops_c[j].path) {
                    lemma_sibling_names(
                        path,
                        cs[b + 1].name(),
                        cs[0].name(),
                        ops_c[i].path,
                        ops_c[j].path,
                    );
                }
            }
        }
    }
}

// ---------------------------------------------------------------------------
// Executable helpers
// ---------------------------------------------------------------------------

impl Node {
    /// The entry name of this node.
    pub fn name(&self) -> (r: &str)
        ensures
            r@ == node_view(*self).name(),
    {
        match self {
            Node::Dir { name, .. } => name.as_str(),
            Node::File { name } => name.as_str(),
        }
    }
}

/// The one reserved filename that every source scan silently excludes:
/// the mod's own descriptor file is never part of its tree.
pub fn is_metadata_name(name: &str) -> (r: bool)
    ensures
        r == (name@ == "mod.toml"@),
{
    name.to_owned().eq(&("mod.toml".to_owned()))
}

/// Builds the slash-separated path of a child entry.
fn join_path(path: &str, name: &str) -> (r: String)
    ensures
        r@ == child_path(path@, name@),
{
    proof {
        reveal_strlit("/");
    }
    let r = path.to_owned().concat("/").concat(name);
    proof {
        assert(r@ =~= child_path(path@, name@));
    }
    r
}

impl SourcedNode {
    /// The entry name of this node.
    fn name_ref(&self) -> (r: &String)
        ensures
            r@ == sourced_view(*self).name(),
    {
        match self {
            SourcedNode::Dir { name, .. } => name,
            SourcedNode::File { name, .. } => name,
        }
    }

    /// The index of the first child with the given name, if any.
    fn find_in(children: &Vec<SourcedNode>, name: &String) -> (r: Option<usize>)
        ensures
            match r {
                Some(k) => k < children@.len() && k as int == find_index(
                    sourced_views(children@),
                    name@,
                ),
                None => find_index(sourced_views(children@), name@) == children@.len(),
            },
    {
        proof {
            lemma_sourced_views(children@);
        }
        let mut j: usize = 0;
        while j < children.len()
            invariant
                j <= children.len(),
                sourced_views(children@).len() == children@.len(),
                forall|i: int|
                    0 <= i < children@.len() ==> sourced_views(children@)[i] == sourced_view(
                        children@[i],
                    ),
                forall|k: int| 0 <= k < j ==> sourced_views(children@)[k].name() != name@,
            decreases children.len() - j,
        {
            if children[j].name_ref().eq(name) {
                proof {
                    lemma_find_index_is(sourced_views(children@), name@, j as int);
                }
                return Some(j);
            }
            j += 1;
        }
        proof {
            lemma_find_index_is(sourced_views(children@), name@, children@.len() as int);
        }
        None
    }

    /// A fresh provenanced copy of a raw tree: every file tagged `source`.
    #[verifier::loop_isolation(false)]
    pub fn from_node(node: &Node, source: ModKey) -> (r: SourcedNode)
        ensures
            sourced_view(r) == provenanced(node_view(*node), source),
        decreases *node,
    {
        match node {
            Node::Dir { name, children } => {
                let mut out: Vec<SourcedNode> = Vec::new();
                let mut i: usize = 0;
                while i < children.len()
                    invariant
                        i <= children.len(),
                        out@.len() == i,
                        forall|k: int|
                            0 <= k < i ==> #[trigger] sourced_view(out@[k]) == provenanced(
                                node_view(children@[k]),
                                source,
                            ),
                    decreases children.len() - i,
                {
                    out.push(SourcedNode::from_node(&children[i], source));
                    i += 1;
                }
                proof {
                    lemma_sourced_views(out@);
                    lemma_nodes_view(children@);
                    lemma_provenanced_children(nodes_view(children@), source);
                    assert(sourced_views(out@) =~= provenanced_children(
                        nodes_view(children@),
                        source,
                    ));
                }
                SourcedNode::Dir { name: name.clone(), children: out }
            },
            Node::File { name } => SourcedNode::File { name: name.clone(), source },
        }
    }

    /// Merge one raw source tree into this accumulator tree in place;
    /// the incoming source wins wherever both provide the same file path.
    pub fn overwrite_with(&mut self, node: &Node, source: ModKey)
        ensures
            sourced_view(*final(self)) == overwritten(
                sourced_view(*old(self)),
                node_view(*node),
                source,
            ),
    {
        let mut tmp = SourcedNode::File { name: String::new(), source };
        core::mem::swap(self, &mut tmp);
        let merged = SourcedNode::merged(tmp, node, source);
        *self = merged;
    }

    /// Merge by value: the owned accumulator combined with one raw tree.
    #[verifier::loop_isolation(false)]
    fn merged(acc: SourcedNode, node: &Node, source: ModKey) -> (r: SourcedNode)
        ensures
            sourced_view(r) == overwritten(sourced_view(acc), node_view(*node), source),
        decreases *node,
    {
        match (acc, node) {
            (SourcedNode::Dir { name, children }, Node::Dir { children: inc, .. }) => {
                let mut children = children;
                let ghost acc0: Seq<SourcedNodeView> = sourced_views(children@);
                let ghost incv: Seq<NodeView> = nodes_view(inc@);
                proof {
                    lemma_nodes_view(inc@);
                    assert(incv.skip(0) =~= incv);
                }
                let mut j: usize = 0;
                while j < inc.len()
                    invariant
                        j <= inc.len(),
                        incv == nodes_view(inc@),
                        incv.len() == inc@.len(),
                        forall|i: int| 0 <= i < inc@.len() ==> incv[i] == node_view(inc@[i]),
                        merge_children(acc0, incv, source) == merge_children(
                            sourced_views(children@),
                            incv.skip(j as int),
                            source,
                        ),
                    decreases inc.len() - j,
                {
                    let ghost cur: Seq<SourcedNodeView> = sourced_views(children@);
                    let ghost e: NodeView = incv[j as int];
                    proof {
                        lemma_sourced_views(children@);
                        assert(incv.skip(j as int)[0] == incv[j as int]);
                        assert(incv.skip(j as int).skip(1) =~= incv.skip(j as int + 1));
                        assert(merge_children(cur, incv.skip(j as int), source) == merge_children(
                            merge_child(cur, e, source),
                            incv.skip(j as int + 1),
                            source,
                        ));
                    }
                    let new_name: &String = match &inc[j] {
                        Node::Dir { name, .. } => name,
                        Node::File { name } => name,
                    };
                    proof {
                        assert(new_name@ == e.name());
                    }
                    match SourcedNode::find_in(&children, new_name) {
                        Some(i) => {
                            let c = children.remove(i);
                            let c2 = SourcedNode::merged(c, &inc[j], source);
                            children.insert(i, c2);
                            proof {
                                lemma_sourced_views(children@);
                                assert(sourced_views(children@) =~= cur.update(
                                    i as int,
                                    overwritten(cur[i as int], e, source),
                                ));
                            }
                        },
                        None => {
                            children.push(SourcedNode::from_node(&inc[j], source));
                            proof {
                                lemma_sourced_views(children@);
                                assert(sourced_views(children@) =~= cur.push(
                                    provenanced(e, source),
                                ));
                            }
                        },
                    }
                    j += 1;
                }
                proof {
                    assert(incv.skip(inc@.len() as int) =~= Seq::<NodeView>::empty());
                }
                SourcedNode::Dir { name, children }
            },
            (SourcedNode::File { .. }, Node::File { .. }) => SourcedNode::from_node(node, source),
            (other, _) => other,
        }
    }
}

// ---------------------------------------------------------------------------
// Diff: the ordered operations that turn one deployed tree into another
// ---------------------------------------------------------------------------

/// One filesystem operation of a deployment plan, at a slash-separated
/// logical path below the synthetic root.
#[derive(Debug, Clone, PartialEq, Eq)]
pub struct Operation {
    pub path: String,
    pub kind: OperationKind,
}

#[derive(Debug, Clone, Copy, PartialEq, Eq, Structural)]
pub enum OperationKind {
    CreateDir,
    RemoveDir,
    CreateFile(ModKey),
    RemoveFile,
    ChangeSource(ModKey),
}

/// Mathematical abstraction of an `Operation`.
pub struct OpView {
    pub path: Seq<char>,
    pub kind: OperationKind,
}

pub open spec fn op_view(op: Operation) -> OpView {
    OpView { path: op.path@, kind: op.kind }
}

pub open spec fn ops_view(s: Seq<Operation>) -> Seq<OpView> {
    s.map_values(|op: Operation| op_view(op))
}

/// The operations that create a whole subtree at `path`: a directory
/// before its children (pre-order), a file as a single creation.
pub open spec fn create_ops(t: SourcedNodeView, path: Seq<char>) -> Seq<OpView>
    decreases t, 0nat,
{
    match t {
        SourcedNodeView::File { source, .. } => seq![
            OpView { path, kind: OperationKind::CreateFile(source) },
        ],
        SourcedNodeView::Dir { children, .. } => seq![
            OpView { path, kind: OperationKind::CreateDir },
        ] + create_ops_children(children, path),
    }
}

pub open spec fn create_ops_children(cs: Seq<SourcedNodeView>, path: Seq<char>) -> Seq<OpView>
    decreases cs, 1nat,
{
    if cs.len() == 0 {
        Seq::empty()
    } else {
        create_ops(cs[0], child_path(path, cs[0].name())) + create_ops_children(cs.skip(1), path)
    }
}

/// The operations that remove a whole subtree at `path`: children before
/// their directory (post-order), a file as a single removal.
pub open spec fn remove_ops(t: SourcedNodeView, path: Seq<char>) -> Seq<OpView>
    decreases t, 0nat,
{
    match t {
        SourcedNodeView::File { .. } => seq![OpView { path, kind: OperationKind::RemoveFile }],
        SourcedNodeView::Dir { children, .. } => remove_ops_children(children, path) + seq![
            OpView { path, kind: OperationKind::RemoveDir },
        ],
    }
}

pub open spec fn remove_ops_children(cs: Seq<SourcedNodeView>, path: Seq<char>) -> Seq<OpView>
    decreases cs, 1nat,
{
    if cs.len() == 0 {
        Seq::empty()
    } else {
        remove_ops(cs[0], child_path(path, cs[0].name())) + remove_ops_children(cs.skip(1), path)
    }
}

/// The ordered operation list that transforms `old` into `new`, both rooted
/// at `path`: removals and recursive diffs in the order of `old`'s children,
/// then creations in the order of `new`'s children. Two files with the same
/// name re-source only when their provenance differs; a directory-versus-file
/// mismatch at one name is left untouched.
pub open spec fn diff_ops(old_t: SourcedNodeView, new_t: SourcedNodeView, path: Seq<char>) -> Seq<
    OpView,
>
    decreases old_t, 0nat,
{
    match (old_t, new_t) {
        (SourcedNodeView::Dir { children: oldcs, .. }, SourcedNodeView::Dir { children: newcs, .. }) => {
            diff_old_children(oldcs, newcs, path) + diff_new_children(oldcs, newcs, path)
        },
        (SourcedNodeView::File { source: old_s, .. }, SourcedNodeView::File { source: new_s, .. }) => {
            if old_s != new_s {
                seq![OpView { path, kind: OperationKind::ChangeSource(new_s) }]
            } else {
                Seq::empty()
            }
        },
        _ => Seq::empty(),
    }
}

/// First pass, over the old children: a child absent from `newcs` is
/// removed whole; one present in both is diffed recursively.
pub open spec fn diff_old_children(
    oldcs: Seq<SourcedNodeView>,
    newcs: Seq<SourcedNodeView>,
    path: Seq<char>,
) -> Seq<OpView>
    decreases oldcs, 1nat,
{
    if oldcs.len() == 0 {
        Seq::empty()
    } else {
        let o = oldcs[0];
        let p = child_path(path, o.name());
        (match find_child(newcs, o.name()) {
            Some(n) => diff_ops(o, n, p),
            None => remove_ops(o, p),
        }) + diff_old_children(oldcs.skip(1), newcs, path)
    }
}

/// Second pass, over the new children: a child absent from `oldcs` is
/// created whole.
pub open spec fn diff_new_children(
    oldcs: Seq<SourcedNodeView>,
    newcs: Seq<SourcedNodeView>,
    path: Seq<char>,
) -> Seq<OpView>
    decreases newcs,
{
    if newcs.len() == 0 {
        Seq::empty()
    } else {
        let n = newcs[0];
        (match find_child(oldcs, n.name()) {
            Some(_) => Seq::<OpView>::empty(),
            None => create_ops(n, child_path(path, n.name())),
        }) + diff_new_children(oldcs, newcs.skip(1), path)
    }
}

impl SourcedNode {
    /// Emits the operations that create this whole subtree at `path`,
    /// the directory itself before its children.
    #[verifier::loop_isolation(false)]
    pub fn ops_for_create_dir(&self, path: &str, ops: &mut Vec<Operation>)
        ensures
            ops_view(final(ops)@) == ops_view(old(ops)@) + create_ops(sourced_view(*self), path@),
        decreases *self,
    {
        match self {
            SourcedNode::Dir { children, .. } => {
                let ghost entry: Seq<Operation> = ops@;
                let ghost svc: Seq<SourcedNodeView> = sourced_views(children@);
                proof {
                    lemma_sourced_views(children@);
                }
                ops.push(Operation { path: path.to_owned(), kind: OperationKind::CreateDir });
                proof {
                    assert(ops_view(ops@) =~= ops_view(entry) + seq![
                        OpView { path: path@, kind: OperationKind::CreateDir },
                    ]);
                    assert(svc.skip(0) =~= svc);
                    assert(ops_view(entry) + create_ops(sourced_view(*self), path@) =~= ops_view(
                        ops@,
                    ) + create_ops_children(svc, path@));
                }
                let mut i: usize = 0;
                while i < children.len()
                    invariant
                        i <= children.len(),
                        ops_view(entry) + create_ops(sourced_view(*self), path@) == ops_view(ops@)
                            + create_ops_children(svc.skip(i as int), path@),
                    decreases children.len() - i,
                {
                    proof {
                        assert(svc.skip(i as int)[0] == svc[i as int]);
                        assert(svc.skip(i as int).skip(1) =~= svc.skip(i as int + 1));
                    }
                    let name = children[i].name_ref();
                    let p = join_path(path, name.as_str());
                    children[i].ops_for_create_dir(p.as_str(), ops);
                    i += 1;
                }
                proof {
                    assert(svc.skip(children@.len() as int) =~= Seq::<SourcedNodeView>::empty());
                    assert(ops_view(ops@) + Seq::<OpView>::empty() =~= ops_view(ops@));
                }
            },
            SourcedNode::File { source, .. } => {
                let ghost entry: Seq<Operation> = ops@;
                ops.push(
                    Operation { path: path.to_owned(), kind: OperationKind::CreateFile(*source) },
                );
                proof {
                    assert(ops_view(ops@) =~= ops_view(entry) + create_ops(
                        sourced_view(*self),
                        path@,
                    ));
                }
            },
        }
    }

    /// Emits the operations that remove this whole subtree at `path`,
    /// the children before their directory.
    #[verifier::loop_isolation(false)]
    pub fn ops_for_remove_dir(&self, path: &str, ops: &mut Vec<Operation>)
        ensures
            ops_view(final(ops)@) == ops_view(old(ops)@) + remove_ops(sourced_view(*self), path@),
        decreases *self,
    {
        match self {
            SourcedNode::Dir { children, .. } => {
                let ghost entry: Seq<Operation> = ops@;
                let ghost svc: Seq<SourcedNodeView> = sourced_views(children@);
                proof {
                    lemma_sourced_views(children@);
                    assert(svc.skip(0) =~= svc);
                }
                let mut i: usize = 0;
                while i < children.len()
                    invariant
                        i <= children.len(),
                        ops_view(entry) + remove_ops_children(svc, path@) == ops_view(ops@)
                            + remove_ops_children(svc.skip(i as int), path@),
                    decreases children.len() - i,
                {
                    proof {
                        assert(svc.skip(i as int)[0] == svc[i as int]);
                        assert(svc.skip(i as int).skip(1) =~= svc.skip(i as int + 1));
                    }
                    let name = children[i].name_ref();
                    let p = join_path(path, name.as_str());
                    children[i].ops_for_remove_dir(p.as_str(), ops);
                    i += 1;
                }
                proof {
                    assert(svc.skip(children@.len() as int) =~= Seq::<SourcedNodeView>::empty());
                }
                let ghost before: Seq<Operation> = ops@;
                ops.push(Operation { path: path.to_owned(), kind: OperationKind::RemoveDir });
                proof {
                    assert(ops_view(ops@) =~= ops_view(before) + seq![
                        OpView { path: path@, kind: OperationKind::RemoveDir },
                    ]);
                    assert(ops_view(ops@) =~= ops_view(entry) + remove_ops(
                        sourced_view(*self),
                        path@,
                    ));
                }
            },
            SourcedNode::File { .. } => {
                let ghost entry: Seq<Operation> = ops@;
                ops.push(Operation { path: path.to_owned(), kind: OperationKind::RemoveFile });
                proof {
                    assert(ops_view(ops@) =~= ops_view(entry) + remove_ops(
                        sourced_view(*self),
                        path@,
                    ));
                }
            },
        }
    }

    /// Appends to `ops` the ordered operations that transform this deployed
    /// tree into `new_tree`, both rooted at `current_path`.
    #[verifier::loop_isolation(false)]
    #[verifier::rlimit(60)]
    pub fn tree_edit_distance(&self, new_tree: &SourcedNode, ops: &mut Vec<Operation>, current_path: &str)
        ensures
            ops_view(final(ops)@) == ops_view(old(ops)@) + diff_ops(
                sourced_view(*self),
                sourced_view(*new_tree),
                current_path@,
            ),
        decreases *self,
    {
        match (self, new_tree) {
            (
                SourcedNode::Dir { children: old_children, .. },
                SourcedNode::Dir { children: new_children, .. },
            ) => {
                let ghost entry: Seq<Operation> = ops@;
                let ghost oldv: Seq<SourcedNodeView> = sourced_views(old_children@);
                let ghost newv: Seq<SourcedNodeView> = sourced_views(new_children@);
                proof {
                    lemma_sourced_views(old_children@);
                    lemma_sourced_views(new_children@);
                    assert(oldv.skip(0) =~= oldv);
                }
                let mut i: usize = 0;
                while i < old_children.len()
                    invariant
                        i <= old_children.len(),
                        ops_view(entry) + diff_old_children(oldv, newv, current_path@) == ops_view(
                            ops@,
                        ) + diff_old_children(oldv.skip(i as int), newv, current_path@),
                    decreases old_children.len() - i,
                {
                    proof {
                        assert(oldv.skip(i as int)[0] == oldv[i as int]);
                        assert(oldv.skip(i as int).skip(1) =~= oldv.skip(i as int + 1));
                    }
                    let name = old_children[i].name_ref();
                    let p = join_path(current_path, name.as_str());
                    match SourcedNode::find_in(new_children, name) {
                        Some(k) => {
                            old_children[i].tree_edit_distance(&new_children[k], ops, p.as_str());
                        },
                        None => {
                            match &old_children[i] {
                                SourcedNode::Dir { .. } => {
                                    old_children[i].ops_for_remove_dir(p.as_str(), ops);
                                },
                                SourcedNode::File { .. } => {
                                    let ghost before: Seq<Operation> = ops@;
                                    ops.push(
                                        Operation {
                                            path: p,
                                            kind: OperationKind::RemoveFile,
                                        },
                                    );
                                    proof {
                                        assert(ops_view(ops@) =~= ops_view(before) + remove_ops(
                                            oldv[i as int],
                                            child_path(current_path@, oldv[i as int].name()),
                                        ));
                                    }
                                },
                            }
                        },
                    }
                    i += 1;
                }
                proof {
                    assert(oldv.skip(old_children@.len() as int) =~= Seq::<SourcedNodeView>::empty());
                    assert(newv.skip(0) =~= newv);
                }
                let mut j: usize = 0;
                while j < new_children.len()
                    invariant
                        j <= new_children.len(),
                        ops_view(entry) + diff_old_children(oldv, newv, current_path@)
                            + diff_new_children(oldv, newv, current_path@) == ops_view(ops@)
                            + diff_new_children(oldv, newv.skip(j as int), current_path@),
                    decreases new_children.len() - j,
                {
                    proof {
                        assert(newv.skip(j as int)[0] == newv[j as int]);
                        assert(newv.skip(j as int).skip(1) =~= newv.skip(j as int + 1));
                    }
                    let name = new_children[j].name_ref();
                    if SourcedNode::find_in(old_children, name).is_none() {
                        let p = join_path(current_path, name.as_str());
                        match &new_children[j] {
                            SourcedNode::Dir { .. } => {
                                new_children[j].ops_for_create_dir(p.as_str(), ops);
                            },
                            SourcedNode::File { source, .. } => {
                                let ghost before: Seq<Operation> = ops@;
                                ops.push(
                                    Operation { path: p, kind: OperationKind::CreateFile(*source) },
                                );
                                proof {
                                    assert(ops_view(ops@) =~= ops_view(before) + create_ops(
                                        newv[j as int],
                                        child_path(current_path@, newv[j as int].name()),
                                    ));
                                }
                            },
                        }
                    }
                    j += 1;
                }
                proof {
                    assert(newv.skip(new_children@.len() as int) =~= Seq::<SourcedNodeView>::empty());
                    assert(diff_new_children(oldv, newv.skip(new_children@.len() as int), current_path@)
                        == Seq::<OpView>::empty());
                    assert(ops_view(ops@) + Seq::<OpView>::empty() =~= ops_view(ops@));
                }
            },
            (
                SourcedNode::File { source: old_source, .. },
                SourcedNode::File { source: new_source, .. },
            ) => {
                if *old_source != *new_source {
                    let ghost entry: Seq<Operation> = ops@;
                    ops.push(
                        Operation {
                            path: current_path.to_owned(),
                            kind: OperationKind::ChangeSource(*new_source),
                        },
                    );
                    proof {
                        assert(ops_view(ops@) =~= ops_view(entry) + diff_ops(
                            sourced_view(*self),
                            sourced_view(*new_tree),
                            current_path@,
                        ));
                    }
                } else {
                    proof {
                        assert(ops_view(ops@) =~= ops_view(ops@) + Seq::<OpView>::empty());
                    }
                }
            },
            _ => {
                proof {
                    assert(ops_view(ops@) =~= ops_view(ops@) + Seq::<OpView>::empty());
                }
            },
        }
    }
}

} // verus!
