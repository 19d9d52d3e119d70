//! The directory tree: an arena of nodes addressed by index. A directory maps
//! names to the indices of its children and keeps the index of its parent;
//! index 0 is the root.

use vstd::prelude::*;
use vstd::string::StringSliceAdditionalSpecFns;
use crate::path::{
    bytes_eq, is_special, is_special_name, lemma_split_first_shrinks, split_first_spec,
    split_parent, split_parent_spec, split_path, DOT, SLASH,
};

verus! {

/// The kinds of node a caller may ask for.
#[derive(PartialEq, Eq, Structural, Clone, Copy, Debug)]
pub enum NodeKind {
    Fifo,
    CharDevice,
    BlockDevice,
    File,
    Dir,
    SymLink,
    Socket,
}

/// The errors of the tree's operations.
#[derive(PartialEq, Eq, Structural, Clone, Copy, Debug)]
pub enum FsError {
    NotFound,
    AlreadyExists,
    NotADirectory,
    Unsupported,
    DirectoryNotEmpty,
    InvalidInput,
}

/// What a node reports of itself.
#[derive(PartialEq, Eq, Structural, Clone, Copy, Debug)]
pub struct NodeAttr {
    pub kind: NodeKind,
    pub size: u64,
}

/// One entry of a directory listing.
#[derive(Debug)]
pub struct DirEntry {
    pub name: Vec<u8>,
    pub kind: NodeKind,
}

impl DirEntry {
    pub open spec fn view(&self) -> (Seq<u8>, NodeKind) {
        (self.name@, self.kind)
    }
}

/// A named child of a directory.
pub struct Child {
    name: Vec<u8>,
    id: usize,
}

/// A directory: its parent and its children, in increasing byte-wise order
/// of name.
pub struct DirNode {
    parent: Option<usize>,
    children: Vec<Child>,
}

/// A node of the tree. A file keeps the directory that holds it.
pub enum Node {
    File(Option<usize>),
    Dir(DirNode),
}

/// A slot of the arena. A node stays in its slot once detached from the
/// tree, and is then no longer live.
pub struct Slot {
    live: bool,
    node: Node,
}

/// The tree.
pub struct RamFs {
    slots: Vec<Slot>,
}

/// The abstract state of one node.
pub struct NodeView {
    pub live: bool,
    pub dir: bool,
    pub parent: Option<usize>,
    pub kids: Seq<(Seq<u8>, usize)>,
}

/// The directory size that every directory reports.
pub const DIR_SIZE: u64 = 4096;

/// A name that may be stored in a directory.
pub open spec fn valid_name(n: Seq<u8>) -> bool {
    !is_special(n) && forall|k: int| 0 <= k < n.len() ==> n[k] != SLASH
}

/// Index of the entry named `name` (the last one, should there be several),
/// or -1.
pub open spec fn child_index(kids: Seq<(Seq<u8>, usize)>, name: Seq<u8>) -> int
    decreases kids.len(),
{
    if kids.len() == 0 {
        -1
    } else if kids.last().0 == name {
        kids.len() - 1
    } else {
        child_index(kids.drop_last(), name)
    }
}

/// The child named `name`.
pub open spec fn child_of(kids: Seq<(Seq<u8>, usize)>, name: Seq<u8>) -> Option<usize> {
    let i = child_index(kids, name);
    if i < 0 {
        None
    } else {
        Some(kids[i].1)
    }
}

pub open spec fn is_dir(t: Seq<NodeView>, x: usize) -> bool {
    x < t.len() && t[x as int].dir
}

/// The parent of a node, where it has one that is still live.
pub open spec fn parent_of(t: Seq<NodeView>, x: usize) -> Option<usize> {
    if !t[x as int].dir {
        None
    } else {
        match t[x as int].parent {
        Some(p) => if p < t.len() && t[p as int].live {
            Some(p)
        } else {
            None
        },
        None => None,
    }
    }
}

/// What one path component names, seen from directory `x`.
pub open spec fn step(t: Seq<NodeView>, x: usize, name: Seq<u8>) -> Result<usize, FsError> {
    if name.len() == 0 || name == seq![DOT] {
        Ok(x)
    } else if name == seq![DOT, DOT] {
        match parent_of(t, x) {
            Some(p) => Ok(p),
            None => Err(FsError::NotFound),
        }
    } else {
        match child_of(t[x as int].kids, name) {
            Some(c) => Ok(c),
            None => Err(FsError::NotFound),
        }
    }
}

/// The directory that holds the last component of `p`, walking from `x`,
/// and that component.
pub open spec fn locate(t: Seq<NodeView>, x: usize, p: Seq<u8>) -> Result<
    (usize, Seq<u8>),
    FsError,
>
    decreases p.len(),
{
    if !is_dir(t, x) {
        Err(FsError::NotADirectory)
    } else {
        let (name, rest) = split_first_spec(p);
        match rest {
            None => Ok((x, name)),
            Some(r) => match step(t, x, name) {
                Err(e) => Err(e),
                Ok(n) => if r.len() < p.len() {
                    locate(t, n, r)
                } else {
                    Err(FsError::InvalidInput)
                },
            },
        }
    }
}

/// The node that `p` names, walking from `x`.
pub open spec fn resolve(t: Seq<NodeView>, x: usize, p: Seq<u8>) -> Result<usize, FsError> {
    match locate(t, x, p) {
        Err(e) => Err(e),
        Ok((d, leaf)) => step(t, d, leaf),
    }
}

/// Each directory's children are valid names of distinct nodes other than
/// the root and itself, in increasing byte-wise order of name, and each of
/// those nodes is live and has the directory as its parent; a file has no
/// children.
pub open spec fn node_wf(t: Seq<NodeView>, x: int) -> bool {
    &&& (!t[x].dir ==> t[x].kids.len() == 0)
    &&& kids_ok(t[x].kids, t.len())
    &&& sorted(t[x].kids)
    &&& ids_distinct(t[x].kids)
    &&& forall|i: int|
        0 <= i < t[x].kids.len() ==> t[#[trigger] t[x].kids[i].1 as int].parent == Some(x as usize)
            && t[t[x].kids[i].1 as int].live
    &&& forall|i: int| 0 <= i < t[x].kids.len() ==> #[trigger] t[x].kids[i].1 != x
}

/// Every entry names a node other than the root, below `n`, by a valid name.
pub open spec fn kids_ok(k: Seq<(Seq<u8>, usize)>, n: nat) -> bool {
    forall|i: int| 0 <= i < k.len() ==> 0 < #[trigger] k[i].1 < n && valid_name(k[i].0)
}

/// No two entries name the same node.
pub open spec fn ids_distinct(k: Seq<(Seq<u8>, usize)>) -> bool {
    forall|i: int, j: int| 0 <= i < j < k.len() ==> #[trigger] k[i].1 != #[trigger] k[j].1
}

/// No two entries share a name.
pub open spec fn distinct(k: Seq<(Seq<u8>, usize)>) -> bool {
    forall|i: int, j: int| 0 <= i < j < k.len() ==> #[trigger] k[i].0 != #[trigger] k[j].0
}

/// Taking an entry out keeps the entries valid and in order, and adds no name.
pub proof fn lemma_kids_remove(k: Seq<(Seq<u8>, usize)>, i: int, n: nat, name: Seq<u8>)
    requires
        0 <= i < k.len(),
        kids_ok(k, n),
        sorted(k),
        ids_distinct(k),
    ensures
        kids_ok(k.remove(i), n),
        sorted(k.remove(i)),
        ids_distinct(k.remove(i)),
        forall|a: int|
            0 <= a < k.remove(i).len() ==> (#[trigger] k.remove(i)[a] == if a < i {
                k[a]
            } else {
                k[a + 1]
            }) && k.remove(i)[a].1 != k[i].1,
        child_index(k, name) < 0 ==> child_index(k.remove(i), name) < 0,
        k[i].0 == name ==> child_index(k.remove(i), name) < 0,
{
    lemma_sorted_distinct(k);
    let r = k.remove(i);
    assert forall|a: int| 0 <= a < r.len() implies 0 < #[trigger] r[a].1 < n && valid_name(r[a].0) by {
        if a < i {
            assert(r[a] == k[a]);
        } else {
            assert(r[a] == k[a + 1]);
        }
    }
    assert forall|a: int, b: int| 0 <= a < b < r.len() implies bytes_lt(#[trigger] r[a].0, #[trigger] r[b].0) by {
        let a1 = if a < i { a } else { a + 1 };
        let b1 = if b < i { b } else { b + 1 };
        assert(r[a] == k[a1]);
        assert(r[b] == k[b1]);
    }
    assert forall|a: int, b: int| 0 <= a < b < r.len() implies #[trigger] r[a].1 != #[trigger] r[b].1 by {
        let a1 = if a < i { a } else { a + 1 };
        let b1 = if b < i { b } else { b + 1 };
        assert(r[a] == k[a1]);
        assert(r[b] == k[b1]);
    }
    assert forall|a: int| 0 <= a < r.len() implies (#[trigger] r[a] == if a < i {
        k[a]
    } else {
        k[a + 1]
    }) && r[a].1 != k[i].1 by {
        if a < i {
            assert(k[a].1 != k[i].1);
        } else {
            assert(k[i].1 != k[a + 1].1);
        }
    }
    lemma_child_index(k, name);
    lemma_child_index(r, name);
    if child_index(r, name) >= 0 {
        let a = child_index(r, name);
        let a1 = if a < i { a } else { a + 1 };
        assert(r[a] == k[a1]);
        if k[i].0 == name {
            if a1 < i {
                assert(k[a1].0 != k[i].0);
            } else {
                assert(k[i].0 != k[a1].0);
            }
        }
    }
}

/// Byte-wise order of names: the first differing byte decides, and a proper
/// prefix comes first.
pub open spec fn bytes_lt(a: Seq<u8>, b: Seq<u8>) -> bool
    decreases a.len(),
{
    if a.len() == 0 {
        b.len() > 0
    } else if b.len() == 0 {
        false
    } else if a[0] != b[0] {
        a[0] < b[0]
    } else {
        bytes_lt(a.drop_first(), b.drop_first())
    }
}

pub proof fn lemma_bytes_lt_irreflexive(a: Seq<u8>)
    ensures
        !bytes_lt(a, a),
    decreases a.len(),
{
    if a.len() > 0 {
        lemma_bytes_lt_irreflexive(a.drop_first());
    }
}

pub proof fn lemma_bytes_lt_transitive(a: Seq<u8>, b: Seq<u8>, c: Seq<u8>)
    requires
        bytes_lt(a, b),
        bytes_lt(b, c),
    ensures
        bytes_lt(a, c),
    decreases a.len(),
{
    if a.len() > 0 && b.len() > 0 && c.len() > 0 && a[0] == b[0] && b[0] == c[0] {
        lemma_bytes_lt_transitive(a.drop_first(), b.drop_first(), c.drop_first());
    }
}

pub proof fn lemma_bytes_lt_total(a: Seq<u8>, b: Seq<u8>)
    requires
        a != b,
    ensures
        bytes_lt(a, b) || bytes_lt(b, a),
    decreases a.len(),
{
    if a.len() == 0 && b.len() == 0 {
        assert(a =~= b);
    } else if a.len() > 0 && b.len() > 0 && a[0] == b[0] {
        if a.drop_first() == b.drop_first() {
            assert(a.drop_first().len() == b.drop_first().len());
            assert(a.len() == b.len());
            assert forall|i: int| 0 <= i < a.len() implies a[i] == b[i] by {
                if i > 0 {
                    assert(a[i] == a.drop_first()[i - 1]);
                    assert(b[i] == b.drop_first()[i - 1]);
                }
            }
            assert(a =~= b);
        }
        lemma_bytes_lt_total(a.drop_first(), b.drop_first());
    }
}

/// The entries are in strictly increasing byte-wise order of their names.
pub open spec fn sorted(k: Seq<(Seq<u8>, usize)>) -> bool {
    forall|i: int, j: int| 0 <= i < j < k.len() ==> bytes_lt(#[trigger] k[i].0, #[trigger] k[j].0)
}

pub proof fn lemma_sorted_distinct(k: Seq<(Seq<u8>, usize)>)
    requires
        sorted(k),
    ensures
        distinct(k),
{
    assert forall|i: int, j: int| 0 <= i < j < k.len() implies #[trigger] k[i].0 != #[trigger] k[j].0 by {
        lemma_bytes_lt_irreflexive(k[i].0);
    }
}

pub proof fn lemma_insert_pos_range(k: Seq<(Seq<u8>, usize)>, name: Seq<u8>)
    ensures
        0 <= insert_pos(k, name) <= k.len(),
    decreases k.len(),
{
    if k.len() > 0 {
        lemma_insert_pos_range(k.drop_last(), name);
    }
}

/// Where an entry named `name` goes to keep the entries in order: after the
/// last entry whose name comes before it.
pub open spec fn insert_pos(k: Seq<(Seq<u8>, usize)>, name: Seq<u8>) -> int
    decreases k.len(),
{
    if k.len() == 0 {
        0
    } else if bytes_lt(k.last().0, name) {
        k.len() as int
    } else {
        insert_pos(k.drop_last(), name)
    }
}

/// The entries with `(name, id)` put in its place in the order.
pub open spec fn add_sorted(k: Seq<(Seq<u8>, usize)>, name: Seq<u8>, id: usize) -> Seq<
    (Seq<u8>, usize),
> {
    k.insert(insert_pos(k, name), (name, id))
}

pub proof fn lemma_insert_pos(k: Seq<(Seq<u8>, usize)>, name: Seq<u8>)
    requires
        sorted(k),
        forall|i: int| 0 <= i < k.len() ==> #[trigger] k[i].0 != name,
    ensures
        0 <= insert_pos(k, name) <= k.len(),
        forall|i: int| 0 <= i < insert_pos(k, name) ==> bytes_lt(#[trigger] k[i].0, name),
        forall|i: int| insert_pos(k, name) <= i < k.len() ==> bytes_lt(name, #[trigger] k[i].0),
    decreases k.len(),
{
    if k.len() > 0 {
        let l = k.last().0;
        if bytes_lt(l, name) {
            assert forall|i: int| 0 <= i < k.len() implies bytes_lt(#[trigger] k[i].0, name) by {
                if i < k.len() - 1 {
                    lemma_bytes_lt_transitive(k[i].0, l, name);
                }
            }
        } else {
            lemma_bytes_lt_total(l, name);
            let d = k.drop_last();
            assert forall|i: int| 0 <= i < d.len() implies #[trigger] d[i].0 != name by {
                assert(d[i] == k[i]);
            }
            lemma_insert_pos(d, name);
            assert forall|i: int| 0 <= i < insert_pos(k, name) implies bytes_lt(#[trigger] k[i].0, name) by {
                assert(d[i] == k[i]);
            }
            assert forall|i: int| insert_pos(k, name) <= i < k.len() implies bytes_lt(name, #[trigger] k[i].0) by {
                if i < k.len() - 1 {
                    assert(d[i] == k[i]);
                }
            }
        }
    }
}

/// With distinct names, the entry that carries a name is the one found.
pub proof fn lemma_child_index_at(k: Seq<(Seq<u8>, usize)>, i: int)
    requires
        distinct(k),
        0 <= i < k.len(),
    ensures
        child_index(k, k[i].0) == i,
{
    lemma_child_index(k, k[i].0);
    let j = child_index(k, k[i].0);
    if j < i {
        assert(k[j].0 != k[i].0);
    } else if j > i {
        assert(k[i].0 != k[j].0);
    }
}

/// Putting an entry under a new valid name in its place keeps the entries
/// valid and in order, finds it under its name, and finds every other name
/// as before.
pub proof fn lemma_kids_add(
    k: Seq<(Seq<u8>, usize)>,
    name: Seq<u8>,
    id: usize,
    n: nat,
    owner: int,
)
    requires
        kids_ok(k, n),
        sorted(k),
        child_index(k, name) < 0,
        valid_name(name),
        0 < id < n,
        id != owner,
        forall|i: int| 0 <= i < k.len() ==> #[trigger] k[i].1 != owner,
        ids_distinct(k),
        forall|i: int| 0 <= i < k.len() ==> #[trigger] k[i].1 != id,
    ensures
        0 <= insert_pos(k, name) <= k.len(),
        ids_distinct(add_sorted(k, name, id)),
        forall|a: int|
            0 <= a < add_sorted(k, name, id).len() ==> #[trigger] add_sorted(k, name, id)[a] == if a
                < insert_pos(k, name) {
                k[a]
            } else if a == insert_pos(k, name) {
                (name, id)
            } else {
                k[a - 1]
            },
        forall|i: int| 0 <= i < add_sorted(k, name, id).len() ==> #[trigger] add_sorted(k, name, id)[i].1 != owner,
        kids_ok(add_sorted(k, name, id), n),
        sorted(add_sorted(k, name, id)),
        child_of(add_sorted(k, name, id), name) == Some(id),
        forall|m: Seq<u8>|
            m != name ==> #[trigger] child_of(add_sorted(k, name, id), m) == child_of(k, m),
{
    lemma_child_index(k, name);
    lemma_insert_pos(k, name);
    let p = insert_pos(k, name);
    let r = add_sorted(k, name, id);
    assert(r.len() == k.len() + 1);
    assert(r[p] == (name, id));
    assert forall|a: int| 0 <= a < r.len() implies 0 < #[trigger] r[a].1 < n && valid_name(r[a].0) && r[a].1 != owner by {
        if a < p {
            assert(r[a] == k[a]);
        } else if a > p {
            assert(r[a] == k[a - 1]);
        }
    }
    assert forall|a: int, b: int| 0 <= a < b < r.len() implies bytes_lt(#[trigger] r[a].0, #[trigger] r[b].0) by {
        if a < p {
            assert(r[a] == k[a]);
        } else if a > p {
            assert(r[a] == k[a - 1]);
        }
        if b < p {
            assert(r[b] == k[b]);
        } else if b > p {
            assert(r[b] == k[b - 1]);
        }
    }
    assert forall|a: int, b: int| 0 <= a < b < r.len() implies #[trigger] r[a].1 != #[trigger] r[b].1 by {
        if a < p {
            assert(r[a] == k[a]);
        } else if a > p {
            assert(r[a] == k[a - 1]);
        }
        if b < p {
            assert(r[b] == k[b]);
        } else if b > p {
            assert(r[b] == k[b - 1]);
        }
    }
    assert forall|a: int| 0 <= a < r.len() implies #[trigger] r[a] == if a < p {
        k[a]
    } else if a == p {
        (name, id)
    } else {
        k[a - 1]
    } by {}
    lemma_sorted_distinct(r);
    lemma_child_index_at(r, p);
    assert forall|m: Seq<u8>| m != name implies #[trigger] child_of(r, m) == child_of(k, m) by {
        lemma_child_index(k, m);
        lemma_child_index(r, m);
        let j = child_index(k, m);
        if j >= 0 {
            let j1 = if j < p { j } else { j + 1 };
            assert(r[j1] == k[j]);
            lemma_child_index_at(r, j1);
        } else if child_index(r, m) >= 0 {
            let a = child_index(r, m);
            if a < p {
                assert(r[a] == k[a]);
            } else if a > p {
                assert(r[a] == k[a - 1]);
            }
        }
    }
}

/// The root is a live directory without parent, every node is well formed,
/// and each node has an index.
pub open spec fn tree_wf(t: Seq<NodeView>) -> bool {
    &&& 0 < t.len() <= usize::MAX
    &&& t[0].dir
    &&& t[0].live
    &&& t[0].parent is None
    &&& forall|x: int| 0 <= x < t.len() ==> #[trigger] node_wf(t, x)
}

/// The node that a successful create adds.
pub open spec fn fresh_node(ty: NodeKind, d: usize) -> NodeView {
    if ty == NodeKind::Dir {
        NodeView { live: true, dir: true, parent: Some(d), kids: seq![] }
    } else {
        NodeView { live: true, dir: false, parent: Some(d), kids: seq![] }
    }
}

/// The tree with a new node of kind `ty` named `name` in directory `d`.
pub open spec fn with_child(t: Seq<NodeView>, d: usize, name: Seq<u8>, ty: NodeKind) -> Seq<
    NodeView,
> {
    let t1 = t.push(fresh_node(ty, d));
    t1.update(
        d as int,
        NodeView { kids: add_sorted(t[d as int].kids, name, t.len() as usize), ..t[d as int] },
    )
}

/// What creating `name` in directory `d` returns and leaves.
pub open spec fn create_node_post(
    t: Seq<NodeView>,
    t2: Seq<NodeView>,
    d: usize,
    name: Seq<u8>,
    ty: NodeKind,
    r: Result<(), FsError>,
) -> bool {
    if !valid_name(name) {
        r == Err::<(), FsError>(FsError::InvalidInput) && t2 == t
    } else if child_index(t[d as int].kids, name) >= 0 {
        r == Err::<(), FsError>(FsError::AlreadyExists) && t2 == t
    } else if ty == NodeKind::File || ty == NodeKind::Dir {
        r == Ok::<(), FsError>(()) && t2 == with_child(t, d, name, ty)
    } else {
        r == Err::<(), FsError>(FsError::Unsupported) && t2 == t
    }
}

/// What creating `p` from node `x` returns and leaves.
pub open spec fn create_post(
    t: Seq<NodeView>,
    t2: Seq<NodeView>,
    x: usize,
    p: Seq<u8>,
    ty: NodeKind,
    r: Result<(), FsError>,
) -> bool {
    match locate(t, x, p) {
        Err(e) => r == Err::<(), FsError>(e) && t2 == t,
        Ok((d, leaf)) => if is_special(leaf) {
            r == Ok::<(), FsError>(()) && t2 == t
        } else {
            create_node_post(t, t2, d, leaf, ty, r)
        },
    }
}

/// The tree with entry `i` of directory `d` taken out and its node detached.
pub open spec fn without_child(t: Seq<NodeView>, d: usize, i: int) -> Seq<NodeView> {
    let c = t[d as int].kids[i].1;
    let t1 = t.update(d as int, NodeView { kids: t[d as int].kids.remove(i), ..t[d as int] });
    t1.update(c as int, NodeView { live: false, ..t1[c as int] })
}

/// What removing `name` from directory `d` returns and leaves.
pub open spec fn remove_node_post(
    t: Seq<NodeView>,
    t2: Seq<NodeView>,
    d: usize,
    name: Seq<u8>,
    r: Result<(), FsError>,
) -> bool {
    let i = child_index(t[d as int].kids, name);
    if i < 0 {
        r == Err::<(), FsError>(FsError::NotFound) && t2 == t
    } else if t[t[d as int].kids[i].1 as int].kids.len() > 0 {
        r == Err::<(), FsError>(FsError::DirectoryNotEmpty) && t2 == t
    } else {
        r == Ok::<(), FsError>(()) && t2 == without_child(t, d, i)
    }
}

/// What removing `p` from node `x` returns and leaves.
pub open spec fn remove_post(
    t: Seq<NodeView>,
    t2: Seq<NodeView>,
    x: usize,
    p: Seq<u8>,
    r: Result<(), FsError>,
) -> bool {
    match locate(t, x, p) {
        Err(e) => r == Err::<(), FsError>(e) && t2 == t,
        Ok((d, leaf)) => if is_special(leaf) {
            r == Err::<(), FsError>(FsError::InvalidInput) && t2 == t
        } else {
            remove_node_post(t, t2, d, leaf, r)
        },
    }
}

/// The tree with entry `i` of directory `od` moved into directory `nd`
/// under `name`; the node moved gets `nd` as its parent.
pub open spec fn moved(t: Seq<NodeView>, od: usize, i: int, nd: usize, name: Seq<u8>) -> Seq<
    NodeView,
> {
    let c = t[od as int].kids[i].1;
    let t1 = t.update(od as int, NodeView { kids: t[od as int].kids.remove(i), ..t[od as int] });
    let t2 = t1.update(
        nd as int,
        NodeView { kids: add_sorted(t1[nd as int].kids, name, c), ..t1[nd as int] },
    );
    t2.update(c as int, NodeView { parent: Some(nd), ..t2[c as int] })
}

/// Following parent links from `y`, at most `fuel` nodes, meets `c`.
pub open spec fn reaches(t: Seq<NodeView>, y: usize, c: usize, fuel: nat) -> bool
    decreases fuel,
{
    if fuel == 0 {
        false
    } else if y == c {
        true
    } else {
        match t[y as int].parent {
            Some(p) => p < t.len() && reaches(t, p, c, (fuel - 1) as nat),
            None => false,
        }
    }
}

/// Moving an entry to a new name in a directory that is not the node
/// itself keeps the tree well formed.
#[verifier::rlimit(80)]
pub proof fn lemma_moved_wf(t: Seq<NodeView>, od: usize, i: int, nd: usize, nn: Seq<u8>)
    requires
        tree_wf(t),
        is_dir(t, od),
        is_dir(t, nd),
        0 <= i < t[od as int].kids.len(),
        valid_name(nn),
        child_index(t[nd as int].kids, nn) < 0,
        t[od as int].kids[i].1 != nd,
    ensures
        tree_wf(moved(t, od, i, nd, nn)),
{
    let k = t[od as int].kids;
    let c = k[i].1;
    assert(node_wf(t, od as int));
    assert(node_wf(t, nd as int));
    assert(t[c as int].parent == Some(od));
    lemma_kids_remove(k, i, t.len(), nn);
    let t1 = t.update(od as int, NodeView { kids: k.remove(i), ..t[od as int] });
    let kn = t1[nd as int].kids;
    if nd == od {
        assert(kn == k.remove(i));
        assert forall|j: int| 0 <= j < kn.len() implies #[trigger] kn[j].1 != nd by {
            assert(kn[j] == if j < i { k[j] } else { k[j + 1] });
        }
    } else {
        assert(kn == t[nd as int].kids);
        assert forall|j: int| 0 <= j < kn.len() implies #[trigger] kn[j].1 != c by {
            if kn[j].1 == c {
                assert(t[kn[j].1 as int].parent == Some(nd));
            }
        }
    }
    lemma_kids_add(kn, nn, c, t.len(), nd as int);
    let p = insert_pos(kn, nn);
    let t2 = t1.update(nd as int, NodeView { kids: add_sorted(kn, nn, c), ..t1[nd as int] });
    let t3 = t2.update(c as int, NodeView { parent: Some(nd), ..t2[c as int] });
    assert(t3 == moved(t, od, i, nd, nn));
    assert(c != od);
    assert forall|y: int| 0 <= y < t3.len() implies #[trigger] node_wf(t3, y) by {
        assert(node_wf(t, y));
        assert forall|j: int| 0 <= j < t3[y].kids.len() implies t3[#[trigger] t3[y].kids[j].1 as int].parent
            == Some(y as usize) by {
            let e = t3[y].kids[j].1;
            if y == nd as int {
                let a = if j < p { j } else { j - 1 };
                if j != p {
                    assert(t3[y].kids[j] == kn[a]);
                    if nd == od {
                        let a1 = if a < i { a } else { a + 1 };
                        assert(kn[a] == k[a1]);
                        assert(k[a1].1 != c);
                        assert(t[k[a1].1 as int].parent == Some(od));
                    } else {
                        assert(kn[a] == t[nd as int].kids[a]);
                        assert(kn[a].1 != c);
                        assert(t[t[nd as int].kids[a].1 as int].parent == Some(nd));
                    }
                    assert(e != c);
                    assert(t3[e as int].parent == t[e as int].parent);
                } else {
                    assert(e == c);
                }
            } else if y == od as int {
                let a1 = if j < i { j } else { j + 1 };
                assert(t3[y].kids[j] == k[a1]);
                assert(k[a1].1 != c);
                assert(t[k[a1].1 as int].parent == Some(od));
                assert(t3[e as int].parent == t[e as int].parent);
            } else {
                assert(t3[y].kids[j] == t[y].kids[j]);
                assert(t[t[y].kids[j].1 as int].parent == Some(y as usize));
                if e == c {
                    assert(t[c as int].parent == Some(y as usize));
                    assert(y == od as int);
                }
                assert(t3[e as int].parent == t[e as int].parent);
            }
        }
    }
}

/// What moving the entry at `op` to `np` returns and leaves, both paths
/// walked from node `x`.
pub open spec fn rename_post(
    t: Seq<NodeView>,
    t2: Seq<NodeView>,
    x: usize,
    op: Seq<u8>,
    np: Seq<u8>,
    r: Result<(), FsError>,
) -> bool {
    match (split_parent_spec(op), split_parent_spec(np)) {
        (Some((odp, on)), Some((ndp, nn))) => match resolve(t, x, odp) {
            Err(e) => r == Err::<(), FsError>(e) && t2 == t,
            Ok(od) => if !t[od as int].dir {
                r == Err::<(), FsError>(FsError::NotADirectory) && t2 == t
            } else if child_index(t[od as int].kids, on) < 0 {
                r == Err::<(), FsError>(FsError::NotFound) && t2 == t
            } else {
                match resolve(t, x, ndp) {
                    Err(e) => r == Err::<(), FsError>(e) && t2 == t,
                    Ok(nd) => if !t[nd as int].dir {
                        r == Err::<(), FsError>(FsError::NotADirectory) && t2 == t
                    } else if child_index(t[nd as int].kids, nn) >= 0 {
                        r == Err::<(), FsError>(FsError::AlreadyExists) && t2 == t
                    } else if !valid_name(nn) || reaches(
                        t,
                        nd,
                        t[od as int].kids[child_index(t[od as int].kids, on)].1,
                        t.len(),
                    ) {
                        r == Err::<(), FsError>(FsError::InvalidInput) && t2 == t
                    } else {
                        r == Ok::<(), FsError>(()) && t2 == moved(
                            t,
                            od,
                            child_index(t[od as int].kids, on),
                            nd,
                            nn,
                        )
                    },
                }
            },
        },
        _ => r == Err::<(), FsError>(FsError::InvalidInput) && t2 == t,
    }
}

/// The kind a listing reports for node `c`.
pub open spec fn kind_of(t: Seq<NodeView>, c: usize) -> NodeKind {
    if t[c as int].dir {
        NodeKind::Dir
    } else {
        NodeKind::File
    }
}

/// What node `x` reports of itself.
pub open spec fn attr_of(t: Seq<NodeView>, x: usize) -> NodeAttr {
    if t[x as int].dir {
        NodeAttr { kind: NodeKind::Dir, size: DIR_SIZE }
    } else {
        NodeAttr { kind: NodeKind::File, size: 0 }
    }
}

/// The entries of directory `x`: "." and "..", then its children in order.
pub open spec fn listing(t: Seq<NodeView>, x: usize) -> Seq<(Seq<u8>, NodeKind)> {
    seq![(seq![DOT], NodeKind::Dir), (seq![DOT, DOT], NodeKind::Dir)] + t[x as int].kids.map_values(
        |k: (Seq<u8>, usize)| (k.0, kind_of(t, k.1)),
    )
}

/// How many entries a listing from `start` into `cap` places hands out.
pub open spec fn listed(t: Seq<NodeView>, x: usize, start: int, cap: int) -> int {
    let avail = listing(t, x).len() - start;
    if avail <= 0 {
        0
    } else if cap < avail {
        cap
    } else {
        avail
    }
}

pub proof fn lemma_child_index(kids: Seq<(Seq<u8>, usize)>, name: Seq<u8>)
    ensures
        child_index(kids, name) == -1 <==> forall|i: int|
            0 <= i < kids.len() ==> #[trigger] kids[i].0 != name,
        child_index(kids, name) != -1 ==> 0 <= child_index(kids, name) < kids.len() && kids[child_index(kids, name)].0 == name,
    decreases kids.len(),
{
    if kids.len() > 0 {
        lemma_child_index(kids.drop_last(), name);
        if kids.last().0 != name {
            assert forall|i: int| 0 <= i < kids.len() - 1 implies kids.drop_last()[i] == kids[i] by {}
        }
    }
}

impl Child {
    pub closed spec fn view(&self) -> (Seq<u8>, usize) {
        (self.name@, self.id)
    }
}

impl DirNode {
    pub closed spec fn kids(&self) -> Seq<(Seq<u8>, usize)> {
        self.children@.map_values(|c: Child| c.view())
    }

    pub closed spec fn parent_spec(&self) -> Option<usize> {
        self.parent
    }

    /// An empty directory under `parent` (none for a root).
    pub fn new(parent: Option<usize>) -> (r: Self)
        ensures
            r.kids() == Seq::<(Seq<u8>, usize)>::empty(),
            r.parent_spec() == parent,
    {
        let r = DirNode { parent, children: Vec::new() };
        assert(r.kids() =~= Seq::<(Seq<u8>, usize)>::empty());
        r
    }

    /// The names of the children, in order.
    pub fn get_entries(&self) -> (r: Vec<Vec<u8>>)
        ensures
            r@.map_values(|n: Vec<u8>| n@) == self.kids().map_values(
                |k: (Seq<u8>, usize)| k.0,
            ),
            sorted(self.kids()) ==> forall|i: int, j: int|
                0 <= i < j < r@.len() ==> bytes_lt(#[trigger] r@[i]@, #[trigger] r@[j]@),
    {
        let mut r: Vec<Vec<u8>> = Vec::new();
        let mut i: usize = 0;
        while i < self.children.len()
            invariant
                i <= self.children@.len(),
                r@.len() == i,
                forall|j: int| 0 <= j < i ==> #[trigger] r@[j]@ == self.children@[j].name@,
            decreases self.children@.len() - i,
        {
            r.push(copy_bytes(self.children[i].name.as_slice()));
            i = i + 1;
        }
        assert(r@.map_values(|n: Vec<u8>| n@) =~= self.kids().map_values(
            |k: (Seq<u8>, usize)| k.0,
        ));
        assert(sorted(self.kids()) ==> forall|i: int, j: int|
            0 <= i < j < r@.len() ==> bytes_lt(#[trigger] r@[i]@, #[trigger] r@[j]@)) by {
            if sorted(self.kids()) {
                assert forall|i: int, j: int| 0 <= i < j < r@.len() implies bytes_lt(
                    #[trigger] r@[i]@,
                    #[trigger] r@[j]@,
                ) by {
                    assert(self.kids()[i].0 == r@[i]@);
                    assert(self.kids()[j].0 == r@[j]@);
                }
            }
        }
        r
    }

    /// The position of the child named `name`.
    fn find(&self, name: &[u8]) -> (r: Option<usize>)
        ensures
            match r {
                Some(i) => i as int == child_index(self.kids(), name@),
                None => child_index(self.kids(), name@) == -1,
            },
    {
        let mut i: usize = self.children.len();
        assert(self.kids().take(i as int) =~= self.kids());
        while i > 0
            invariant
                i <= self.children@.len(),
                child_index(self.kids(), name@) == child_index(self.kids().take(i as int), name@),
            decreases i,
        {
            let c = &self.children[i - 1];
            if bytes_eq(c.name.as_slice(), name) {
                return Some(i - 1);
            }
            assert(self.kids().take(i as int).drop_last() =~= self.kids().take(i - 1));
            i = i - 1;
        }
        assert(self.kids().take(0) =~= Seq::<(Seq<u8>, usize)>::empty());
        None
    }

    /// Where a child named `name` goes to keep the children in order.
    fn insert_position(&self, name: &[u8]) -> (r: usize)
        ensures
            r as int == insert_pos(self.kids(), name@),
    {
        let mut i: usize = self.children.len();
        assert(self.kids().take(i as int) =~= self.kids());
        while i > 0
            invariant
                i <= self.children@.len(),
                insert_pos(self.kids(), name@) == insert_pos(self.kids().take(i as int), name@),
            decreases i,
        {
            if bytes_less(self.children[i - 1].name.as_slice(), name) {
                return i;
            }
            assert(self.kids().take(i as int).drop_last() =~= self.kids().take(i - 1));
            i = i - 1;
        }
        i
    }

    /// Whether a child is named `name`.
    pub fn exist(&self, name: &[u8]) -> (r: bool)
        ensures
            r == (child_index(self.kids(), name@) >= 0),
    {
        proof {
            lemma_child_index(self.kids(), name@);
        }
        self.find(name).is_some()
    }
}

/// A copy of a byte string.
pub fn copy_bytes(a: &[u8]) -> (r: Vec<u8>)
    ensures
        r@ == a@,
{
    let mut r: Vec<u8> = Vec::new();
    let mut i: usize = 0;
    while i < a.len()
        invariant
            i <= a@.len(),
            r@ == a@.take(i as int),
        decreases a@.len() - i,
    {
        r.push(a[i]);
        i = i + 1;
        assert(r@ =~= a@.take(i as int));
    }
    assert(a@.take(a@.len() as int) =~= a@);
    r
}

impl Slot {
    pub closed spec fn view(&self) -> NodeView {
        match &self.node {
            Node::File(p) => NodeView { live: self.live, dir: false, parent: *p, kids: seq![] },
            Node::Dir(d) => NodeView {
                live: self.live,
                dir: true,
                parent: d.parent_spec(),
                kids: d.kids(),
            },
        }
    }
}

impl View for RamFs {
    type V = Seq<NodeView>;

    closed spec fn view(&self) -> Seq<NodeView> {
        self.slots@.map_values(|s: Slot| s.view())
    }
}

impl RamFs {
    /// The tree is well formed.
    pub open spec fn wf(&self) -> bool {
        tree_wf(self@)
    }

    /// A tree that holds only an empty root.
    pub fn new() -> (r: Self)
        ensures
            r.wf(),
            r@.len() == 1,
            r@[0].dir,
            r@[0].live,
            r@[0].parent is None,
            r@[0].kids.len() == 0,
    {
        let mut slots: Vec<Slot> = Vec::new();
        slots.push(Slot { live: true, node: Node::Dir(DirNode::new(None)) });
        let r = RamFs { slots };
        assert(node_wf(r@, 0));
        r
    }

    /// The number of nodes the arena holds, detached ones included.
    pub fn node_count(&self) -> (r: usize)
        ensures
            r == self@.len(),
    {
        self.slots.len()
    }

    /// The index of the root.
    pub fn root(&self) -> (r: usize)
        ensures
            r == 0,
    {
        0
    }

    /// The directory at node `x`, where `x` is one.
    pub fn dir(&self, x: usize) -> (r: Option<&DirNode>)
        requires
            x < self@.len(),
        ensures
            r is Some == self@[x as int].dir,
            r matches Some(d) ==> d.kids() == self@[x as int].kids && d.parent_spec()
                == self@[x as int].parent,
    {
        match &self.slots[x].node {
            Node::Dir(d) => Some(d),
            Node::File(_) => None,
        }
    }

    /// The parent of node `x`, where it has a live one.
    pub fn parent(&self, x: usize) -> (r: Option<usize>)
        requires
            self.wf(),
            x < self@.len(),
        ensures
            r == parent_of(self@, x),
    {
        let p = match self.dir(x) {
            Some(d) => d.parent,
            None => None,
        };
        match p {
            Some(q) => if q < self.slots.len() && self.slots[q].live {
                Some(q)
            } else {
                None
            },
            None => None,
        }
    }

    fn step(&self, x: usize, name: &[u8]) -> (r: Result<usize, FsError>)
        requires
            self.wf(),
            is_dir(self@, x),
        ensures
            r == step(self@, x, name@),
            r matches Ok(n) ==> n < self@.len(),
    {
        let dot = name.len() == 1 && name[0] == DOT;
        let dotdot = name.len() == 2 && name[0] == DOT && name[1] == DOT;
        assert(dot == (name@ == seq![DOT])) by {
            if name@.len() == 1 && name@[0] == DOT {
                assert(name@ =~= seq![DOT]);
            }
        }
        assert(dotdot == (name@ == seq![DOT, DOT])) by {
            if name@.len() == 2 && name@[0] == DOT && name@[1] == DOT {
                assert(name@ =~= seq![DOT, DOT]);
            }
        }
        if name.len() == 0 || dot {
            Ok(x)
        } else if dotdot {
            match self.parent(x) {
                Some(p) => Ok(p),
                None => Err(FsError::NotFound),
            }
        } else {
            let d = self.dir(x).unwrap();
            match d.find(name) {
                Some(i) => {
                    proof {
                        assert(node_wf(self@, x as int));
                        lemma_child_index(d.kids(), name@);
                        assert(d.kids()[i as int].1 == d.children@[i as int].id);
                    }
                    Ok(d.children[i].id)
                },
                None => Err(FsError::NotFound),
            }
        }
    }

    fn locate<'a>(&self, x: usize, path: &'a [u8]) -> (r: Result<(usize, &'a [u8]), FsError>)
        requires
            self.wf(),
            x < self@.len(),
        ensures
            match r {
                Ok((d, leaf)) => locate(self@, x, path@) == Ok::<(usize, Seq<u8>), FsError>((d, leaf@)) && is_dir(self@, d),
                Err(e) => locate(self@, x, path@) == Err::<(usize, Seq<u8>), FsError>(e),
            },
    {
        let mut cur: usize = x;
        let mut p: &[u8] = path;
        loop
            invariant
                self.wf(),
                cur < self@.len(),
                locate(self@, x, path@) == locate(self@, cur, p@),
            decreases p@.len(),
        {
            if self.dir(cur).is_none() {
                return Err(FsError::NotADirectory);
            }
            let (name, rest) = split_path(p);
            match rest {
                None => {
                    return Ok((cur, name));
                },
                Some(r) => {
                    proof {
                        lemma_split_first_shrinks(p@);
                    }
                    match self.step(cur, name) {
                        Err(e) => {
                            return Err(e);
                        },
                        Ok(n) => {
                            cur = n;
                            p = r;
                        },
                    }
                },
            }
        }
    }

    /// The node that `path` names, walking from node `x`.
    pub fn lookup(&self, x: usize, path: &str) -> (r: Result<usize, FsError>)
        requires
            self.wf(),
            x < self@.len(),
        ensures
            r == resolve(self@, x, path.spec_bytes()),
            r matches Ok(n) ==> n < self@.len(),
    {
        let bytes = path.as_bytes();
        match self.locate(x, bytes) {
            Err(e) => Err(e),
            Ok((d, leaf)) => self.step(d, leaf),
        }
    }

    /// Puts `s` in slot `x` and hands back what was there.
    fn swap_slot(&mut self, x: usize, s: Slot) -> (r: Slot)
        requires
            x < old(self)@.len(),
        ensures
            final(self)@ == old(self)@.update(x as int, s.view()),
            r.view() == old(self)@[x as int],
    {
        let ghost v = s.view();
        let mut s = s;
        self.slots.set_and_swap(x, &mut s);
        assert(self@ =~= old(self)@.update(x as int, v));
        s
    }

    /// Puts a child into directory `d`, in its place in the order.
    fn add_child(&mut self, d: usize, name: Vec<u8>, id: usize)
        requires
            is_dir(old(self)@, d),
        ensures
            final(self)@ == old(self)@.update(
                d as int,
                NodeView {
                    kids: add_sorted(old(self)@[d as int].kids, name@, id),
                    ..old(self)@[d as int]
                },
            ),
    {
        let slot = self.swap_slot(d, Slot { live: false, node: Node::File(None) });
        let Slot { live, node } = slot;
        let node = match node {
            Node::Dir(mut dn) => {
                let ghost k0 = dn.kids();
                let pos = dn.insert_position(name.as_slice());
                proof {
                    lemma_insert_pos_range(k0, name@);
                }
                dn.children.insert(pos, Child { name, id });
                assert(dn.kids() =~= add_sorted(k0, name@, id));
                Node::Dir(dn)
            },
            Node::File(p) => Node::File(p),
        };
        let _ = self.swap_slot(d, Slot { live, node });
    }

    /// Creates a node of kind `ty` named `name` in directory `d`.
    pub fn create_node(&mut self, d: usize, name: &[u8], ty: NodeKind) -> (r: Result<(), FsError>)
        requires
            old(self).wf(),
            is_dir(old(self)@, d),
            old(self)@.len() < usize::MAX,
        ensures
            final(self).wf(),
            create_node_post(old(self)@, final(self)@, d, name@, ty, r),
    {
        if is_special_name(name) || has_slash(name) {
            return Err(FsError::InvalidInput);
        }
        let dn = self.dir(d).unwrap();
        if dn.exist(name) {
            return Err(FsError::AlreadyExists);
        }
        let fresh = match ty {
            NodeKind::File => Slot { live: true, node: Node::File(Some(d)) },
            NodeKind::Dir => Slot { live: true, node: Node::Dir(DirNode::new(Some(d))) },
            _ => {
                return Err(FsError::Unsupported);
            },
        };
        let ghost t = self@;
        let id = self.slots.len();
        self.slots.push(fresh);
        assert(self@ =~= t.push(fresh_node(ty, d)));
        self.add_child(d, copy_bytes(name), id);
        proof {
            let t2 = self@;
            assert(t2 == with_child(t, d, name@, ty));
            lemma_child_index(t[d as int].kids, name@);
            assert(node_wf(t, d as int));
            assert(kids_ok(t[d as int].kids, t2.len()));
            lemma_kids_add(t[d as int].kids, name@, id, t2.len(), d as int);
            assert forall|x: int| 0 <= x < t2.len() implies #[trigger] node_wf(t2, x) by {
                if x < t.len() {
                    assert(node_wf(t, x));
                }
            }
        }
        Ok(())
    }

    /// Creates a node of kind `ty` at `path`, walking from node `x`. Missing
    /// directories on the way are not created; a last component that names
    /// the directory itself or its parent is taken as already there.
    pub fn create(&mut self, x: usize, path: &str, ty: NodeKind) -> (r: Result<(), FsError>)
        requires
            old(self).wf(),
            x < old(self)@.len(),
            old(self)@.len() < usize::MAX,
        ensures
            final(self).wf(),
            create_post(old(self)@, final(self)@, x, path.spec_bytes(), ty, r),
    {
        let bytes = path.as_bytes();
        match self.locate(x, bytes) {
            Err(e) => Err(e),
            Ok((d, leaf)) => {
                if is_special_name(leaf) {
                    Ok(())
                } else {
                    self.create_node(d, leaf, ty)
                }
            },
        }
    }

    /// What node `x` reports of itself: its kind, and for a directory the
    /// fixed size.
    pub fn get_attr(&self, x: usize) -> (r: NodeAttr)
        requires
            x < self@.len(),
        ensures
            r == attr_of(self@, x),
    {
        if self.dir(x).is_some() {
            NodeAttr { kind: NodeKind::Dir, size: DIR_SIZE }
        } else {
            NodeAttr { kind: NodeKind::File, size: 0 }
        }
    }

    /// Writes the entries of directory `x` from position `start_idx` on into
    /// `dirents`, as many as fit, and returns how many it wrote.
    pub fn read_dir(&self, x: usize, start_idx: usize, dirents: &mut Vec<DirEntry>) -> (r: Result<
        usize,
        FsError,
    >)
        requires
            self.wf(),
            x < self@.len(),
        ensures
            !self@[x as int].dir ==> r == Err::<usize, FsError>(FsError::NotADirectory)
                && final(dirents)@ == old(dirents)@,
            self@[x as int].dir ==> r == Ok::<usize, FsError>(
                listed(self@, x, start_idx as int, old(dirents)@.len() as int) as usize,
            ),
            final(dirents)@.len() == old(dirents)@.len(),
            self@[x as int].dir ==> forall|i: int|
                0 <= i < listed(self@, x, start_idx as int, old(dirents)@.len() as int)
                    ==> #[trigger] final(dirents)@[i].view() == listing(self@, x)[start_idx + i],
            forall|i: int|
                listed(self@, x, start_idx as int, old(dirents)@.len() as int) <= i < old(
                    dirents,
                )@.len() ==> #[trigger] final(dirents)@[i] == old(dirents)@[i],
    {
        let dn = match self.dir(x) {
            Some(d) => d,
            None => {
                return Err(FsError::NotADirectory);
            },
        };
        let cap = dirents.len();
        let len = dn.children.len();
        let count: usize = if start_idx <= 2 {
            let head = 2 - start_idx;
            if cap <= head {
                cap
            } else if cap - head < len {
                cap
            } else {
                head + len
            }
        } else {
            let skip = start_idx - 2;
            if skip >= len {
                0
            } else if cap < len - skip {
                cap
            } else {
                len - skip
            }
        };
        let ghost t = self@;
        let ghost lst = listing(t, x);
        assert(count as int == listed(t, x, start_idx as int, cap as int));
        let mut i: usize = 0;
        while i < count
            invariant
                self.wf(),
                x < self@.len(),
                self@ == t,
                t[x as int].dir,
                dn.kids() == t[x as int].kids,
                lst == listing(t, x),
                len == dn.children@.len(),
                count as int == listed(t, x, start_idx as int, cap as int),
                i <= count,
                dirents@.len() == cap,
                old(dirents)@.len() == cap,
                forall|k: int| 0 <= k < i ==> #[trigger] dirents@[k].view() == lst[start_idx + k],
                forall|k: int| count <= k < cap ==> #[trigger] dirents@[k] == old(dirents)@[k],
            decreases count - i,
        {
            let ent = if i < 2 && start_idx < 2 - i {
                if start_idx + i == 0 {
                    DirEntry { name: vec![DOT], kind: NodeKind::Dir }
                } else {
                    DirEntry { name: vec![DOT, DOT], kind: NodeKind::Dir }
                }
            } else {
                let j: usize = if start_idx >= 2 {
                    (start_idx - 2) + i
                } else {
                    i - (2 - start_idx)
                };
                let c = &dn.children[j];
                assert(dn.kids()[j as int] == (c.name@, c.id));
                proof {
                    assert(node_wf(t, x as int));
                    assert(t[x as int].kids[j as int].1 < t.len());
                }
                let kind = if self.dir(c.id).is_some() {
                    NodeKind::Dir
                } else {
                    NodeKind::File
                };
                DirEntry { name: copy_bytes(c.name.as_slice()), kind }
            };
            assert(ent.view() == lst[start_idx + i]);
            dirents.set(i, ent);
            i = i + 1;
        }
        Ok(count)
    }

    /// Takes entry `i` out of directory `d` and returns its node.
    fn take_child(&mut self, d: usize, i: usize) -> (r: usize)
        requires
            is_dir(old(self)@, d),
            i < old(self)@[d as int].kids.len(),
        ensures
            final(self)@ == old(self)@.update(
                d as int,
                NodeView { kids: old(self)@[d as int].kids.remove(i as int), ..old(self)@[d as int] },
            ),
            r == old(self)@[d as int].kids[i as int].1,
    {
        let slot = self.swap_slot(d, Slot { live: false, node: Node::File(None) });
        let Slot { live, node } = slot;
        let mut id: usize = 0;
        let node = match node {
            Node::Dir(mut dn) => {
                let ghost k0 = dn.kids();
                let c = dn.children.remove(i);
                id = c.id;
                assert(dn.kids() =~= k0.remove(i as int));
                Node::Dir(dn)
            },
            Node::File(p) => Node::File(p),
        };
        let _ = self.swap_slot(d, Slot { live, node });
        id
    }

    /// Marks node `x` live or detached.
    fn set_live(&mut self, x: usize, live: bool)
        requires
            x < old(self)@.len(),
        ensures
            final(self)@ == old(self)@.update(x as int, NodeView { live, ..old(self)@[x as int] }),
    {
        let slot = self.swap_slot(x, Slot { live: false, node: Node::File(None) });
        let Slot { live: _, node } = slot;
        let _ = self.swap_slot(x, Slot { live, node });
    }

    /// Points the parent link of node `x` at `parent`.
    fn set_parent(&mut self, x: usize, parent: Option<usize>)
        requires
            x < old(self)@.len(),
        ensures
            final(self)@ == old(self)@.update(x as int, NodeView { parent, ..old(self)@[x as int] }),
    {
        let slot = self.swap_slot(x, Slot { live: false, node: Node::File(None) });
        let Slot { live, node } = slot;
        let node = match node {
            Node::Dir(mut dn) => {
                dn.parent = parent;
                Node::Dir(dn)
            },
            Node::File(_) => Node::File(parent),
        };
        let _ = self.swap_slot(x, Slot { live, node });
        assert(self@ =~= old(self)@.update(x as int, NodeView { parent, ..old(self)@[x as int] }));
    }

    /// Removes the entry `name` from directory `d`. A directory goes only
    /// when it is empty.
    pub fn remove_node(&mut self, d: usize, name: &[u8]) -> (r: Result<(), FsError>)
        requires
            old(self).wf(),
            is_dir(old(self)@, d),
        ensures
            final(self).wf(),
            remove_node_post(old(self)@, final(self)@, d, name@, r),
    {
        let ghost t = self@;
        let dn = self.dir(d).unwrap();
        let i = match dn.find(name) {
            Some(i) => i,
            None => {
                return Err(FsError::NotFound);
            },
        };
        proof {
            assert(node_wf(t, d as int));
            lemma_child_index(t[d as int].kids, name@);
        }
        let c = dn.children[i].id;
        assert(c == t[d as int].kids[i as int].1);
        match self.dir(c) {
            Some(cd) => {
                if cd.children.len() > 0 {
                    return Err(FsError::DirectoryNotEmpty);
                }
            },
            None => {
                assert(node_wf(t, c as int));
            },
        }
        let _ = self.take_child(d, i);
        self.set_live(c, false);
        proof {
            let t2 = self@;
            assert(t2 == without_child(t, d, i as int));
            lemma_kids_remove(t[d as int].kids, i as int, t.len(), name@);
            assert forall|x: int| 0 <= x < t2.len() implies #[trigger] node_wf(t2, x) by {
                assert(node_wf(t, x));
            }
        }
        Ok(())
    }

    /// Removes the entry at `path`, walking from node `x`. The entries that
    /// stand for a directory itself or its parent cannot be removed.
    pub fn remove(&mut self, x: usize, path: &str) -> (r: Result<(), FsError>)
        requires
            old(self).wf(),
            x < old(self)@.len(),
        ensures
            final(self).wf(),
            remove_post(old(self)@, final(self)@, x, path.spec_bytes(), r),
    {
        let bytes = path.as_bytes();
        match self.locate(x, bytes) {
            Err(e) => Err(e),
            Ok((d, leaf)) => {
                if is_special_name(leaf) {
                    Err(FsError::InvalidInput)
                } else {
                    self.remove_node(d, leaf)
                }
            },
        }
    }

    /// Whether `c` is `y` or one of its ancestors, by parent links.
    fn is_under(&self, y: usize, c: usize) -> (r: bool)
        requires
            y < self@.len(),
        ensures
            r == reaches(self@, y, c, self@.len()),
    {
        let mut cur: usize = y;
        let mut fuel: usize = self.slots.len();
        loop
            invariant
                cur < self@.len(),
                fuel <= self@.len(),
                reaches(self@, y, c, self@.len()) == reaches(self@, cur, c, fuel as nat),
            decreases fuel,
        {
            if fuel == 0 {
                return false;
            }
            if cur == c {
                return true;
            }
            let p = match &self.slots[cur].node {
                Node::Dir(d) => d.parent,
                Node::File(q) => *q,
            };
            match p {
                Some(q) => {
                    if q < self.slots.len() {
                        cur = q;
                        fuel = fuel - 1;
                    } else {
                        return false;
                    }
                },
                None => {
                    return false;
                },
            }
        }
    }

    fn resolve_bytes(&self, x: usize, path: &[u8]) -> (r: Result<usize, FsError>)
        requires
            self.wf(),
            x < self@.len(),
        ensures
            r == resolve(self@, x, path@),
            r matches Ok(n) ==> n < self@.len(),
    {
        match self.locate(x, path) {
            Err(e) => Err(e),
            Ok((d, leaf)) => self.step(d, leaf),
        }
    }

    /// Moves the entry at `old_path` to `new_path`, both walked from node
    /// `x`; the two may lie in different directories. A directory moved
    /// takes its new directory as parent; it cannot move below itself.
    pub fn rename(&mut self, x: usize, old_path: &str, new_path: &str) -> (r: Result<(), FsError>)
        requires
            old(self).wf(),
            x < old(self)@.len(),
        ensures
            final(self).wf(),
            rename_post(old(self)@, final(self)@, x, old_path.spec_bytes(), new_path.spec_bytes(), r),
    {
        let ghost t = self@;
        let (odp, on) = match split_parent(old_path.as_bytes()) {
            Some(v) => v,
            None => {
                return Err(FsError::InvalidInput);
            },
        };
        let (ndp, nn) = match split_parent(new_path.as_bytes()) {
            Some(v) => v,
            None => {
                return Err(FsError::InvalidInput);
            },
        };
        let od = match self.resolve_bytes(x, odp) {
            Ok(n) => n,
            Err(e) => {
                return Err(e);
            },
        };
        let odn = match self.dir(od) {
            Some(a) => a,
            None => {
                return Err(FsError::NotADirectory);
            },
        };
        let i = match odn.find(on) {
            Some(i) => i,
            None => {
                return Err(FsError::NotFound);
            },
        };
        proof {
            assert(node_wf(t, od as int));
            lemma_child_index(t[od as int].kids, on@);
        }
        let c = odn.children[i].id;
        assert(c == t[od as int].kids[i as int].1);
        let nd = match self.resolve_bytes(x, ndp) {
            Ok(n) => n,
            Err(e) => {
                return Err(e);
            },
        };
        let ndn = match self.dir(nd) {
            Some(b) => b,
            None => {
                return Err(FsError::NotADirectory);
            },
        };
        proof {
            assert(node_wf(t, nd as int));
        }
        if ndn.exist(nn) {
            return Err(FsError::AlreadyExists);
        }
        if is_special_name(nn) || has_slash(nn) || self.is_under(nd, c) {
            return Err(FsError::InvalidInput);
        }
        let name = copy_bytes(nn);
        let _ = self.take_child(od, i);
        let ghost t1 = self@;
        proof {
            lemma_child_index(t[nd as int].kids, nn@);
            lemma_moved_wf(t, od, i as int, nd, nn@);
            lemma_kids_remove(t[od as int].kids, i as int, t.len(), nn@);
        }
        self.add_child(nd, name, c);
        self.set_parent(c, Some(nd));
        proof {
            assert(self@ == moved(t, od, i as int, nd, nn@));
        }
        Ok(())
    }
}

/// Whether `a` comes before `b` in byte-wise order.
pub fn bytes_less(a: &[u8], b: &[u8]) -> (r: bool)
    ensures
        r == bytes_lt(a@, b@),
{
    let mut i: usize = 0;
    assert(a@.skip(0) =~= a@ && b@.skip(0) =~= b@);
    while i < a.len() && i < b.len()
        invariant
            i <= a@.len(),
            i <= b@.len(),
            bytes_lt(a@, b@) == bytes_lt(a@.skip(i as int), b@.skip(i as int)),
        decreases a@.len() - i,
    {
        if a[i] != b[i] {
            return a[i] < b[i];
        }
        assert(a@.skip(i as int).drop_first() =~= a@.skip(i + 1));
        assert(b@.skip(i as int).drop_first() =~= b@.skip(i + 1));
        i = i + 1;
    }
    i == a.len() && i < b.len()
}

/// Whether `n` holds a '/'.
pub fn has_slash(n: &[u8]) -> (r: bool)
    ensures
        r == exists|k: int| 0 <= k < n@.len() && n@[k] == SLASH,
{
    let mut i: usize = 0;
    while i < n.len()
        invariant
            i <= n@.len(),
            forall|k: int| 0 <= k < i ==> n@[k] != SLASH,
        decreases n@.len() - i,
    {
        if n[i] == SLASH {
            return true;
        }
        i = i + 1;
    }
    false
}

} // verus!
