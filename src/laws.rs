//! Properties of the tree that relate several operations or hold of every
//! state, proved over the abstract view.

use vstd::prelude::*;
use crate::path::{
    is_special, lemma_slash_from_concat, lemma_slash_from_none, lemma_slash_from_range,
    lemma_split_first_shrinks, lemma_split_parent_join, SLASH, split_first_spec, split_parent_spec, slash_from,
    trim_leading, DOT,
};
use crate::ramfs::{
    attr_of, child_index, child_of, create_post, is_dir, kind_of, lemma_child_index,
    bytes_lt, listing, locate, moved, parent_of, reaches, remove_post, rename_post,
    resolve, step, tree_wf, valid_name, with_child, FsError, NodeKind, NodeView,
};

verus! {

/// Walking a path gives the same result in a second tree that keeps every
/// directory of the first and every step that succeeded in it.
pub proof fn lemma_locate_frame(t: Seq<NodeView>, t2: Seq<NodeView>, x: usize, p: Seq<u8>)
    requires
        locate(t, x, p) is Ok,
        forall|y: usize| #[trigger] is_dir(t, y) ==> is_dir(t2, y),
        forall|y: usize, m: Seq<u8>|
            is_dir(t, y) && (#[trigger] step(t, y, m)) is Ok ==> step(t2, y, m) == step(t, y, m),
    ensures
        locate(t2, x, p) == locate(t, x, p),
    decreases p.len(),
{
    lemma_split_first_shrinks(p);
    let (name, rest) = split_first_spec(p);
    if let Some(r) = rest {
        if let Ok(n) = step(t, x, name) {
            lemma_locate_frame(t, t2, n, r);
        }
    }
}

/// Adding a new entry to directory `d` keeps every step that succeeded.
proof fn lemma_with_child_frame(t: Seq<NodeView>, d: usize, n: Seq<u8>, ty: NodeKind)
    requires
        tree_wf(t),
        t.len() < usize::MAX,
        is_dir(t, d),
        valid_name(n),
        child_index(t[d as int].kids, n) < 0,
    ensures
        step(with_child(t, d, n, ty), d, n) == Ok::<usize, FsError>(t.len() as usize),
        forall|y: usize| #[trigger] is_dir(t, y) ==> is_dir(with_child(t, d, n, ty), y),
        forall|y: usize, m: Seq<u8>|
            is_dir(t, y) && (#[trigger] step(t, y, m)) is Ok ==> step(with_child(t, d, n, ty), y, m)
                == step(t, y, m),
{
    let t2 = with_child(t, d, n, ty);
    let k = t[d as int].kids;
    assert(crate::ramfs::node_wf(t, d as int));
    assert(crate::ramfs::kids_ok(k, t.len() + 1));
    crate::ramfs::lemma_kids_add(k, n, t.len() as usize, t.len() + 1, d as int);
    assert(!is_special(n));
    assert forall|y: usize, m: Seq<u8>|
        is_dir(t, y) && (#[trigger] step(t, y, m)) is Ok implies step(t2, y, m) == step(t, y, m) by {
        if y == d {
            if m != n {
                assert(child_of(t2[d as int].kids, m) == child_of(k, m));
            }
        }
    }
}

/// Creating a file under a name that is absent from its directory succeeds,
/// and the same path then names a file: the node that was added.
pub proof fn law_create_then_lookup(
    t: Seq<NodeView>,
    t2: Seq<NodeView>,
    x: usize,
    p: Seq<u8>,
    r: Result<(), FsError>,
)
    requires
        tree_wf(t),
        t.len() < usize::MAX,
        locate(t, x, p) matches Ok((d, n)) && valid_name(n) && is_dir(t, d) && child_index(
            t[d as int].kids,
            n,
        ) < 0,
        create_post(t, t2, x, p, NodeKind::File, r),
    ensures
        r is Ok,
        resolve(t2, x, p) == Ok::<usize, FsError>(t.len() as usize),
        attr_of(t2, t.len() as usize).kind == NodeKind::File,
{
    let (d, n) = locate(t, x, p)->Ok_0;
    assert(is_dir(t, d)) by {
        lemma_locate_dir(t, x, p);
    }
    lemma_with_child_frame(t, d, n, NodeKind::File);
    lemma_locate_frame(t, t2, x, p);
    assert(t2[t.len() as int] == crate::ramfs::fresh_node(NodeKind::File, d));
}

/// A successful walk ends in a directory.
pub proof fn lemma_locate_dir(t: Seq<NodeView>, x: usize, p: Seq<u8>)
    requires
        locate(t, x, p) is Ok,
    ensures
        is_dir(t, locate(t, x, p)->Ok_0.0),
    decreases p.len(),
{
    lemma_split_first_shrinks(p);
    let (name, rest) = split_first_spec(p);
    if let Some(r) = rest {
        if let Ok(n) = step(t, x, name) {
            lemma_locate_dir(t, n, r);
        }
    }
}

/// What a path names in a well-formed tree is a node of it.
pub proof fn lemma_resolve_node(t: Seq<NodeView>, x: usize, p: Seq<u8>)
    requires
        tree_wf(t),
        resolve(t, x, p) is Ok,
    ensures
        resolve(t, x, p)->Ok_0 < t.len(),
{
    lemma_locate_dir(t, x, p);
    let (d, leaf) = locate(t, x, p)->Ok_0;
    assert(crate::ramfs::node_wf(t, d as int));
    lemma_child_index(t[d as int].kids, leaf);
}

/// A path followed by '/' and a name is walked to the node that the path
/// names, with the name left over, where that node is a directory.
pub proof fn lemma_locate_join(t: Seq<NodeView>, x: usize, q: Seq<u8>, name: Seq<u8>, n: usize)
    requires
        name.len() > 0,
        forall|k: int| 0 <= k < name.len() ==> name[k] != SLASH,
        resolve(t, x, q) == Ok::<usize, FsError>(n),
        is_dir(t, n),
    ensures
        locate(t, x, q + seq![SLASH] + name) == Ok::<(usize, Seq<u8>), FsError>((n, name)),
    decreases q.len(),
{
    let b = seq![SLASH] + name;
    let p = q + b;
    assert(q + seq![SLASH] + name =~= p);
    lemma_slash_from_none(name, 0);
    assert(trim_leading(name) == name);
    assert(split_first_spec(name) == (name, None::<Seq<u8>>));
    let qq = trim_leading(q);
    let pp = trim_leading(p);
    assert(is_dir(t, x));
    if q.len() == 0 {
        assert(split_first_spec(q) == (q, None::<Seq<u8>>));
        assert(pp =~= name);
        assert(split_first_spec(p) == (name, None::<Seq<u8>>));
        assert(locate(t, x, q) == Ok::<(usize, Seq<u8>), FsError>((x, q)));
        assert(step(t, x, q) == Ok::<usize, FsError>(x));
        assert(n == x);
    } else {
        assert(pp =~= qq + b);
        lemma_slash_from_concat(qq, b, 0);
        lemma_slash_from_range(qq, 0);
        let k = slash_from(qq, 0);
        if k >= 0 {
            let first = qq.subrange(0, k);
            let rq = qq.subrange(k + 1, qq.len() as int);
            assert(pp.subrange(0, k) =~= first);
            assert(pp.subrange(k + 1, pp.len() as int) =~= rq + b);
            lemma_split_first_shrinks(q);
            lemma_split_first_shrinks(p);
            let m = step(t, x, first)->Ok_0;
            assert(resolve(t, m, rq) == Ok::<usize, FsError>(n));
            lemma_locate_join(t, m, rq, name, n);
            assert(rq + seq![SLASH] + name =~= rq + b);
            assert(split_first_spec(p) == (first, Some(rq + b)));
            assert(locate(t, x, p) == locate(t, m, rq + b));
        } else {
            assert(pp.subrange(0, qq.len() as int) =~= qq);
            assert(pp.subrange(qq.len() as int + 1, pp.len() as int) =~= name);
            lemma_split_first_shrinks(p);
            assert(split_first_spec(q) == (qq, None::<Seq<u8>>));
            assert(split_first_spec(p) == (qq, Some(name)));
            assert(step(t, x, qq) == Ok::<usize, FsError>(n));
            assert(locate(t, n, name) == Ok::<(usize, Seq<u8>), FsError>((n, name)));
        }
    }
}

/// Creating the same entry a second time fails with `AlreadyExists` and
/// changes nothing: the node made first is still what the path names.
pub proof fn law_create_twice(
    t: Seq<NodeView>,
    t2: Seq<NodeView>,
    t3: Seq<NodeView>,
    x: usize,
    p: Seq<u8>,
    ty: NodeKind,
    ty2: NodeKind,
    r: Result<(), FsError>,
    r2: Result<(), FsError>,
)
    requires
        tree_wf(t),
        t.len() < usize::MAX,
        locate(t, x, p) matches Ok((d, n)) && !is_special(n),
        create_post(t, t2, x, p, ty, r),
        r is Ok,
        create_post(t2, t3, x, p, ty2, r2),
    ensures
        r2 == Err::<(), FsError>(FsError::AlreadyExists),
        t3 == t2,
        resolve(t3, x, p) == Ok::<usize, FsError>(t.len() as usize),
{
    let (d, n) = locate(t, x, p)->Ok_0;
    lemma_locate_dir(t, x, p);
    lemma_with_child_frame(t, d, n, ty);
    lemma_locate_frame(t, t2, x, p);
    assert(step(t2, d, n) is Ok);
    assert(!is_special(n));
    assert(child_index(t2[d as int].kids, n) >= 0);
}

/// Removing a directory that still has children fails with
/// `DirectoryNotEmpty`; removing one without children, or a file, succeeds.
pub proof fn law_remove_needs_empty(
    t: Seq<NodeView>,
    t2: Seq<NodeView>,
    x: usize,
    p: Seq<u8>,
    c: usize,
    r: Result<(), FsError>,
)
    requires
        tree_wf(t),
        locate(t, x, p) matches Ok((d, n)) && !is_special(n),
        resolve(t, x, p) == Ok::<usize, FsError>(c),
        remove_post(t, t2, x, p, r),
    ensures
        t[c as int].kids.len() > 0 ==> r == Err::<(), FsError>(FsError::DirectoryNotEmpty) && t2
            == t,
        t[c as int].kids.len() == 0 ==> r is Ok,
{
    let (d, n) = locate(t, x, p)->Ok_0;
    assert(n != seq![DOT] && n != seq![DOT, DOT] && n.len() != 0);
    assert(child_of(t[d as int].kids, n) == Some(c));
}

/// "." names the directory itself, and ".." from the root names nothing.
pub proof fn law_dot_and_root_parent(t: Seq<NodeView>, x: usize)
    requires
        tree_wf(t),
        is_dir(t, x),
    ensures
        resolve(t, x, seq![DOT]) == Ok::<usize, FsError>(x),
        resolve(t, 0, seq![DOT, DOT]) == Err::<usize, FsError>(FsError::NotFound),
{
    let dot = seq![DOT];
    assert(trim_leading(dot) == dot);
    assert(slash_from(dot, 1) == -1);
    assert(slash_from(dot, 0) == -1);
    assert(split_first_spec(dot) == (dot, None::<Seq<u8>>));
    let dotdot = seq![DOT, DOT];
    assert(trim_leading(dotdot) == dotdot);
    assert(slash_from(dotdot, 2) == -1);
    assert(slash_from(dotdot, 1) == -1);
    assert(slash_from(dotdot, 0) == -1);
    assert(split_first_spec(dotdot) == (dotdot, None::<Seq<u8>>));
    assert(dotdot != dot);
    assert(parent_of(t, 0) is None);
}

/// After a successful move the entry is found under its new name in the
/// new directory and no longer under its old name in the old one; a
/// directory moved keeps its children, and its ".." is the new directory.
pub proof fn law_rename_moves(
    t: Seq<NodeView>,
    od: usize,
    i: int,
    nd: usize,
    nn: Seq<u8>,
)
    requires
        tree_wf(t),
        is_dir(t, od),
        is_dir(t, nd),
        0 <= i < t[od as int].kids.len(),
        valid_name(nn),
        t[od as int].kids[i].1 != nd,
        child_index(t[nd as int].kids, nn) < 0,
    ensures
        ({
            let t2 = moved(t, od, i, nd, nn);
            let c = t[od as int].kids[i].1;
            &&& step(t2, nd, nn) == Ok::<usize, FsError>(c)
            &&& step(t2, od, t[od as int].kids[i].0) == Err::<usize, FsError>(FsError::NotFound)
            &&& t2[c as int].kids == t[c as int].kids
            &&& t2.len() == t.len()
            &&& forall|y: int| 0 <= y < t.len() ==> #[trigger] t2[y].dir == t[y].dir
            &&& (t[c as int].dir && t[nd as int].live ==> parent_of(t2, c) == Some(nd))
        }),
{
    let k = t[od as int].kids;
    let on = k[i].0;
    let c = k[i].1;
    assert(crate::ramfs::node_wf(t, od as int));
    assert(crate::ramfs::node_wf(t, nd as int));
    assert(valid_name(on));
    assert(!is_special(nn));
    assert(!is_special(on));
    crate::ramfs::lemma_kids_remove(k, i, t.len(), on);
    let t1 = t.update(od as int, NodeView { kids: k.remove(i), ..t[od as int] });
    let kn = t1[nd as int].kids;
    crate::ramfs::lemma_kids_remove(k, i, t.len(), nn);
    if nd == od {
        assert forall|j: int| 0 <= j < kn.len() implies #[trigger] kn[j].1 != nd by {
            if j < i {
                assert(kn[j] == k[j]);
            } else {
                assert(kn[j] == k[j + 1]);
            }
        }
        if on == nn {
            lemma_child_index(t[nd as int].kids, nn);
            assert(t[nd as int].kids[i].0 == nn);
        }
    }
    crate::ramfs::lemma_kids_add(kn, nn, c, t.len(), nd as int);
    if nd == od {
        assert(child_of(crate::ramfs::add_sorted(kn, nn, c), on) == child_of(kn, on));
    }
}

/// After a successful rename the node that the old path's leaf named in
/// its directory is named by the new leaf in the new directory, the old
/// leaf names nothing, and a directory moved keeps its children and has the
/// new directory as its "..".
pub proof fn law_rename(
    t: Seq<NodeView>,
    t2: Seq<NodeView>,
    x: usize,
    op: Seq<u8>,
    np: Seq<u8>,
    r: Result<(), FsError>,
)
    requires
        tree_wf(t),
        rename_post(t, t2, x, op, np, r),
        r is Ok,
    ensures
        ({
            let (odp, on) = split_parent_spec(op)->Some_0;
            let (ndp, nn) = split_parent_spec(np)->Some_0;
            let od = resolve(t, x, odp)->Ok_0;
            let nd = resolve(t, x, ndp)->Ok_0;
            let c = t[od as int].kids[child_index(t[od as int].kids, on)].1;
            &&& step(t, od, on) == Ok::<usize, FsError>(c)
            &&& step(t2, nd, nn) == Ok::<usize, FsError>(c)
            &&& step(t2, od, on) == Err::<usize, FsError>(FsError::NotFound)
            &&& t2[c as int].kids == t[c as int].kids
            &&& (t[c as int].dir && t[nd as int].live ==> parent_of(t2, c) == Some(nd))
        }),
{
    let (odp, on) = split_parent_spec(op)->Some_0;
    let (ndp, nn) = split_parent_spec(np)->Some_0;
    let od = resolve(t, x, odp)->Ok_0;
    let nd = resolve(t, x, ndp)->Ok_0;
    lemma_resolve_node(t, x, odp);
    lemma_resolve_node(t, x, ndp);
    let i = child_index(t[od as int].kids, on);
    lemma_child_index(t[od as int].kids, on);
    let c = t[od as int].kids[i].1;
    assert(crate::ramfs::node_wf(t, od as int));
    assert(valid_name(t[od as int].kids[i].0));
    assert(!is_special(on));
    assert(c != nd) by {
        if c == nd {
            assert(reaches(t, nd, c, t.len()));
        }
    }
    law_rename_moves(t, od, i, nd, nn);
}

/// After a successful rename, the new path names the node that the old
/// path named, the old path names nothing, and the children of a directory
/// moved are found under the new path. This holds where neither path ends
/// in '/' and the directory parts of both paths still name what they named
/// before.
pub proof fn law_rename_paths(
    t: Seq<NodeView>,
    t2: Seq<NodeView>,
    x: usize,
    op: Seq<u8>,
    np: Seq<u8>,
    r: Result<(), FsError>,
)
    requires
        tree_wf(t),
        rename_post(t, t2, x, op, np, r),
        r is Ok,
        op.len() > 0 && op.last() != SLASH,
        np.len() > 0 && np.last() != SLASH,
        resolve(t2, x, (split_parent_spec(op)->Some_0).0) == resolve(
            t,
            x,
            (split_parent_spec(op)->Some_0).0,
        ),
        resolve(t2, x, (split_parent_spec(np)->Some_0).0) == resolve(
            t,
            x,
            (split_parent_spec(np)->Some_0).0,
        ),
    ensures
        resolve(t, x, op) is Ok,
        resolve(t2, x, np) == resolve(t, x, op),
        resolve(t2, x, op) == Err::<usize, FsError>(FsError::NotFound),
        t[resolve(t, x, op)->Ok_0 as int].dir ==> forall|m: Seq<u8>|
            valid_name(m) ==> #[trigger] resolve(t2, x, np + seq![SLASH] + m) == step(
                t,
                resolve(t, x, op)->Ok_0,
                m,
            ),
{
    let (odp, on) = split_parent_spec(op)->Some_0;
    let (ndp, nn) = split_parent_spec(np)->Some_0;
    let od = resolve(t, x, odp)->Ok_0;
    let nd = resolve(t, x, ndp)->Ok_0;
    lemma_resolve_node(t, x, odp);
    lemma_resolve_node(t, x, ndp);
    law_rename(t, t2, x, op, np, r);
    let i = child_index(t[od as int].kids, on);
    lemma_child_index(t[od as int].kids, on);
    let c = t[od as int].kids[i].1;
    assert(c != nd) by {
        if c == nd {
            assert(reaches(t, nd, c, t.len()));
        }
    }
    law_rename_moves(t, od, i, nd, nn);
    assert(crate::ramfs::node_wf(t, od as int));
    assert(valid_name(on));
    lemma_split_parent_join(op);
    lemma_split_parent_join(np);
    lemma_locate_dir(t, x, odp);
    let e: Seq<u8> = seq![];
    assert(split_first_spec(e) == (e, None::<Seq<u8>>));
    if odp == seq![SLASH] && op == seq![SLASH] + on {
        assert(seq![SLASH] + on =~= e + seq![SLASH] + on);
        lemma_locate_join(t, x, e, on, od);
        lemma_locate_join(t2, x, e, on, od);
    } else {
        lemma_locate_join(t, x, odp, on, od);
        lemma_locate_join(t2, x, odp, on, od);
    }
    if ndp == seq![SLASH] && np == seq![SLASH] + nn {
        assert(seq![SLASH] + nn =~= e + seq![SLASH] + nn);
        lemma_locate_join(t2, x, e, nn, nd);
    } else {
        lemma_locate_join(t2, x, ndp, nn, nd);
    }
    if t[c as int].dir {
        assert forall|m: Seq<u8>|
            valid_name(m) implies #[trigger] resolve(t2, x, np + seq![SLASH] + m) == step(t, c, m) by {
            lemma_locate_join(t2, x, np, m, c);
        }
    }
}

/// A listing starts with "." and "..", both directories, and goes on with
/// the children in increasing byte-wise order of name, each with its kind.
pub proof fn law_listing_layout(t: Seq<NodeView>, x: usize)
    requires
        tree_wf(t),
        is_dir(t, x),
    ensures
        listing(t, x).len() == t[x as int].kids.len() + 2,
        listing(t, x)[0] == (seq![DOT], NodeKind::Dir),
        listing(t, x)[1] == (seq![DOT, DOT], NodeKind::Dir),
        forall|i: int|
            0 <= i < t[x as int].kids.len() ==> #[trigger] listing(t, x)[i + 2] == (
                t[x as int].kids[i].0,
                kind_of(t, t[x as int].kids[i].1),
            ),
        forall|i: int, j: int|
            2 <= i < j < listing(t, x).len() ==> bytes_lt(
                (#[trigger] listing(t, x)[i]).0,
                (#[trigger] listing(t, x)[j]).0,
            ),
{
    assert(crate::ramfs::node_wf(t, x as int));
    assert forall|i: int, j: int|
        2 <= i < j < listing(t, x).len() implies bytes_lt(
            (#[trigger] listing(t, x)[i]).0,
            (#[trigger] listing(t, x)[j]).0,
        ) by {
        assert(listing(t, x)[i].0 == t[x as int].kids[i - 2].0);
        assert(listing(t, x)[j].0 == t[x as int].kids[j - 2].0);
    }
}

} // verus!
