//! Splitting of '/'-delimited paths, on bytes.

use vstd::prelude::*;

verus! {

/// The byte '/'.
pub const SLASH: u8 = 47;

/// The byte '.'.
pub const DOT: u8 = 46;

/// Drops one leading '/'.
pub open spec fn trim_leading(p: Seq<u8>) -> Seq<u8> {
    if p.len() > 0 && p[0] == SLASH {
        p.drop_first()
    } else {
        p
    }
}

/// Drops one trailing '/'.
pub open spec fn trim_trailing(p: Seq<u8>) -> Seq<u8> {
    if p.len() > 0 && p.last() == SLASH {
        p.drop_last()
    } else {
        p
    }
}

/// Index of the first '/' of `p` at or after `i`, or -1.
pub open spec fn slash_from(p: Seq<u8>, i: int) -> int
    decreases p.len() - i,
{
    if i < 0 || i >= p.len() {
        -1
    } else if p[i] == SLASH {
        i
    } else {
        slash_from(p, i + 1)
    }
}

/// Index of the last '/' of `p` before `i`, or -1.
pub open spec fn slash_before(p: Seq<u8>, i: int) -> int
    decreases i,
{
    if i <= 0 || i > p.len() {
        -1
    } else if p[i - 1] == SLASH {
        i - 1
    } else {
        slash_before(p, i - 1)
    }
}

/// The first component of a path and what follows its first separator.
pub open spec fn split_first_spec(p: Seq<u8>) -> (Seq<u8>, Option<Seq<u8>>) {
    let q = trim_leading(p);
    let k = slash_from(q, 0);
    if k < 0 {
        (q, None)
    } else {
        (q.subrange(0, k), Some(q.subrange(k + 1, q.len() as int)))
    }
}

/// The directory part and the leaf name of a path, or `None` where the path
/// holds no separator.
pub open spec fn split_parent_spec(p: Seq<u8>) -> Option<(Seq<u8>, Seq<u8>)> {
    let t = trim_trailing(p);
    let k = slash_before(t, t.len() as int);
    if k > 0 {
        Some((t.subrange(0, k), t.subrange(k + 1, t.len() as int)))
    } else if k == 0 {
        Some((seq![SLASH], t.subrange(1, t.len() as int)))
    } else {
        None
    }
}

/// A name that stands for the directory itself or its parent, never stored.
pub open spec fn is_special(n: Seq<u8>) -> bool {
    n.len() == 0 || n == seq![DOT] || n == seq![DOT, DOT]
}

pub proof fn lemma_slash_from_range(p: Seq<u8>, i: int)
    requires
        0 <= i,
    ensures
        slash_from(p, i) == -1 || (i <= slash_from(p, i) < p.len() && p[slash_from(p, i)]
            == SLASH),
    decreases p.len() - i,
{
    if i < p.len() && p[i] != SLASH {
        lemma_slash_from_range(p, i + 1);
    }
}

pub proof fn lemma_slash_before_range(p: Seq<u8>, i: int)
    requires
        i <= p.len(),
    ensures
        slash_before(p, i) == -1 || (0 <= slash_before(p, i) < i && p[slash_before(p, i)]
            == SLASH),
    decreases i,
{
    if i > 0 && p[i - 1] != SLASH {
        lemma_slash_before_range(p, i - 1);
    }
}

/// The remainder after the first component is shorter than the path.
pub proof fn lemma_split_first_shrinks(p: Seq<u8>)
    ensures
        split_first_spec(p).1 is Some ==> split_first_spec(p).1->0.len() < p.len(),
        split_first_spec(p).0.len() <= p.len(),
{
    lemma_slash_from_range(trim_leading(p), 0);
}

/// A string without '/' has none from any position on.
pub proof fn lemma_slash_from_none(p: Seq<u8>, i: int)
    requires
        0 <= i,
        forall|k: int| 0 <= k < p.len() ==> p[k] != SLASH,
    ensures
        slash_from(p, i) == -1,
    decreases p.len() - i,
{
    if i < p.len() {
        lemma_slash_from_none(p, i + 1);
    }
}

/// In `a + b` where `b` starts with '/', the first '/' from a position in
/// `a` is the one of `a`, or else the one that starts `b`.
pub proof fn lemma_slash_from_concat(a: Seq<u8>, b: Seq<u8>, i: int)
    requires
        0 <= i <= a.len(),
        b.len() > 0,
        b[0] == SLASH,
    ensures
        slash_from(a + b, i) == if slash_from(a, i) >= 0 {
            slash_from(a, i)
        } else {
            a.len() as int
        },
    decreases a.len() - i,
{
    let c = a + b;
    if i < a.len() {
        assert(c[i] == a[i]);
        if a[i] != SLASH {
            lemma_slash_from_concat(a, b, i + 1);
        }
    } else {
        assert(c[i] == b[0]);
    }
}

/// No '/' stands after the last one found before `i`.
pub proof fn lemma_slash_before_last(p: Seq<u8>, i: int)
    requires
        i <= p.len(),
    ensures
        forall|j: int| slash_before(p, i) < j < i && 0 <= j ==> p[j] != SLASH,
    decreases i,
{
    if i > 0 && p[i - 1] != SLASH {
        lemma_slash_before_last(p, i - 1);
    }
}

/// A path without a trailing '/' that splits is its directory part, a '/'
/// and its leaf; or, directly under the root, a '/' and its leaf. The leaf
/// holds no '/'.
pub proof fn lemma_split_parent_join(p: Seq<u8>)
    requires
        split_parent_spec(p) is Some,
        p.len() > 0,
        p.last() != SLASH,
    ensures
        ({
            let (d, leaf) = split_parent_spec(p)->Some_0;
            &&& forall|k: int| 0 <= k < leaf.len() ==> leaf[k] != SLASH
            &&& (d == seq![SLASH] && p == seq![SLASH] + leaf) || p == d + seq![SLASH] + leaf
        }),
{
    assert(trim_trailing(p) == p);
    lemma_slash_before_range(p, p.len() as int);
    lemma_slash_before_last(p, p.len() as int);
    let k = slash_before(p, p.len() as int);
    let leaf = p.subrange(k + 1, p.len() as int);
    assert forall|j: int| 0 <= j < leaf.len() implies leaf[j] != SLASH by {
        assert(leaf[j] == p[k + 1 + j]);
    }
    if k > 0 {
        assert(p =~= p.subrange(0, k) + seq![SLASH] + leaf);
    } else {
        assert(p =~= seq![SLASH] + leaf);
    }
}

/// Whether two byte strings are equal.
pub fn bytes_eq(a: &[u8], b: &[u8]) -> (r: bool)
    ensures
        r == (a@ == b@),
{
    if a.len() != b.len() {
        return false;
    }
    let mut i: usize = 0;
    while i < a.len()
        invariant
            a@.len() == b@.len(),
            i <= a@.len(),
            forall|j: int| 0 <= j < i ==> a@[j] == b@[j],
        decreases a@.len() - i,
    {
        if a[i] != b[i] {
            return false;
        }
        i = i + 1;
    }
    assert(a@ =~= b@);
    true
}

/// Whether a name is empty, "." or "..".
pub fn is_special_name(n: &[u8]) -> (r: bool)
    ensures
        r == is_special(n@),
{
    if n.len() == 0 {
        true
    } else if n.len() == 1 {
        assert(n@ == seq![DOT] <==> n@[0] == DOT) by {
            if n@[0] == DOT {
                assert(n@ =~= seq![DOT]);
            }
        }
        n[0] == DOT
    } else if n.len() == 2 {
        assert(n@ == seq![DOT, DOT] <==> (n@[0] == DOT && n@[1] == DOT)) by {
            if n@[0] == DOT && n@[1] == DOT {
                assert(n@ =~= seq![DOT, DOT]);
            }
        }
        n[0] == DOT && n[1] == DOT
    } else {
        false
    }
}

/// Splits off the first component of a path: one leading '/' is dropped,
/// then the path is cut at the first '/' that remains.
pub fn split_path(path: &[u8]) -> (r: (&[u8], Option<&[u8]>))
    ensures
        r.0@ == split_first_spec(path@).0,
        r.1 is Some == split_first_spec(path@).1 is Some,
        r.1 is Some ==> r.1->0@ == split_first_spec(path@).1->0,
{
    let q: &[u8] = if path.len() > 0 && path[0] == SLASH {
        &path[1..path.len()]
    } else {
        path
    };
    assert(q@ =~= trim_leading(path@));
    let mut i: usize = 0;
    while i < q.len()
        invariant
            i <= q@.len(),
            q@ == trim_leading(path@),
            slash_from(q@, 0) == slash_from(q@, i as int),
        decreases q@.len() - i,
    {
        if q[i] == SLASH {
            let first = &q[0..i];
            let rest = &q[i + 1..q.len()];
            assert(first@ =~= q@.subrange(0, i as int));
            assert(rest@ =~= q@.subrange(i + 1, q@.len() as int));
            return (first, Some(rest));
        }
        i = i + 1;
    }
    (q, None)
}

/// Splits a path into its directory part and its leaf name: one trailing
/// '/' is dropped, then the path is cut at the last '/' that remains. A path
/// without one gives `None`.
pub fn split_parent(path: &[u8]) -> (r: Option<(&[u8], &[u8])>)
    ensures
        r is Some == split_parent_spec(path@) is Some,
        r matches Some((d, n)) ==> split_parent_spec(path@) == Some((d@, n@)),
{
    let t: &[u8] = if path.len() > 0 && path[path.len() - 1] == SLASH {
        &path[0..path.len() - 1]
    } else {
        path
    };
    assert(t@ =~= trim_trailing(path@));
    let mut i: usize = t.len();
    while i > 0
        invariant
            i <= t@.len(),
            t@ == trim_trailing(path@),
            slash_before(t@, t@.len() as int) == slash_before(t@, i as int),
        decreases i,
    {
        if t[i - 1] == SLASH {
            let pos = i - 1;
            let leaf = &t[pos + 1..t.len()];
            assert(leaf@ =~= t@.subrange(pos + 1, t@.len() as int));
            if pos > 0 {
                let dir = &t[0..pos];
                assert(dir@ =~= t@.subrange(0, pos as int));
                return Some((dir, leaf));
            } else {
                let dir = &t[0..1];
                assert(dir@ =~= seq![SLASH]);
                return Some((dir, leaf));
            }
        }
        i = i - 1;
    }
    None
}

} // verus!
