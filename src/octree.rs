use vstd::prelude::*;
use crate::cells::cell_across;
use crate::edge::Index;
use crate::keys::copy_of;
use crate::leaves::{Cluster, TessError};

verus! {

/// The face opposite to face `f`.
pub open spec fn opposite(f: int) -> int {
    if f % 2 == 0 {
        f + 1
    } else {
        f - 1
    }
}

/// Whether every cluster of `layer` has six neighbour lists, all naming
/// clusters of `layer`.
pub open spec fn layer_wf(layer: Seq<Cluster>) -> bool {
    forall|v: int|
        0 <= v < layer.len() ==> {
            &&& (#[trigger] layer[v]).neighbors@.len() == 6
            &&& forall|f: int, t: int|
                0 <= f < 6 && 0 <= t < layer[v].neighbors@[f]@.len() ==> #[trigger] layer[v].neighbors@[f]@[t]
                    < layer.len()
        }
}

/// Whether the neighbour relation of `layer` is mutual: where `u` is across
/// face `f` of `v`, `v` is across the opposite face of `u`.
pub open spec fn links_mutual(layer: Seq<Cluster>) -> bool {
    &&& layer_wf(layer)
    &&& forall|v: int, f: int, t: int|
        0 <= v < layer.len() && 0 <= f < 6 && 0 <= t < layer[v].neighbors@[f]@.len() ==> layer[
            #[trigger] layer[v].neighbors@[f]@[t] as int
        ].neighbors@[opposite(f)]@.contains(v as usize)
}

fn contains(s: &Vec<usize>, x: usize) -> (r: bool)
    ensures
        r == s@.contains(x),
{
    let mut i: usize = 0;
    while i < s.len()
        invariant
            i <= s@.len(),
            forall|j: int| 0 <= j < i ==> s@[j] != x,
        decreases s@.len() - i,
    {
        if s[i] == x {
            return true;
        }
        i = i + 1;
    }
    false
}

/// Whether every cluster has six neighbour lists naming clusters of the layer.
pub fn check_wf(layer: &Vec<Cluster>) -> (r: bool)
    ensures
        r == layer_wf(layer@),
{
    let n = layer.len();
    let mut v: usize = 0;
    while v < n
        invariant
            n == layer@.len(),
            v <= n,
            forall|u: int|
                0 <= u < v ==> {
                    &&& (#[trigger] layer@[u]).neighbors@.len() == 6
                    &&& forall|f: int, t: int|
                        0 <= f < 6 && 0 <= t < layer@[u].neighbors@[f]@.len()
                            ==> #[trigger] layer@[u].neighbors@[f]@[t] < n
                },
        decreases n - v,
    {
        if layer[v].neighbors.len() != 6 {
            return false;
        }
        let mut f: usize = 0;
        while f < 6
            invariant
                n == layer@.len(),
                v < n,
                layer@[v as int].neighbors@.len() == 6,
                f <= 6,
                forall|f2: int, t: int|
                    0 <= f2 < f && 0 <= t < layer@[v as int].neighbors@[f2]@.len()
                        ==> #[trigger] layer@[v as int].neighbors@[f2]@[t] < n,
            decreases 6 - f,
        {
            let list = &layer[v].neighbors[f];
            let mut t: usize = 0;
            while t < list.len()
                invariant
                    n == layer@.len(),
                    v < n,
                    layer@[v as int].neighbors@.len() == 6,
                    f < 6,
                    list@ == layer@[v as int].neighbors@[f as int]@,
                    t <= list@.len(),
                    forall|f2: int, t2: int|
                        0 <= f2 < f && 0 <= t2 < layer@[v as int].neighbors@[f2]@.len()
                            ==> #[trigger] layer@[v as int].neighbors@[f2]@[t2] < n,
                    forall|t2: int| 0 <= t2 < t ==> #[trigger] list@[t2] < n,
                decreases list@.len() - t,
            {
                if list[t] >= n {
                    return false;
                }
                t = t + 1;
            }
            f = f + 1;
        }
        v = v + 1;
    }
    true
}

/// Whether the neighbour relation of the layer is mutual.
pub fn check_links(layer: &Vec<Cluster>) -> (r: bool)
    ensures
        r == links_mutual(layer@),
{
    if !check_wf(layer) {
        return false;
    }
    let n = layer.len();
    let mut v: usize = 0;
    while v < n
        invariant
            n == layer@.len(),
            layer_wf(layer@),
            v <= n,
            forall|u: int, f: int, t: int|
                0 <= u < v && 0 <= f < 6 && 0 <= t < layer@[u].neighbors@[f]@.len() ==> layer@[
                    #[trigger] layer@[u].neighbors@[f]@[t] as int
                ].neighbors@[opposite(f)]@.contains(u as usize),
        decreases n - v,
    {
        assert(layer@[v as int].neighbors@.len() == 6);
        let mut f: usize = 0;
        while f < 6
            invariant
                n == layer@.len(),
                layer_wf(layer@),
                v < n,
                f <= 6,
                forall|u: int, f2: int, t: int|
                    0 <= u < v && 0 <= f2 < 6 && 0 <= t < layer@[u].neighbors@[f2]@.len() ==> layer@[
                        #[trigger] layer@[u].neighbors@[f2]@[t] as int
                    ].neighbors@[opposite(f2)]@.contains(u as usize),
                forall|f2: int, t: int|
                    0 <= f2 < f && 0 <= t < layer@[v as int].neighbors@[f2]@.len() ==> layer@[
                        #[trigger] layer@[v as int].neighbors@[f2]@[t] as int
                    ].neighbors@[opposite(f2)]@.contains(v),
            decreases 6 - f,
        {
            let back: usize = if f % 2 == 0 {
                f + 1
            } else {
                f - 1
            };
            let list = &layer[v].neighbors[f];
            let mut t: usize = 0;
            while t < list.len()
                invariant
                    n == layer@.len(),
                    layer_wf(layer@),
                    v < n,
                    f < 6,
                    back == opposite(f as int),
                    list@ == layer@[v as int].neighbors@[f as int]@,
                    t <= list@.len(),
                    forall|u: int, f2: int, t2: int|
                        0 <= u < v && 0 <= f2 < 6 && 0 <= t2 < layer@[u].neighbors@[f2]@.len()
                            ==> layer@[#[trigger] layer@[u].neighbors@[f2]@[t2] as int].neighbors@[opposite(
                            f2,
                        )]@.contains(u as usize),
                    forall|f2: int, t2: int|
                        0 <= f2 < f && 0 <= t2 < layer@[v as int].neighbors@[f2]@.len() ==> layer@[
                            #[trigger] layer@[v as int].neighbors@[f2]@[t2] as int
                        ].neighbors@[opposite(f2)]@.contains(v),
                    forall|t2: int|
                        0 <= t2 < t ==> layer@[#[trigger] list@[t2] as int].neighbors@[opposite(
                            f as int,
                        )]@.contains(v),
                decreases list@.len() - t,
            {
                let u = list[t];
                assert(layer@[v as int].neighbors@[f as int]@[t as int] < n);
                assert(layer@[u as int].neighbors@.len() == 6);
                if !contains(&layer[u].neighbors[back], v) {
                    return false;
                }
                t = t + 1;
            }
            f = f + 1;
        }
        v = v + 1;
    }
    true
}

/// Whether cell `c` lies on the side of its super-cell that face `f` looks out of.
pub open spec fn on_side(c: Index, f: int) -> bool {
    c.coord(f / 2) as int % 2 == f % 2
}

/// Whether child `c` of `base` lends its parent a link to cluster `q` of
/// the next layer across face `f`: `c` lies on that side of its super-cell
/// and one of its neighbours across `f` went to `q`.
pub open spec fn lends(base: Seq<Cluster>, parent_of: Seq<Option<usize>>, c: int, f: int, q: usize) -> bool {
    &&& on_side(base[c].index, f)
    &&& exists|s: int|
        0 <= s < base[c].neighbors@[f]@.len() && parent_of[#[trigger] base[c].neighbors@[f]@[s] as int]
            == Some(q)
}

/// The number of clusters not yet given a parent.
pub open spec fn free_count(s: Seq<Option<usize>>) -> nat
    decreases s.len(),
{
    if s.len() == 0 {
        0
    } else {
        free_count(s.drop_last()) + if s.last() is None {
            1nat
        } else {
            0
        }
    }
}

proof fn lemma_free_update(s: Seq<Option<usize>>, i: int, x: usize)
    requires
        0 <= i < s.len(),
        s[i] is None,
    ensures
        free_count(s.update(i, Some(x))) + 1 == free_count(s),
    decreases s.len(),
{
    let u = s.update(i, Some(x));
    if i == s.len() - 1 {
        assert(u.drop_last() =~= s.drop_last());
    } else {
        assert(u.drop_last() =~= s.drop_last().update(i, Some(x)));
        lemma_free_update(s.drop_last(), i, x);
    }
}

/// Adds to `lists` the links that child `c` lends its parent.
fn add_child_links(
    lists: &mut Vec<Vec<usize>>,
    base: &Vec<Cluster>,
    parent_of: &Vec<Option<usize>>,
    c: usize,
    m: usize,
)
    requires
        old(lists)@.len() == 6,
        layer_wf(base@),
        c < base@.len(),
        parent_of@.len() == base@.len(),
        forall|j: int| 0 <= j < parent_of@.len() ==> (#[trigger] parent_of@[j]) is Some && parent_of@[j]->0 < m,
        forall|f: int, t: int|
            0 <= f < 6 && 0 <= t < old(lists)@[f]@.len() ==> #[trigger] old(lists)@[f]@[t] < m,
        forall|f: int| 0 <= f < 6 ==> (#[trigger] old(lists)@[f])@.no_duplicates(),
    ensures
        final(lists)@.len() == 6,
        forall|f: int| 0 <= f < 6 ==> (#[trigger] final(lists)@[f])@.no_duplicates(),
        forall|f: int, t: int|
            0 <= f < 6 && 0 <= t < final(lists)@[f]@.len() ==> #[trigger] final(lists)@[f]@[t] < m,
        forall|f: int, q: usize|
            0 <= f < 6 ==> (#[trigger] final(lists)@[f]@.contains(q) <==> (old(lists)@[f]@.contains(q)
                || lends(base@, parent_of@, c as int, f, q))),
{
    let ghost start = lists@;
    let idx = base[c].index;
    let mut d: usize = 0;
    while d < 3
        invariant
            lists@.len() == 6,
            start.len() == 6,
            layer_wf(base@),
            c < base@.len(),
            idx == base@[c as int].index,
            parent_of@.len() == base@.len(),
            forall|j: int| 0 <= j < parent_of@.len() ==> (#[trigger] parent_of@[j]) is Some && parent_of@[j]->0 < m,
            d <= 3,
            forall|f: int| 0 <= f < 6 ==> (#[trigger] lists@[f])@.no_duplicates(),
            forall|f: int, t: int|
                0 <= f < 6 && 0 <= t < lists@[f]@.len() ==> #[trigger] lists@[f]@[t] < m,
            forall|f: int, q: usize|
                0 <= f < 6 ==> (#[trigger] lists@[f]@.contains(q) <==> (start[f]@.contains(q) || (f
                    / 2 < d && lends(base@, parent_of@, c as int, f, q)))),
        decreases 3 - d,
    {
        let f = 2 * d + idx.get(d) % 2;
        assert(on_side(idx, f as int));
        assert(!on_side(idx, (2 * d + 1 - idx.coord(d as int) % 2) as int));
        let nbrs = &base[c].neighbors[f];
        let mut s: usize = 0;
        while s < nbrs.len()
            invariant
                lists@.len() == 6,
                start.len() == 6,
                layer_wf(base@),
                c < base@.len(),
                idx == base@[c as int].index,
                parent_of@.len() == base@.len(),
                forall|j: int|
                    0 <= j < parent_of@.len() ==> (#[trigger] parent_of@[j]) is Some && parent_of@[j]->0 < m,
                d < 3,
                f == 2 * d + idx.coord(d as int) % 2,
                on_side(idx, f as int),
                nbrs@ == base@[c as int].neighbors@[f as int]@,
                s <= nbrs@.len(),
                forall|f2: int| 0 <= f2 < 6 ==> (#[trigger] lists@[f2])@.no_duplicates(),
                forall|f2: int, t: int|
                    0 <= f2 < 6 && 0 <= t < lists@[f2]@.len() ==> #[trigger] lists@[f2]@[t] < m,
                forall|f2: int, q: usize|
                    0 <= f2 < 6 && f2 != f ==> (#[trigger] lists@[f2]@.contains(q) <==> (
                    start[f2]@.contains(q) || (f2 / 2 < d && lends(base@, parent_of@, c as int, f2, q)))),
                forall|q: usize|
                    #[trigger] lists@[f as int]@.contains(q) <==> (start[f as int]@.contains(q) || exists|
                        s2: int,
                    |
                        0 <= s2 < s && parent_of@[#[trigger] nbrs@[s2] as int] == Some(q)),
            decreases nbrs@.len() - s,
        {
            let nb = nbrs[s];
            assert(base@[c as int].neighbors@[f as int]@[s as int] < base@.len());
            let q = parent_of[nb].unwrap();
            let ghost before = lists@;
            if !contains(&lists[f], q) {
                lists[f].push(q);
                proof {
                    assert forall|f2: int| 0 <= f2 < 6 implies (#[trigger] lists@[f2])@.no_duplicates() by {
                        if f2 == f {
                            assert forall|x: int, y: int| 0 <= x < y < lists@[f2]@.len() implies lists@[f2]@[x] != lists@[f2]@[y] by {
                                if y == lists@[f2]@.len() - 1 {
                                    assert(lists@[f2]@[x] == before[f2]@[x]);
                                    assert(before[f2]@.contains(before[f2]@[x]));
                                } else {
                                    assert(lists@[f2]@[x] == before[f2]@[x] && lists@[f2]@[y] == before[f2]@[y]);
                                }
                            }
                        } else {
                            assert(lists@[f2] == before[f2]);
                        }
                    }
                    assert forall|q2: usize|
                        #[trigger] lists@[f as int]@.contains(q2) <==> (before[f as int]@.contains(q2)
                            || q2 == q) by {
                        if lists@[f as int]@.contains(q2) && q2 != q {
                            let w = choose|w: int|
                                0 <= w < lists@[f as int]@.len() && lists@[f as int]@[w] == q2;
                            assert(before[f as int]@[w] == q2);
                        }
                        if q2 == q {
                            assert(lists@[f as int]@[before[f as int]@.len() as int] == q);
                        }
                        if before[f as int]@.contains(q2) {
                            let w = choose|w: int|
                                0 <= w < before[f as int]@.len() && before[f as int]@[w] == q2;
                            assert(lists@[f as int]@[w] == q2);
                        }
                    }
                    assert forall|f2: int, q2: usize|
                        0 <= f2 < 6 && f2 != f implies (#[trigger] lists@[f2]@.contains(q2) <==> (
                        start[f2]@.contains(q2) || (f2 / 2 < d && lends(base@, parent_of@, c as int, f2, q2)))) by {
                        assert(lists@[f2] == before[f2]);
                    }
                }
            }
            proof {
                assert(parent_of@[nbrs@[s as int] as int] == Some(q));
                assert forall|q2: usize|
                    #[trigger] lists@[f as int]@.contains(q2) <==> (start[f as int]@.contains(q2) || exists|
                        s2: int,
                    |
                        0 <= s2 <= s && parent_of@[#[trigger] nbrs@[s2] as int] == Some(q2)) by {
                    if exists|s2: int| 0 <= s2 <= s && parent_of@[#[trigger] nbrs@[s2] as int] == Some(q2) {
                        let s2 = choose|s2: int| 0 <= s2 <= s && parent_of@[#[trigger] nbrs@[s2] as int] == Some(q2);
                        if s2 < s {
                            assert(before[f as int]@.contains(q2) || start[f as int]@.contains(q2));
                        }
                    }
                }
            }
            s = s + 1;
        }
        proof {
            assert forall|f2: int, q: usize|
                0 <= f2 < 6 implies (#[trigger] lists@[f2]@.contains(q) <==> (start[f2]@.contains(q) || (f2
                / 2 < d + 1 && lends(base@, parent_of@, c as int, f2, q)))) by {
                if f2 / 2 == d && f2 != f {
                    assert(!on_side(idx, f2));
                }
                if f2 == f {
                    if lends(base@, parent_of@, c as int, f2, q) {
                        let s2 = choose|s2: int|
                            0 <= s2 < base@[c as int].neighbors@[f2]@.len() && parent_of@[#[trigger] base@[c as int].neighbors@[f2]@[s2] as int]
                                == Some(q);
                        assert(parent_of@[nbrs@[s2] as int] == Some(q));
                    }
                }
            }
        }
        d = d + 1;
    }
    proof {
        assert forall|f: int, q: usize|
            0 <= f < 6 implies (#[trigger] lists@[f]@.contains(q) <==> (start[f]@.contains(q)
                || lends(base@, parent_of@, c as int, f, q))) by {
            assert(f / 2 < 3);
        }
    }
}

/// Whether each of `m` after the first is a neighbour of one before it, so
/// that links join them all to the first.
#[verifier::opaque]
pub open spec fn chained(base: Seq<Cluster>, m: Seq<usize>) -> bool {
    forall|t: int|
        #![trigger m[t]]
        0 < t < m.len() ==> exists|t2: int, f: int, s: int|
            #![trigger base[m[t2] as int].neighbors@[f]@[s]]
            0 <= t2 < t && 0 <= f < 6 && 0 <= s < base[m[t2] as int].neighbors@[f]@.len()
                && base[m[t2] as int].neighbors@[f]@[s] == m[t]
}

/// Whether every neighbour of cluster `u` that lies in super-cell `cell`,
/// across a face before `f` or across face `f` before position `t`, went
/// to group `p`.
pub open spec fn linked_in(
    base: Seq<Cluster>,
    po: Seq<Option<usize>>,
    u: int,
    f: int,
    t: int,
    cell: Index,
    p: usize,
) -> bool {
    forall|f2: int, s: int|
        0 <= f2 < 6 && 0 <= s < base[u].neighbors@[f2]@.len() && (f2 < f || (f2 == f && s < t))
            && base[base[u].neighbors@[f2]@[s] as int].index.halved() == cell ==> po[#[trigger] base[u].neighbors@[f2]@[s] as int]
            == Some(p)
}

proof fn lemma_linked_same(
    a: Seq<Cluster>,
    b: Seq<Cluster>,
    po: Seq<Option<usize>>,
    u: int,
    cell: Index,
    p: usize,
)
    requires
        linked_in(a, po, u, 6, 0, cell, p),
        layer_wf(a),
        same_but_parents(a, b),
        0 <= u < a.len(),
    ensures
        linked_in(b, po, u, 6, 0, cell, p),
{
    assert forall|f2: int, s: int|
        0 <= f2 < 6 && 0 <= s < b[u].neighbors@[f2]@.len() && (f2 < 6 || (f2 == 6 && s < 0))
            && b[b[u].neighbors@[f2]@[s] as int].index.halved() == cell implies po[#[trigger] b[u].neighbors@[f2]@[s] as int]
        == Some(p) by {
        assert(a[u].neighbors == b[u].neighbors);
        let x = a[u].neighbors@[f2]@[s] as int;
        assert(x < a.len());
        assert(a[x].index == b[x].index);
    }
}

proof fn lemma_linked_update(
    base: Seq<Cluster>,
    po: Seq<Option<usize>>,
    u: int,
    f: int,
    t: int,
    cell: Index,
    p: usize,
    nb: int,
    x: usize,
)
    requires
        linked_in(base, po, u, f, t, cell, p),
        layer_wf(base),
        po.len() == base.len(),
        0 <= u < base.len(),
        0 <= nb < po.len(),
        po[nb] is None,
    ensures
        linked_in(base, po.update(nb, Some(x)), u, f, t, cell, p),
{
    assert forall|f2: int, s: int|
        0 <= f2 < 6 && 0 <= s < base[u].neighbors@[f2]@.len() && (f2 < f || (f2 == f && s < t))
            && base[base[u].neighbors@[f2]@[s] as int].index.halved() == cell implies po.update(nb, Some(x))[#[trigger] base[u].neighbors@[f2]@[s] as int]
        == Some(p) by {
        assert(base[u].neighbors@[f2]@[s] < base.len());
        assert(po[base[u].neighbors@[f2]@[s] as int] == Some(p));
    }
}

/// Groups the clusters of `base` that share a super-cell and are linked
/// through clusters of that super-cell. Returns, for each group, its members
/// and its super-cell, and for each cluster its group.
fn group_clusters(base: &Vec<Cluster>) -> (r: (Vec<Vec<usize>>, Vec<Index>, Vec<Option<usize>>))
    requires
        layer_wf(base@),
    ensures
        r.0@.len() == r.1@.len(),
        r.0@.len() <= base@.len(),
        r.2@.len() == base@.len(),
        forall|j: int|
            0 <= j < base@.len() ==> (#[trigger] r.2@[j]) is Some && r.2@[j]->0 < r.0@.len()
                && r.0@[r.2@[j]->0 as int]@.contains(j as usize),
        forall|p: int| 0 <= p < r.0@.len() ==> (#[trigger] r.0@[p])@.no_duplicates(),
        forall|p: int|
            0 <= p < r.0@.len() ==> (#[trigger] r.0@[p])@.len() > 0 && forall|t: int|
                0 <= t < r.0@[p]@.len() ==> #[trigger] r.0@[p]@[t] < base@.len() && r.2@[r.0@[p]@[t] as int]
                    == Some(p as usize) && base@[r.0@[p]@[t] as int].index.halved() == r.1@[p],
        forall|p: int| 0 <= p < r.0@.len() ==> chained(base@, #[trigger] r.0@[p]@),
        links_mutual(base@) ==> forall|p: int, t: int|
            0 <= p < r.0@.len() && 0 <= t < r.0@[p]@.len() ==> #[trigger] linked_in(
                base@,
                r.2@,
                r.0@[p]@[t] as int,
                6,
                0,
                r.1@[p],
                p as usize,
            ),
{
    let ghost mu = links_mutual(base@);
    let n = base.len();
    let mut parent_of: Vec<Option<usize>> = Vec::new();
    while parent_of.len() < n
        invariant
            parent_of@.len() <= n,
            forall|j: int| 0 <= j < parent_of@.len() ==> (#[trigger] parent_of@[j]) is None,
        decreases n - parent_of@.len(),
    {
        parent_of.push(None);
    }
    let mut groups: Vec<Vec<usize>> = Vec::new();
    let mut cells: Vec<Index> = Vec::new();
    let mut i: usize = 0;
    while i < n
        invariant
            n == base@.len(),
            layer_wf(base@),
            parent_of@.len() == n,
            groups@.len() == cells@.len(),
            groups@.len() <= i <= n,
            forall|q: int| 0 <= q < groups@.len() ==> chained(base@, #[trigger] groups@[q]@),
            mu == links_mutual(base@),
            mu ==> forall|q: int, t: int|
                0 <= q < groups@.len() && 0 <= t < groups@[q]@.len() ==> #[trigger] linked_in(
                    base@,
                    parent_of@,
                    groups@[q]@[t] as int,
                    6,
                    0,
                    cells@[q],
                    q as usize,
                ),
            forall|p: int| 0 <= p < groups@.len() ==> (#[trigger] groups@[p])@.no_duplicates(),
            forall|j: int| 0 <= j < i ==> (#[trigger] parent_of@[j]) is Some,
            forall|j: int|
                0 <= j < n && (#[trigger] parent_of@[j]) is Some ==> parent_of@[j]->0 < groups@.len()
                    && groups@[parent_of@[j]->0 as int]@.contains(j as usize),
            forall|p: int|
                0 <= p < groups@.len() ==> (#[trigger] groups@[p])@.len() > 0 && forall|t: int|
                    0 <= t < groups@[p]@.len() ==> #[trigger] groups@[p]@[t] < n && parent_of@[groups@[p]@[t] as int]
                        == Some(p as usize) && base@[groups@[p]@[t] as int].index.halved() == cells@[p],
        decreases n - i,
    {
        if parent_of[i].is_none() {
            let p = groups.len();
            let cell = base[i].index.half();
            let mut members: Vec<usize> = Vec::new();
            members.push(i);
            proof {
                lemma_free_update(parent_of@, i as int, p);
                if mu {
                    assert forall|q: int, t: int|
                        0 <= q < groups@.len() && 0 <= t < groups@[q]@.len() implies #[trigger] linked_in(
                        base@,
                        parent_of@.update(i as int, Some(p)),
                        groups@[q]@[t] as int,
                        6,
                        0,
                        cells@[q],
                        q as usize,
                    ) by {
                        lemma_linked_update(base@, parent_of@, groups@[q]@[t] as int, 6, 0, cells@[q], q as usize, i as int, p);
                    }
                }
            }
            parent_of.set(i, Some(p));
            assert(members@[0] == i);
            assert(chained(base@, members@)) by {
                reveal(chained);
            }
            let mut h: usize = 0;
            while h < members.len()
                invariant
                    n == base@.len(),
                    layer_wf(base@),
                    parent_of@.len() == n,
                    groups@.len() == cells@.len(),
                    p == groups@.len(),
                    p < i + 1,
                    i < n,
                    cell == base@[i as int].index.halved(),
                    h <= members@.len(),
                    members@.len() > 0,
                    members@.no_duplicates(),
                    chained(base@, members@),
                    forall|q: int| 0 <= q < groups@.len() ==> chained(base@, #[trigger] groups@[q]@),
                    mu == links_mutual(base@),
                    mu ==> forall|q: int, t: int|
                        0 <= q < groups@.len() && 0 <= t < groups@[q]@.len() ==> #[trigger] linked_in(
                            base@,
                            parent_of@,
                            groups@[q]@[t] as int,
                            6,
                            0,
                            cells@[q],
                            q as usize,
                        ),
                    mu ==> forall|t: int| 0 <= t < h ==> #[trigger] linked_in(base@, parent_of@, members@[t] as int, 6, 0, cell, p),
                    forall|q: int| 0 <= q < groups@.len() ==> (#[trigger] groups@[q])@.no_duplicates(),
                    forall|j: int| 0 <= j < i ==> (#[trigger] parent_of@[j]) is Some,
                    parent_of@[i as int] is Some,
                    forall|j: int|
                        0 <= j < n && (#[trigger] parent_of@[j]) is Some ==> (parent_of@[j]->0 < p
                            && groups@[parent_of@[j]->0 as int]@.contains(j as usize)) || (parent_of@[j]
                            == Some(p) && members@.contains(j as usize)),
                    forall|q: int|
                        0 <= q < groups@.len() ==> (#[trigger] groups@[q])@.len() > 0 && forall|t: int|
                            0 <= t < groups@[q]@.len() ==> #[trigger] groups@[q]@[t] < n
                                && parent_of@[groups@[q]@[t] as int] == Some(q as usize)
                                && base@[groups@[q]@[t] as int].index.halved() == cells@[q],
                    forall|t: int|
                        0 <= t < members@.len() ==> #[trigger] members@[t] < n && parent_of@[members@[t] as int]
                            == Some(p) && base@[members@[t] as int].index.halved() == cell,
                decreases free_count(parent_of@) + members@.len() - h,
            {
                let u = members[h];
                let ghost old_measure = free_count(parent_of@) + members@.len();
                let mut f: usize = 0;
                while f < 6
                    invariant
                        n == base@.len(),
                        layer_wf(base@),
                        parent_of@.len() == n,
                        groups@.len() == cells@.len(),
                        p == groups@.len(),
                        u < n,
                        free_count(parent_of@) + members@.len() == old_measure,
                        f <= 6,
                        members@.no_duplicates(),
                        chained(base@, members@),
                        forall|q: int| 0 <= q < groups@.len() ==> chained(base@, #[trigger] groups@[q]@),
                        mu == links_mutual(base@),
                        mu ==> forall|q: int, t: int|
                            0 <= q < groups@.len() && 0 <= t < groups@[q]@.len() ==> #[trigger] linked_in(
                                base@,
                                parent_of@,
                                groups@[q]@[t] as int,
                                6,
                                0,
                                cells@[q],
                                q as usize,
                            ),
                        u == members@[h as int],
                        mu ==> forall|t: int| 0 <= t < h ==> #[trigger] linked_in(base@, parent_of@, members@[t] as int, 6, 0, cell, p),
                        mu ==> linked_in(base@, parent_of@, u as int, f as int, 0, cell, p),
                        forall|q: int| 0 <= q < groups@.len() ==> (#[trigger] groups@[q])@.no_duplicates(),
                        forall|j: int| 0 <= j < i ==> (#[trigger] parent_of@[j]) is Some,
                        parent_of@[i as int] is Some,
                        h < members@.len(),
                        forall|j: int|
                            0 <= j < n && (#[trigger] parent_of@[j]) is Some ==> (parent_of@[j]->0 < p
                                && groups@[parent_of@[j]->0 as int]@.contains(j as usize)) || (
                            parent_of@[j] == Some(p) && members@.contains(j as usize)),
                        forall|q: int|
                            0 <= q < groups@.len() ==> (#[trigger] groups@[q])@.len() > 0 && forall|t: int|
                                0 <= t < groups@[q]@.len() ==> #[trigger] groups@[q]@[t] < n
                                    && parent_of@[groups@[q]@[t] as int] == Some(q as usize)
                                    && base@[groups@[q]@[t] as int].index.halved() == cells@[q],
                        forall|t: int|
                            0 <= t < members@.len() ==> #[trigger] members@[t] < n
                                && parent_of@[members@[t] as int] == Some(p)
                                && base@[members@[t] as int].index.halved() == cell,
                    decreases 6 - f,
                {
                    let nbrs = &base[u].neighbors[f];
                    let mut t: usize = 0;
                    while t < nbrs.len()
                        invariant
                            n == base@.len(),
                            layer_wf(base@),
                            parent_of@.len() == n,
                            groups@.len() == cells@.len(),
                            p == groups@.len(),
                            u < n,
                            f < 6,
                            nbrs@ == base@[u as int].neighbors@[f as int]@,
                            t <= nbrs@.len(),
                            free_count(parent_of@) + members@.len() == old_measure,
                            members@.no_duplicates(),
                            chained(base@, members@),
                            forall|q: int| 0 <= q < groups@.len() ==> chained(base@, #[trigger] groups@[q]@),
                            mu == links_mutual(base@),
                            mu ==> forall|q: int, t: int|
                                0 <= q < groups@.len() && 0 <= t < groups@[q]@.len() ==> #[trigger] linked_in(
                                    base@,
                                    parent_of@,
                                    groups@[q]@[t] as int,
                                    6,
                                    0,
                                    cells@[q],
                                    q as usize,
                                ),
                            u == members@[h as int],
                            mu ==> forall|t: int| 0 <= t < h ==> #[trigger] linked_in(base@, parent_of@, members@[t] as int, 6, 0, cell, p),
                            mu ==> linked_in(base@, parent_of@, u as int, f as int, t as int, cell, p),
                            forall|q: int| 0 <= q < groups@.len() ==> (#[trigger] groups@[q])@.no_duplicates(),
                            forall|j: int| 0 <= j < i ==> (#[trigger] parent_of@[j]) is Some,
                            parent_of@[i as int] is Some,
                            h < members@.len(),
                            forall|j: int|
                                0 <= j < n && (#[trigger] parent_of@[j]) is Some ==> (parent_of@[j]->0
                                    < p && groups@[parent_of@[j]->0 as int]@.contains(j as usize)) || (
                                parent_of@[j] == Some(p) && members@.contains(j as usize)),
                            forall|q: int|
                                0 <= q < groups@.len() ==> (#[trigger] groups@[q])@.len() > 0 && forall|
                                    t: int,
                                |
                                    0 <= t < groups@[q]@.len() ==> #[trigger] groups@[q]@[t] < n
                                        && parent_of@[groups@[q]@[t] as int] == Some(q as usize)
                                        && base@[groups@[q]@[t] as int].index.halved() == cells@[q],
                            forall|t: int|
                                0 <= t < members@.len() ==> #[trigger] members@[t] < n
                                    && parent_of@[members@[t] as int] == Some(p)
                                    && base@[members@[t] as int].index.halved() == cell,
                        decreases nbrs@.len() - t,
                    {
                        let nb = nbrs[t];
                        assert(base@[u as int].neighbors@[f as int]@[t as int] < n);
                        if parent_of[nb].is_none() && base[nb].index.half() == cell {
                            proof {
                                lemma_free_update(parent_of@, nb as int, p);
                            }
                            let ghost before = members@;
                            proof {
                                if before.contains(nb) {
                                    let w = choose|w: int| 0 <= w < before.len() && before[w] == nb;
                                    assert(parent_of@[before[w] as int] == Some(p));
                                }
                                if mu {
                                    let po = parent_of@;
                                    assert forall|q: int, t2: int|
                                        0 <= q < groups@.len() && 0 <= t2 < groups@[q]@.len() implies #[trigger] linked_in(
                                        base@,
                                        po.update(nb as int, Some(p)),
                                        groups@[q]@[t2] as int,
                                        6,
                                        0,
                                        cells@[q],
                                        q as usize,
                                    ) by {
                                        lemma_linked_update(base@, po, groups@[q]@[t2] as int, 6, 0, cells@[q], q as usize, nb as int, p);
                                    }
                                    assert forall|t2: int| 0 <= t2 < h implies #[trigger] linked_in(
                                        base@,
                                        po.update(nb as int, Some(p)),
                                        members@[t2] as int,
                                        6,
                                        0,
                                        cell,
                                        p,
                                    ) by {
                                        lemma_linked_update(base@, po, members@[t2] as int, 6, 0, cell, p, nb as int, p);
                                    }
                                    lemma_linked_update(base@, po, u as int, f as int, t as int, cell, p, nb as int, p);
                                }
                            }
                            parent_of.set(nb, Some(p));
                            members.push(nb);
                            proof {
                                assert(members@[members@.len() - 1] == nb);
                                assert forall|a: int, b: int| 0 <= a < b < members@.len() implies members@[a] != members@[b] by {
                                    if b == members@.len() - 1 {
                                        assert(before.contains(before[a]));
                                    }
                                }
                                assert forall|j: int|
                                    0 <= j < n && (#[trigger] parent_of@[j]) is Some implies (
                                    parent_of@[j]->0 < p && groups@[parent_of@[j]->0 as int]@.contains(
                                        j as usize,
                                    )) || (parent_of@[j] == Some(p) && members@.contains(j as usize)) by {
                                    if j != nb && parent_of@[j] == Some(p) {
                                        let w = choose|w: int| 0 <= w < before.len() && before[w] == j as usize;
                                        assert(members@[w] == j as usize);
                                    }
                                }
                                assert forall|t2: int| 0 <= t2 < h implies #[trigger] members@[t2] == before[t2] by {}
                                reveal(chained);
                                assert forall|t3: int| #![trigger members@[t3]] 0 < t3 < members@.len() implies exists|t2: int, f2: int, s2: int|
                                    #![trigger base@[members@[t2] as int].neighbors@[f2]@[s2]]
                                    0 <= t2 < t3 && 0 <= f2 < 6 && 0 <= s2 < base@[members@[t2] as int].neighbors@[f2]@.len()
                                        && base@[members@[t2] as int].neighbors@[f2]@[s2] == members@[t3] by {
                                    if t3 == members@.len() - 1 {
                                        assert(members@[h as int] == u);
                                        assert(base@[members@[h as int] as int].neighbors@[f as int]@[t as int] == members@[t3]);
                                    } else {
                                        assert(members@[t3] == before[t3]);
                                        let (t2, f2, s2) = choose|t2: int, f2: int, s2: int|
                                            #![trigger base@[before[t2] as int].neighbors@[f2]@[s2]]
                                            0 <= t2 < t3 && 0 <= f2 < 6 && 0 <= s2 < base@[before[t2] as int].neighbors@[f2]@.len()
                                                && base@[before[t2] as int].neighbors@[f2]@[s2] == before[t3];
                                        assert(members@[t2] == before[t2]);
                                    }
                                }
                            }
                        }
                        proof {
                            if mu {
                                if base@[nb as int].index.halved() == cell && parent_of@[nb as int] != Some(p) {
                                    let q2 = parent_of@[nb as int]->0 as int;
                                    assert(q2 < p);
                                    let w = choose|w: int| 0 <= w < groups@[q2]@.len() && groups@[q2]@[w] == nb;
                                    assert(groups@[q2]@[w] == nb);
                                    assert(base@[nb as int].neighbors@[opposite(f as int)]@.contains(u));
                                    let s2 = choose|s2: int| 0 <= s2 < base@[nb as int].neighbors@[opposite(f as int)]@.len()
                                        && base@[nb as int].neighbors@[opposite(f as int)]@[s2] == u;
                                    assert(linked_in(base@, parent_of@, groups@[q2]@[w] as int, 6, 0, cells@[q2], q2 as usize));
                                    assert(base@[nb as int].index.halved() == cells@[q2]);
                                    assert(parent_of@[base@[nb as int].neighbors@[opposite(f as int)]@[s2] as int] == Some(q2 as usize));
                                    assert(false);
                                }
                                assert(linked_in(base@, parent_of@, u as int, f as int, (t + 1) as int, cell, p));
                            }
                        }
                        t = t + 1;
                    }
                    f = f + 1;
                }
                h = h + 1;
            }
            let ghost prev_groups = groups@;
            let ghost prev_cells = cells@;
            groups.push(members);
            cells.push(cell);
            proof {
                assert forall|q: int| 0 <= q < groups@.len() implies chained(base@, #[trigger] groups@[q]@) by {
                    if q < p {
                        assert(groups@[q] == prev_groups[q]);
                    }
                }
                if mu {
                    assert forall|q: int, t: int|
                        0 <= q < groups@.len() && 0 <= t < groups@[q]@.len() implies #[trigger] linked_in(
                        base@,
                        parent_of@,
                        groups@[q]@[t] as int,
                        6,
                        0,
                        cells@[q],
                        q as usize,
                    ) by {
                        if q < p {
                            assert(groups@[q] == prev_groups[q]);
                            assert(cells@[q] == prev_cells[q]);
                        }
                    }
                }
                assert forall|q: int| 0 <= q < groups@.len() implies (#[trigger] groups@[q])@.no_duplicates() by {
                    if q < p {
                        assert(groups@[q] == prev_groups[q]);
                    }
                }
                assert forall|j: int|
                    0 <= j < n && (#[trigger] parent_of@[j]) is Some implies parent_of@[j]->0 < groups@.len()
                    && groups@[parent_of@[j]->0 as int]@.contains(j as usize) by {
                    if parent_of@[j]->0 < p {
                        assert(groups@[parent_of@[j]->0 as int] == prev_groups[parent_of@[j]->0 as int]);
                    }
                }
            }
        }
        i = i + 1;
    }
    (groups, cells, parent_of)
}

/// The parent of each cluster of `layer`.
pub open spec fn parents(layer: Seq<Cluster>) -> Seq<Option<usize>> {
    layer.map_values(|c: Cluster| c.parent)
}

/// Whether `up` is the layer made from `base` by merging each group of
/// linked clusters in one super-cell, where `base` has its parent links set.
pub open spec fn merged_parts(base: Seq<Cluster>, up: Seq<Cluster>) -> bool {
    &&& up.len() <= base.len()
    &&& layer_wf(up)
    &&& forall|i: int|
        0 <= i < base.len() ==> (#[trigger] base[i]).parent is Some && base[i].parent->0 < up.len()
            && up[base[i].parent->0 as int].children@.contains(i as usize)
    &&& forall|p: int|
        0 <= p < up.len() ==> {
            &&& (#[trigger] up[p]).children@.len() > 0
            &&& up[p].children@.no_duplicates()
            &&& forall|t: int|
                0 <= t < up[p].children@.len() ==> #[trigger] up[p].children@[t] < base.len()
                    && base[up[p].children@[t] as int].parent == Some(p as usize)
                    && base[up[p].children@[t] as int].index.halved() == up[p].index
            &&& forall|f: int, q: usize|
                0 <= f < 6 ==> (#[trigger] up[p].neighbors@[f]@.contains(q) <==> exists|t: int|
                    0 <= t < up[p].children@.len() && lends(
                        base,
                        parents(base),
                        #[trigger] up[p].children@[t] as int,
                        f,
                        q,
                    ))
        }
}

/// Whether `up` is the layer made from `base` as `merged_parts` says, and
/// every neighbour of a child that lies in the child's super-cell went to
/// the child's parent.
pub open spec fn merged_from(base: Seq<Cluster>, up: Seq<Cluster>) -> bool {
    &&& merged_parts(base, up)
    &&& forall|p: int, t: int|
        0 <= p < up.len() && 0 <= t < up[p].children@.len() ==> #[trigger] linked_in(
            base,
            parents(base),
            up[p].children@[t] as int,
            6,
            0,
            up[p].index,
            p as usize,
        )
}

/// One step of simplification: merges the clusters of `base` that share a
/// super-cell and are linked through it into one cluster of the next layer,
/// and records in each cluster of `base` the cluster it went to.
pub fn subsample_octree(base: &mut Vec<Cluster>) -> (r: Vec<Cluster>)
    requires
        layer_wf(old(base)@),
    ensures
        final(base)@.len() == old(base)@.len(),
        forall|i: int|
            0 <= i < old(base)@.len() ==> {
                &&& (#[trigger] final(base)@[i]).index == old(base)@[i].index
                &&& final(base)@[i].neighbors == old(base)@[i].neighbors
                &&& final(base)@[i].children == old(base)@[i].children
            },
        layer_wf(final(base)@),
        merged_parts(final(base)@, r@),
        forall|p: int| 0 <= p < r@.len() ==> chained(old(base)@, (#[trigger] r@[p]).children@),
        links_mutual(old(base)@) ==> merged_from(final(base)@, r@),
        forall|p: int| 0 <= p < r@.len() ==> (#[trigger] r@[p]).parent is None,
        forall|p: int, f: int| 0 <= p < r@.len() && 0 <= f < 6 ==> (#[trigger] r@[p].neighbors@[f])@.no_duplicates(),
        links_mutual(old(base)@) ==> forall|p: int, t: int|
            0 <= p < r@.len() && 0 <= t < r@[p].children@.len() ==> #[trigger] linked_in(
                final(base)@,
                parents(final(base)@),
                r@[p].children@[t] as int,
                6,
                0,
                r@[p].index,
                p as usize,
            ),
{
    let (groups, cells, parent_of) = group_clusters(base);
    let m = groups.len();
    let mut up: Vec<Cluster> = Vec::new();
    let mut p: usize = 0;
    while p < m
        invariant
            layer_wf(base@),
            m == groups@.len(),
            groups@.len() == cells@.len(),
            parent_of@.len() == base@.len(),
            forall|j: int|
                0 <= j < base@.len() ==> (#[trigger] parent_of@[j]) is Some && parent_of@[j]->0 < m
                    && groups@[parent_of@[j]->0 as int]@.contains(j as usize),
            forall|q: int|
                0 <= q < m ==> (#[trigger] groups@[q])@.len() > 0 && forall|t: int|
                    0 <= t < groups@[q]@.len() ==> #[trigger] groups@[q]@[t] < base@.len()
                        && parent_of@[groups@[q]@[t] as int] == Some(q as usize)
                        && base@[groups@[q]@[t] as int].index.halved() == cells@[q],
            forall|q: int| 0 <= q < m ==> (#[trigger] groups@[q])@.no_duplicates(),
            p <= m,
            up@.len() == p,
            forall|q: int|
                0 <= q < p ==> {
                    &&& (#[trigger] up@[q]).children@ == groups@[q]@
                    &&& up@[q].parent is None
                    &&& up@[q].index == cells@[q]
                    &&& up@[q].neighbors@.len() == 6
                    &&& forall|f: int| 0 <= f < 6 ==> (#[trigger] up@[q].neighbors@[f])@.no_duplicates()
                    &&& forall|f: int, t: int|
                        0 <= f < 6 && 0 <= t < up@[q].neighbors@[f]@.len() ==> #[trigger] up@[q].neighbors@[f]@[t]
                            < m
                    &&& forall|f: int, x: usize|
                        0 <= f < 6 ==> (#[trigger] up@[q].neighbors@[f]@.contains(x) <==> exists|t: int|
                            0 <= t < groups@[q]@.len() && lends(
                                base@,
                                parent_of@,
                                #[trigger] groups@[q]@[t] as int,
                                f,
                                x,
                            ))
                },
        decreases m - p,
    {
        let members = &groups[p];
        let mut lists: Vec<Vec<usize>> = Vec::new();
        let mut f: usize = 0;
        while f < 6
            invariant
                f <= 6,
                lists@.len() == f,
                forall|f2: int| 0 <= f2 < f ==> (#[trigger] lists@[f2])@.len() == 0,
            decreases 6 - f,
        {
            lists.push(Vec::new());
            f = f + 1;
        }
        let mut t: usize = 0;
        while t < members.len()
            invariant
                forall|f: int| 0 <= f < 6 ==> (#[trigger] lists@[f])@.no_duplicates(),
                layer_wf(base@),
                m == groups@.len(),
                p < m,
                members@ == groups@[p as int]@,
                forall|t: int| 0 <= t < members@.len() ==> #[trigger] members@[t] < base@.len(),
                parent_of@.len() == base@.len(),
                forall|j: int|
                    0 <= j < base@.len() ==> (#[trigger] parent_of@[j]) is Some && parent_of@[j]->0 < m,
                t <= members@.len(),
                lists@.len() == 6,
                forall|f: int, k: int|
                    0 <= f < 6 && 0 <= k < lists@[f]@.len() ==> #[trigger] lists@[f]@[k] < m,
                forall|f: int, x: usize|
                    0 <= f < 6 ==> (#[trigger] lists@[f]@.contains(x) <==> exists|t2: int|
                        0 <= t2 < t && lends(base@, parent_of@, #[trigger] members@[t2] as int, f, x)),
            decreases members@.len() - t,
        {
            let ghost before = lists@;
            add_child_links(&mut lists, base, &parent_of, members[t], m);
            proof {
                assert forall|f: int, x: usize|
                    0 <= f < 6 implies (#[trigger] lists@[f]@.contains(x) <==> exists|t2: int|
                    0 <= t2 < t + 1 && lends(base@, parent_of@, #[trigger] members@[t2] as int, f, x)) by {
                    if lends(base@, parent_of@, members@[t as int] as int, f, x) {
                        assert(lists@[f]@.contains(x));
                    }
                    if exists|t2: int| 0 <= t2 < t && lends(base@, parent_of@, #[trigger] members@[t2] as int, f, x) {
                        assert(before[f]@.contains(x));
                    }
                }
            }
            t = t + 1;
        }
        let children = copy_of(members);
        up.push(Cluster { index: cells[p], neighbors: lists, parent: None, children });
        proof {
            let c = up@[p as int];
            assert(c.children@ == groups@[p as int]@);
            assert forall|q: int|
                0 <= q < p + 1 implies (#[trigger] up@[q]).neighbors@.len() == 6 by {}
        }
        p = p + 1;
    }
    let ghost old_base = base@;
    let n = base.len();
    let mut i: usize = 0;
    while i < n
        invariant
            n == base@.len(),
            old_base.len() == n,
            parent_of@.len() == n,
            i <= n,
            forall|j: int|
                0 <= j < n ==> {
                    &&& (#[trigger] base@[j]).index == old_base[j].index
                    &&& base@[j].neighbors == old_base[j].neighbors
                    &&& base@[j].children == old_base[j].children
                },
            forall|j: int| 0 <= j < i ==> (#[trigger] base@[j]).parent == parent_of@[j],
        decreases n - i,
    {
        base[i].parent = parent_of[i];
        i = i + 1;
    }
    proof {
        assert(parents(base@) =~= parent_of@);
        assert(same_but_parents(old_base, base@));
        assert forall|p: int| 0 <= p < up@.len() implies chained(old_base, (#[trigger] up@[p]).children@) by {
            assert(up@[p].children@ == groups@[p]@);
        }
        if links_mutual(old_base) {
            assert(same_but_parents(old_base, base@));
            assert forall|p: int, t: int|
                0 <= p < up@.len() && 0 <= t < up@[p].children@.len() implies #[trigger] linked_in(
                base@,
                parents(base@),
                up@[p].children@[t] as int,
                6,
                0,
                up@[p].index,
                p as usize,
            ) by {
                assert(up@[p].children@ == groups@[p]@);
                assert(linked_in(old_base, parent_of@, groups@[p]@[t] as int, 6, 0, cells@[p], p as usize));
                lemma_linked_same(old_base, base@, parent_of@, groups@[p]@[t] as int, cells@[p], p as usize);
            }
        }
        assert forall|i: int, f: int, s: int| 0 <= i < n && 0 <= f < 6 && 0 <= s < base@[i].neighbors@[f]@.len()
            implies (#[trigger] base@[i].neighbors@[f]@[s]) == old_base[i].neighbors@[f]@[s] by {}
        assert forall|c: int, f: int, q: usize| 0 <= c < n implies #[trigger] lends(base@, parent_of@, c, f, q) == lends(old_base, parent_of@, c, f, q) by {
            if lends(old_base, parent_of@, c, f, q) {
                let s = choose|s: int| 0 <= s < old_base[c].neighbors@[f]@.len() && parent_of@[#[trigger] old_base[c].neighbors@[f]@[s] as int] == Some(q);
                assert(base@[c].neighbors@[f]@[s] == old_base[c].neighbors@[f]@[s]);
            }
        }
    }
    up
}

/// Whether two layers differ at most in their parent links.
pub open spec fn same_but_parents(a: Seq<Cluster>, b: Seq<Cluster>) -> bool {
    &&& a.len() == b.len()
    &&& forall|i: int|
        0 <= i < a.len() ==> {
            &&& (#[trigger] a[i]).index == b[i].index
            &&& a[i].neighbors == b[i].neighbors
            &&& a[i].children == b[i].children
        }
}

proof fn lemma_same_trans(a: Seq<Cluster>, b: Seq<Cluster>, c: Seq<Cluster>)
    requires
        same_but_parents(a, b),
        same_but_parents(b, c),
    ensures
        same_but_parents(a, c),
        same_but_parents(c, a),
{
    assert forall|i: int| 0 <= i < a.len() implies (#[trigger] a[i]).index == c[i].index
        && a[i].neighbors == c[i].neighbors && a[i].children == c[i].children by {
        assert(b[i].index == c[i].index);
    }
    assert forall|i: int| 0 <= i < c.len() implies (#[trigger] c[i]).index == a[i].index
        && c[i].neighbors == a[i].neighbors && c[i].children == a[i].children by {
        assert(a[i].index == b[i].index);
        assert(b[i].index == c[i].index);
    }
}

proof fn lemma_merged_keeps(base: Seq<Cluster>, a: Seq<Cluster>, b: Seq<Cluster>)
    requires
        merged_from(base, a),
        same_but_parents(a, b),
    ensures
        merged_from(base, b),
{
    assert forall|p: int| 0 <= p < b.len() implies {
        &&& (#[trigger] b[p]).children@.len() > 0
        &&& b[p].children@.no_duplicates()
        &&& forall|t: int|
            0 <= t < b[p].children@.len() ==> #[trigger] b[p].children@[t] < base.len()
                && base[b[p].children@[t] as int].parent == Some(p as usize)
                && base[b[p].children@[t] as int].index.halved() == b[p].index
        &&& forall|f: int, q: usize|
            0 <= f < 6 ==> (#[trigger] b[p].neighbors@[f]@.contains(q) <==> exists|t: int|
                0 <= t < b[p].children@.len() && lends(
                    base,
                    parents(base),
                    #[trigger] b[p].children@[t] as int,
                    f,
                    q,
                ))
    } by {
        assert(b[p].children == a[p].children && b[p].neighbors == a[p].neighbors && b[p].index == a[p].index);
        assert(a[p].children@.no_duplicates());
    }
    assert forall|i: int| 0 <= i < base.len() implies (#[trigger] base[i]).parent is Some
        && base[i].parent->0 < b.len() && b[base[i].parent->0 as int].children@.contains(i as usize) by {
        assert(b[base[i].parent->0 as int].children == a[base[i].parent->0 as int].children);
    }
    assert forall|v: int| 0 <= v < b.len() implies (#[trigger] b[v]).neighbors@.len() == 6 by {
        assert(a[v].neighbors == b[v].neighbors);
    }
    assert forall|v: int, f: int, t: int|
        0 <= v < b.len() && 0 <= f < 6 && 0 <= t < b[v].neighbors@[f]@.len() implies #[trigger] b[v].neighbors@[f]@[t] < b.len() by {
        assert(a[v].neighbors == b[v].neighbors);
        assert(a[v].neighbors@[f]@[t] < a.len());
    }
}

proof fn lemma_geometric_keeps(a: Seq<Cluster>, b: Seq<Cluster>)
    requires
        layer_wf(a),
        links_geometric(a),
        same_but_parents(a, b),
    ensures
        links_geometric(b),
{
    assert forall|v: int, f: int, t: int|
        0 <= v < b.len() && 0 <= f < 6 && 0 <= t < b[v].neighbors@[f]@.len() implies cell_across(
        b[v].index,
        f as nat,
    ) == Some(b[#[trigger] b[v].neighbors@[f]@[t] as int].index) by {
        assert(b[v].neighbors == a[v].neighbors);
        let u = a[v].neighbors@[f]@[t] as int;
        assert(u < a.len());
        assert(a[u].index == b[u].index);
    }
}

proof fn lemma_mutual_keeps(a: Seq<Cluster>, b: Seq<Cluster>)
    requires
        links_mutual(a),
        same_but_parents(a, b),
    ensures
        links_mutual(b),
{
    assert forall|v: int| 0 <= v < b.len() implies (#[trigger] b[v]).neighbors@.len() == 6 by {
        assert(a[v].neighbors == b[v].neighbors);
    }
    assert forall|v: int, f: int, t: int|
        0 <= v < b.len() && 0 <= f < 6 && 0 <= t < b[v].neighbors@[f]@.len() implies #[trigger] b[v].neighbors@[f]@[t] < b.len() by {
        assert(a[v].neighbors == b[v].neighbors);
        assert(a[v].neighbors@[f]@[t] < a.len());
    }
    assert forall|v: int, f: int, t: int|
        0 <= v < b.len() && 0 <= f < 6 && 0 <= t < b[v].neighbors@[f]@.len()
        implies b[#[trigger] b[v].neighbors@[f]@[t] as int].neighbors@[opposite(f)]@.contains(v as usize) by {
        assert(b[v].neighbors == a[v].neighbors);
        let u = a[v].neighbors@[f]@[t] as int;
        assert(b[u].neighbors == a[u].neighbors);
    }
}

proof fn lemma_stack_push(prev: Seq<Vec<Cluster>>, layer: Vec<Cluster>, stack: Seq<Vec<Cluster>>)
    requires
        stack_ok(prev),
        links_mutual(layer@),
        prev.len() > 0 ==> merged_from(prev.last()@, layer@),
        prev.len() > 0 ==> layer@.len() < prev.last()@.len(),
        stack == prev.push(layer),
    ensures
        stack_ok(stack),
        stack.last() == layer,
        prev.len() > 0 ==> stack[0] == prev[0],
{
    assert forall|k: int| 0 <= k < stack.len() - 1 implies merged_from(#[trigger] stack[k]@, stack[k + 1]@) by {
        if k < prev.len() - 1 {
            assert(stack[k] == prev[k] && stack[k + 1] == prev[k + 1]);
        } else {
            assert(stack[k] == prev.last());
        }
    }
    assert forall|k: int| 0 <= k < stack.len() implies links_mutual(#[trigger] stack[k]@) by {
        if k < prev.len() {
            assert(stack[k] == prev[k]);
        }
    }
    assert forall|k: int| 0 <= k < stack.len() - 1 implies stack[k + 1]@.len() < (#[trigger] stack[k]@).len() by {
        if k < prev.len() - 1 {
            assert(stack[k] == prev[k] && stack[k + 1] == prev[k + 1]);
        } else {
            assert(stack[k] == prev.last());
        }
    }
}

/// Whether each layer of `stack` above the first was made from the one
/// below it and is smaller, and every layer has mutual links.
pub open spec fn stack_ok(stack: Seq<Vec<Cluster>>) -> bool {
    &&& forall|k: int| 0 <= k < stack.len() ==> links_mutual(#[trigger] stack[k]@)
    &&& forall|k: int| 0 <= k < stack.len() - 1 ==> merged_from(#[trigger] stack[k]@, stack[k + 1]@)
    &&& forall|k: int| 0 <= k < stack.len() - 1 ==> stack[k + 1]@.len() < (#[trigger] stack[k]@).len()
}

/// Builds the octree over `leaves`: simplifies layer after layer until a
/// step merges nothing, which it reaches since each kept layer is smaller
/// than the one below. The first layer is `leaves` with its parent links
/// set; every layer has mutual links, and each is the merge of the one
/// below. Fails if some layer's links are not mutual.
pub fn build_layers(leaves: Vec<Cluster>) -> (r: Result<Vec<Vec<Cluster>>, TessError>)
    ensures
        match r {
            Ok(stack) => {
                &&& stack@.len() >= 1
                &&& same_but_parents(stack@[0]@, leaves@)
                &&& stack_ok(stack@)
                &&& forall|i: int|
                    0 <= i < stack@.last()@.len() ==> (#[trigger] stack@.last()@[i]).parent is None
                &&& exists|b: Seq<Cluster>, up: Seq<Cluster>|
                    same_but_parents(b, stack@.last()@) && #[trigger] merged_from(b, up) && up.len()
                        == stack@.last()@.len()
            },
            Err(e) => e == TessError::OneSidedLink,
        },
        links_mutual(leaves@) && links_geometric(leaves@) ==> r is Ok,
{
    if !check_links(&leaves) {
        return Err(TessError::OneSidedLink);
    }
    let ghost initial = leaves@;
    let ghost geo = links_geometric(leaves@);
    let mut stack: Vec<Vec<Cluster>> = Vec::new();
    let mut current = leaves;
    loop
        invariant
            initial == leaves@,
            geo == links_geometric(leaves@),
            geo ==> links_geometric(current@),
            links_mutual(current@),
            stack_ok(stack@),
            stack@.len() == 0 ==> same_but_parents(initial, current@),
            stack@.len() > 0 ==> same_but_parents(stack@[0]@, initial),
            stack@.len() > 0 ==> merged_from(stack@.last()@, current@),
            stack@.len() > 0 ==> current@.len() < stack@.last()@.len(),
        decreases current@.len(),
    {
        let ghost before = current@;
        let next = subsample_octree(&mut current);
        proof {
            assert(same_but_parents(before, current@));
            lemma_mutual_keeps(before, current@);
            if geo {
                lemma_geometric_keeps(before, current@);
                merge_keeps_links(current@, next@);
            }
            if stack@.len() > 0 {
                lemma_merged_keeps(stack@.last()@, before, current@);
            }
        }
        if next.len() == current.len() {
            let n = current.len();
            let ghost merged = current@;
            let mut i: usize = 0;
            while i < n
                invariant
                    n == current@.len(),
                    same_but_parents(merged, current@),
                    i <= n,
                    forall|j: int| 0 <= j < i ==> (#[trigger] current@[j]).parent is None,
                decreases n - i,
            {
                current[i].parent = None;
                i = i + 1;
            }
            proof {
                lemma_mutual_keeps(merged, current@);
                if stack@.len() > 0 {
                    lemma_merged_keeps(stack@.last()@, merged, current@);
                }
            }
            let ghost prev = stack@;
            let ghost top = current;
            stack.push(current);
            proof {
                lemma_stack_push(prev, top, stack@);
                assert(same_but_parents(merged, stack@.last()@) && merged_from(merged, next@));
                if prev.len() == 0 {
                    lemma_same_trans(initial, before, merged);
                    lemma_same_trans(initial, merged, current@);
                    assert(stack@[0] == top);
                }
            }
            return Ok(stack);
        }
        if !check_links(&next) {
            return Err(TessError::OneSidedLink);
        }
        let ghost prev = stack@;
        let ghost below = current;
        stack.push(current);
        proof {
            lemma_stack_push(prev, below, stack@);
            if prev.len() == 0 {
                lemma_same_trans(initial, before, below@);
                assert(stack@[0] == below);
            }
        }
        current = next;
    }
}

/// Whether every link of `layer` leads across its face to the adjacent cell.
pub open spec fn links_geometric(layer: Seq<Cluster>) -> bool {
    forall|v: int, f: int, t: int|
        0 <= v < layer.len() && 0 <= f < 6 && 0 <= t < layer[v].neighbors@[f]@.len() ==> cell_across(
            layer[v].index,
            f as nat,
        ) == Some(layer[#[trigger] layer[v].neighbors@[f]@[t] as int].index)
}

proof fn lemma_across_halves(c: Index, u: Index, f: int)
    requires
        0 <= f < 6,
        cell_across(c, f as nat) == Some(u),
        on_side(c, f),
    ensures
        on_side(u, opposite(f)),
        cell_across(c.halved(), f as nat) == Some(u.halved()),
{
}

/// Merging keeps the links mutual: where the links of `base` are mutual and
/// lead to adjacent cells, so do those of the layer merged from it.
pub proof fn merge_keeps_links(base: Seq<Cluster>, up: Seq<Cluster>)
    requires
        layer_wf(base),
        links_mutual(base),
        links_geometric(base),
        merged_from(base, up),
    ensures
        links_mutual(up),
        links_geometric(up),
{
    assert forall|p: int, f: int, t: int|
        0 <= p < up.len() && 0 <= f < 6 && 0 <= t < up[p].neighbors@[f]@.len() implies up[
        #[trigger] up[p].neighbors@[f]@[t] as int
    ].neighbors@[opposite(f)]@.contains(p as usize) && cell_across(up[p].index, f as nat) == Some(
        up[up[p].neighbors@[f]@[t] as int].index,
    ) by {
        let q = up[p].neighbors@[f]@[t];
        assert(up[p].neighbors@[f]@.contains(q));
        let t1 = choose|t1: int|
            0 <= t1 < up[p].children@.len() && lends(
                base,
                parents(base),
                #[trigger] up[p].children@[t1] as int,
                f,
                q,
            );
        let c = up[p].children@[t1] as int;
        assert(c < base.len());
        let s = choose|s: int|
            0 <= s < base[c].neighbors@[f]@.len() && parents(base)[#[trigger] base[c].neighbors@[f]@[s] as int]
                == Some(q);
        let u = base[c].neighbors@[f]@[s] as int;
        assert(u < base.len());
        assert(base[u].neighbors@[opposite(f)]@.contains(c as usize));
        assert(cell_across(base[c].index, f as nat) == Some(base[u].index));
        lemma_across_halves(base[c].index, base[u].index, f);
        assert(base[u].parent == Some(q));
        assert(up[q as int].children@.contains(u as usize));
        let t2 = choose|t2: int| 0 <= t2 < up[q as int].children@.len() && up[q as int].children@[t2] == u as usize;
        let s2 = choose|s2: int|
            0 <= s2 < base[u].neighbors@[opposite(f)]@.len() && base[u].neighbors@[opposite(f)]@[s2] == c as usize;
        assert(base[c].parent == Some(p as usize));
        assert(parents(base)[base[u].neighbors@[opposite(f)]@[s2] as int] == Some(p as usize));
        assert(lends(base, parents(base), up[q as int].children@[t2] as int, opposite(f), p as usize));
        assert(0 <= opposite(f) < 6);
        assert(up[q as int].neighbors@[opposite(f)]@.contains(p as usize));
        assert(base[u].index.halved() == up[q as int].index);
        assert(base[c].index.halved() == up[p].index);
    }
}

} // verus!
