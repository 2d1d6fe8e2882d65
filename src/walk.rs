use vstd::prelude::*;
use crate::leaves::Cluster;
use crate::octree::{merged_from, stack_ok};

verus! {

/// Whether `n` names a cluster of `layers`: its layer, then its position there.
pub open spec fn node_valid(layers: Seq<Vec<Cluster>>, n: (usize, usize)) -> bool {
    n.0 < layers.len() && n.1 < layers[n.0 as int]@.len()
}

/// The cluster one layer up that `n` was merged into.
pub open spec fn parent_node(layers: Seq<Vec<Cluster>>, n: (usize, usize)) -> (usize, usize) {
    ((n.0 + 1) as usize, layers[n.0 as int]@[n.1 as int].parent->0)
}

/// The children of cluster `n`, one layer down, last child first.
pub open spec fn child_nodes(layers: Seq<Vec<Cluster>>, n: (usize, usize)) -> Seq<(usize, usize)> {
    let ch = layers[n.0 as int]@[n.1 as int].children@;
    Seq::new(ch.len(), |k: int| ((n.0 - 1) as usize, ch[ch.len() - 1 - k]))
}

/// The waiting list once the children of `last` are added, where `descend`
/// asks for them and `last` lies above the leaves.
pub open spec fn queued(
    layers: Seq<Vec<Cluster>>,
    pending: Seq<(usize, usize)>,
    last: Option<(usize, usize)>,
    descend: bool,
) -> Seq<(usize, usize)> {
    if descend && last is Some && (last->0).0 > 0 {
        pending + child_nodes(layers, last->0)
    } else {
        pending
    }
}

/// The top-down walk of the hierarchical QEF solve: every cluster of the top
/// layer, and below a cluster its children where the caller asks for them,
/// depth first, children in order.
pub struct QefWalk {
    pending: Vec<(usize, usize)>,
    last: Option<(usize, usize)>,
    visited: Ghost<Set<(usize, usize)>>,
    descended: Ghost<Set<(usize, usize)>>,
}

impl QefWalk {
    /// The clusters handed out so far.
    pub closed spec fn visited(&self) -> Set<(usize, usize)> {
        self.visited@
    }

    /// The clusters still waiting, the next one last.
    pub closed spec fn pending(&self) -> Seq<(usize, usize)> {
        self.pending@
    }

    /// The cluster handed out last, if its children may still be asked for.
    pub closed spec fn last_handed(&self) -> Option<(usize, usize)> {
        self.last
    }

    pub closed spec fn wf(&self, layers: Seq<Vec<Cluster>>) -> bool {
        &&& layers.len() >= 1
        &&& stack_ok(layers)
        &&& self.pending@.no_duplicates()
        &&& forall|t: int|
            0 <= t < self.pending@.len() ==> node_valid(layers, #[trigger] self.pending@[t])
                && !self.visited@.contains(self.pending@[t])
        &&& forall|n: (usize, usize)| #[trigger] self.visited@.contains(n) ==> node_valid(layers, n)
        &&& forall|n: (usize, usize)| #[trigger] self.descended@.contains(n) ==> self.visited@.contains(n)
        &&& forall|n: (usize, usize)|
            #![trigger self.pending@.contains(n)]
            #![trigger self.visited@.contains(n)]
            (self.pending@.contains(n) || self.visited@.contains(n)) && node_valid(
                layers,
                n,
            ) && n.0 + 1 < layers.len() ==> self.descended@.contains(parent_node(layers, n))
        &&& match self.last {
            Some(n) => self.visited@.contains(n) && !self.descended@.contains(n),
            None => true,
        }
    }

    /// A walk that starts with the clusters of the top layer, in order.
    pub fn start(layers: &Vec<Vec<Cluster>>) -> (r: QefWalk)
        requires
            layers@.len() >= 1,
            stack_ok(layers@),
        ensures
            r.wf(layers@),
            r.visited() == Set::<(usize, usize)>::empty(),
            r.pending().len() == layers@.last()@.len(),
            forall|t: int|
                0 <= t < r.pending().len() ==> #[trigger] r.pending()[t] == (
                    (layers@.len() - 1) as usize,
                    (r.pending().len() - 1 - t) as usize,
                ),
    {
        let top = layers.len() - 1;
        let n = layers[top].len();
        let mut pending: Vec<(usize, usize)> = Vec::new();
        let mut i: usize = n;
        while i > 0
            invariant
                top == layers@.len() - 1,
                n == layers@[top as int]@.len(),
                i <= n,
                pending@.len() == n - i,
                forall|t: int| 0 <= t < pending@.len() ==> #[trigger] pending@[t] == (top, (n - 1 - t) as usize),
            decreases i,
        {
            i = i - 1;
            pending.push((top, i));
        }
        let r = QefWalk {
            pending,
            last: None,
            visited: Ghost(Set::empty()),
            descended: Ghost(Set::empty()),
        };
        proof {
            assert forall|a: int, b: int| 0 <= a < b < pending@.len() implies pending@[a] != pending@[b] by {}
            assert forall|m: (usize, usize)|
                #![trigger r.pending@.contains(m)]
                #![trigger r.visited@.contains(m)]
                (r.pending@.contains(m) || r.visited@.contains(m)) && node_valid(
                    layers@,
                    m,
                ) && m.0 + 1 < layers@.len() implies r.descended@.contains(parent_node(layers@, m)) by {
                if r.pending@.contains(m) {
                    let t = choose|t: int| 0 <= t < r.pending@.len() && r.pending@[t] == m;
                    assert(pending@[t] == m);
                }
            }
        }
        r
    }

    /// Hands out the next cluster to solve, or `None` when the walk is over.
    /// Where `descend` holds, the children of the cluster handed out last
    /// come first. No cluster is handed out twice.
    pub fn next(&mut self, layers: &Vec<Vec<Cluster>>, descend: bool) -> (r: Option<(usize, usize)>)
        requires
            old(self).wf(layers@),
        ensures
            final(self).wf(layers@),
            ({
                let p = queued(layers@, old(self).pending(), old(self).last_handed(), descend);
                &&& r == (if p.len() == 0 {
                    None
                } else {
                    Some(p.last())
                })
                &&& final(self).pending() == (if p.len() == 0 {
                    p
                } else {
                    p.drop_last()
                })
                &&& final(self).last_handed() == r
            }),
            match r {
                Some(n) => {
                    &&& node_valid(layers@, n)
                    &&& !old(self).visited().contains(n)
                    &&& final(self).visited() == old(self).visited().insert(n)
                },
                None => final(self).visited() == old(self).visited() && final(self).pending().len() == 0,
            },
    {
        if descend {
            if let Some(n) = self.last {
                if n.0 > 0 {
                    self.push_children(layers, n);
                }
            }
        }
        self.last = None;
        let ghost whole = self.pending@;
        match self.pending.pop() {
            None => None,
            Some(m) => {
                proof {
                    assert(whole == self.pending@.push(m));
                    assert(whole[whole.len() - 1] == m);
                    assert(node_valid(layers@, m) && !self.visited@.contains(m));
                    if self.pending@.contains(m) {
                        let k = choose|k: int| 0 <= k < self.pending@.len() && self.pending@[k] == m;
                        assert(whole[k] == m);
                    }
                    assert forall|q: (usize, usize)| #[trigger] self.pending@.contains(q) implies whole.contains(q) by {
                        let k = choose|k: int| 0 <= k < self.pending@.len() && self.pending@[k] == q;
                        assert(whole[k] == q);
                    }
                    assert(whole.contains(m));
                    self.visited@ = self.visited@.insert(m);
                }
                self.last = Some(m);
                Some(m)
            },
        }
    }

    fn push_children(&mut self, layers: &Vec<Vec<Cluster>>, n: (usize, usize))
        requires
            old(self).wf(layers@),
            old(self).last == Some(n),
            n.0 > 0,
        ensures
            final(self).wf(layers@),
            final(self).visited() == old(self).visited(),
            final(self).last is None,
            final(self).pending() == old(self).pending() + child_nodes(layers@, n),
    {
        self.last = None;
        assert(node_valid(layers@, n));
        let below = n.0 - 1;
        assert(merged_from(layers@[below as int]@, layers@[n.0 as int]@));
        let children = &layers[n.0][n.1].children;
        assert(children@.no_duplicates());
        let mut t: usize = children.len();
        let ghost start = self.pending@;
        let ghost vis = self.visited@;
        proof {
            assert forall|q: (usize, usize)|
                #![trigger start.contains(q)]
                #![trigger vis.contains(q)]
                (start.contains(q) || vis.contains(q)) && node_valid(layers@, q) && q.0
                    + 1 < layers@.len() implies parent_node(layers@, q) != n by {
                assert(self.descended@.contains(parent_node(layers@, q)));
            }
            self.descended@ = self.descended@.insert(n);
        }
        while t > 0
            invariant
                self.wf(layers@) ,
                t <= children@.len(),
                children@ == layers@[n.0 as int]@[n.1 as int].children@,
                children@.no_duplicates(),
                n.0 > 0,
                below == n.0 - 1,
                merged_from(layers@[below as int]@, layers@[n.0 as int]@),
                node_valid(layers@, n),
                self.last is None,
                self.descended@.contains(n),
                self.visited@ == vis,
                forall|q: (usize, usize)|
                    #![trigger start.contains(q)]
                    #![trigger vis.contains(q)]
                    (start.contains(q) || vis.contains(q)) && node_valid(layers@, q)
                        && q.0 + 1 < layers@.len() ==> parent_node(layers@, q) != n,
                self.pending@.len() == start.len() + (children@.len() - t),
                forall|k: int| 0 <= k < start.len() ==> #[trigger] self.pending@[k] == start[k],
                forall|k: int|
                    start.len() <= k < self.pending@.len() ==> #[trigger] self.pending@[k] == (
                        below,
                        children@[children@.len() - 1 - (k - start.len())],
                    ),
            decreases t,
        {
            t = t - 1;
            let c = children[t];
            let m = (below, c);
            proof {
                assert(layers@[n.0 as int]@[n.1 as int].children@[t as int] == c);
                assert(node_valid(layers@, m));
                assert(parent_node(layers@, m) == n);
                if self.pending@.contains(m) {
                    let k = choose|k: int| 0 <= k < self.pending@.len() && self.pending@[k] == m;
                    if k >= start.len() {
                        let j = children@.len() - 1 - (k - start.len());
                        assert(children@[j] == c);
                        assert(j != t);
                    } else {
                        assert(start[k] == m);
                        assert(start.contains(m));
                    }
                }
                assert(!self.visited@.contains(m)) by {
                    if vis.contains(m) {
                        assert(parent_node(layers@, m) != n);
                    }
                }
            }
            let ghost before = self.pending@;
            self.pending.push(m);
            proof {
                assert(!before.contains(m));
                assert forall|a: int, b: int| 0 <= a < b < self.pending@.len() implies self.pending@[a] != self.pending@[b] by {
                    if b == self.pending@.len() - 1 {
                        assert(self.pending@[a] == before[a]);
                        assert(before.contains(before[a]));
                    } else {
                        assert(self.pending@[a] == before[a] && self.pending@[b] == before[b]);
                    }
                }
                assert forall|q: (usize, usize)|
                    #![trigger self.pending@.contains(q)]
                    #![trigger self.visited@.contains(q)]
                    (self.pending@.contains(q) || self.visited@.contains(q)) && node_valid(
                        layers@,
                        q,
                    ) && q.0 + 1 < layers@.len() implies self.descended@.contains(parent_node(layers@, q)) by {
                    if self.pending@.contains(q) && q != m {
                        let k = choose|k: int| 0 <= k < self.pending@.len() && self.pending@[k] == q;
                        assert(before[k] == q);
                        assert(before.contains(q));
                    }
                }
            }
        }
        assert(self.pending@ =~= start + child_nodes(layers@, n));
    }
}

} // verus!
