//! Flat, indexed storage for tree nodes.
//!
//! Every node is reached through a stable index handed out at creation and
//! never reassigned; removed nodes leave a permanently vacant slot behind.
//! Because a parent is always created before its children are linked under
//! it, every edge points from a smaller index to a larger one, which also
//! bounds every ancestor walk.

use vstd::prelude::*;

use crate::node::Node;

verus! {

/// Removing one entry from a duplicate-free sequence keeps it
/// duplicate-free and removes exactly that entry from the membership.
proof fn lemma_nodup_remove(s: Seq<usize>, k: int)
    requires
        0 <= k < s.len(),
        s.no_duplicates(),
    ensures
        s.remove(k).no_duplicates(),
        forall|v: usize| #[trigger] s.remove(k).contains(v) <==> (s.contains(v) && v != s[k]),
{
    s.remove_ensures(k);
    let r = s.remove(k);
    assert forall|v: usize| #[trigger] r.contains(v) implies s.contains(v) && v != s[k] by {
        let j = choose|j: int| 0 <= j < r.len() && r[j] == v;
        if j < k {
            assert(s[j] == v);
        } else {
            assert(s[j + 1] == v);
        }
    }
    assert forall|v: usize| s.contains(v) && v != s[k] implies r.contains(v) by {
        let j = choose|j: int| 0 <= j < s.len() && s[j] == v;
        if j < k {
            assert(r[j] == v);
        } else {
            assert(j > k);
            assert(r[j - 1] == v);
        }
    }
    assert forall|a: int, b: int| 0 <= a < b < r.len() implies r[a] != r[b] by {
        if b < k {
            assert(r[a] == s[a] && r[b] == s[b]);
        } else if a >= k {
            assert(r[a] == s[a + 1] && r[b] == s[b + 1]);
        } else {
            assert(r[a] == s[a] && r[b] == s[b + 1]);
        }
    }
}

/// Arena of tree nodes: slot `i` holds node `i`, or nothing once node `i`
/// has been removed.
#[derive(Debug)]
pub struct Arena<T> {
    pub nodes: Vec<Option<Node<T>>>,
}

impl<T> Arena<T> {
    /// Number of slots handed out so far, vacant ones included.
    pub open spec fn spec_len(self) -> int {
        self.nodes@.len() as int
    }

    /// Does slot `i` currently hold a node?
    pub open spec fn live(self, i: int) -> bool {
        0 <= i < self.nodes@.len() && self.nodes@[i] is Some
    }

    /// The node in slot `i`.
    pub open spec fn node_of(self, i: int) -> Node<T> {
        self.nodes@[i]->Some_0
    }

    /// The parent index of node `i`.
    pub open spec fn parent_of(self, i: int) -> Option<usize> {
        self.node_of(i).parent
    }

    /// The child indices of node `i`, in order.
    pub open spec fn children_of(self, i: int) -> Seq<usize> {
        self.node_of(i).children@
    }

    /// The value carried by node `i`.
    pub open spec fn value_of(self, i: int) -> T {
        self.node_of(i).value
    }

    /// A single child edge from `i` to `c` is sound: the child slot lies
    /// above the parent, is occupied, and points back at `i`.
    pub open spec fn child_edge_ok(self, i: int, c: usize) -> bool {
        &&& i < c
        &&& self.live(c as int)
        &&& self.parent_of(c as int) == Some(i as usize)
    }

    /// The edges around node `i` are sound in both directions.
    pub open spec fn node_ok(self, i: int) -> bool {
        &&& (self.parent_of(i) matches Some(p) ==> {
            &&& (p as int) < i
            &&& self.live(p as int)
            &&& self.children_of(p as int).contains(i as usize)
        })
        &&& (forall|k: int|
            0 <= k < self.children_of(i).len() ==> self.child_edge_ok(
                i,
                #[trigger] self.children_of(i)[k],
            ))
        &&& self.children_of(i).no_duplicates()
    }

    /// The whole arena is a forest: every occupied slot has sound edges.
    pub open spec fn wf(self) -> bool {
        forall|i: int| #[trigger] self.live(i) ==> self.node_ok(i)
    }

    /// Two arenas share length, liveness and edges, differing at most in
    /// the values carried by the nodes.
    pub open spec fn same_structure(self, other: Arena<T>) -> bool {
        &&& other.spec_len() == self.spec_len()
        &&& (forall|i: int| (#[trigger] other.live(i)) == self.live(i))
        &&& (forall|i: int|
            #[trigger] self.live(i) ==> {
                &&& other.parent_of(i) == self.parent_of(i)
                &&& other.children_of(i) == self.children_of(i)
            })
    }

    /// Well-formedness does not depend on the carried values.
    pub proof fn lemma_wf_same_structure(self, other: Arena<T>)
        requires
            self.wf(),
            self.same_structure(other),
        ensures
            other.wf(),
    {
        assert forall|i: int| other.live(i) implies other.node_ok(i) by {
            assert(self.live(i));
            assert(self.node_ok(i));
            assert(other.children_of(i) == self.children_of(i));
            assert forall|k: int| 0 <= k < other.children_of(i).len() implies other.child_edge_ok(
                i,
                #[trigger] other.children_of(i)[k],
            ) by {
                let c = self.children_of(i)[k];
                assert(self.child_edge_ok(i, c));
                assert(self.live(c as int));
                assert(other.parent_of(c as int) == self.parent_of(c as int));
            }
        }
    }

    /// A fresh, empty arena.
    pub fn new() -> (r: Arena<T>)
        ensures
            r.spec_len() == 0,
            r.wf(),
    {
        Arena { nodes: Vec::new() }
    }

    /// Number of slots handed out so far.
    pub fn len(&self) -> (r: usize)
        ensures
            r == self.spec_len(),
    {
        self.nodes.len()
    }

    /// Does `i` refer to a node that has been created and not removed?
    pub fn is_live(&self, i: usize) -> (r: bool)
        ensures
            r == self.live(i as int),
    {
        i < self.nodes.len() && self.nodes[i].is_some()
    }

    /// Borrow node `i`.
    pub fn get(&self, i: usize) -> (r: &Node<T>)
        requires
            self.live(i as int),
        ensures
            *r == self.node_of(i as int),
    {
        self.nodes[i].as_ref().unwrap()
    }

    /// The parent index of node `i`.
    pub fn parent(&self, i: usize) -> (r: Option<usize>)
        requires
            self.live(i as int),
        ensures
            r == self.parent_of(i as int),
    {
        match &self.nodes[i] {
            Some(n) => n.parent,
            None => None,
        }
    }

    /// Borrow the child list of node `i`.
    pub fn children(&self, i: usize) -> (r: &Vec<usize>)
        requires
            self.live(i as int),
        ensures
            r@ == self.children_of(i as int),
    {
        &self.get(i).children
    }

    /// Create a fresh root node carrying `value` and hand out its index.
    /// Indices are assigned in creation order and never reused.
    pub fn new_node(&mut self, value: T) -> (id: usize)
        ensures
            id == old(self).spec_len(),
            final(self).spec_len() == old(self).spec_len() + 1,
            final(self).live(id as int),
            final(self).parent_of(id as int) == None::<usize>,
            final(self).children_of(id as int).len() == 0,
            final(self).value_of(id as int) == value,
            forall|j: int|
                0 <= j < old(self).spec_len() ==> final(self).nodes@[j] == old(self).nodes@[j],
            old(self).wf() ==> final(self).wf(),
    {
        let id = self.nodes.len();
        self.nodes.push(Some(Node { parent: None, value, children: Vec::new() }));
        proof {
            if old(self).wf() {
                assert forall|i: int| self.live(i) implies self.node_ok(i) by {
                    if i < id {
                        assert(old(self).live(i));
                        assert(old(self).node_ok(i));
                        assert forall|k: int|
                            0 <= k < self.children_of(i).len() implies self.child_edge_ok(
                            i,
                            #[trigger] self.children_of(i)[k],
                        ) by {
                            assert(old(self).child_edge_ok(i, old(self).children_of(i)[k]));
                        }
                    } else {
                        assert(self.children_of(i).len() == 0);
                    }
                }
            }
        }
        id
    }

    /// Does node `a` lie on the parent chain of node `d` (`d` included)?
    /// The chain is finite because every parent has a smaller index.
    pub open spec fn has_ancestor(self, d: int, a: int) -> bool
        decreases d,
            when self.wf() && self.live(d)
        via Self::has_ancestor_decreases
    {
        d == a || (self.parent_of(d) matches Some(p) && self.has_ancestor(p as int, a))
    }

    #[via_fn]
    proof fn has_ancestor_decreases(self, d: int, a: int) {
        if self.parent_of(d) is Some {
            assert(self.live(d));
            assert(self.node_ok(d));
        }
    }

    /// Walk the parent chain of `from` and report whether it passes
    /// through `target`.
    pub fn reaches(&self, from: usize, target: usize) -> (r: bool)
        requires
            self.wf(),
            self.live(from as int),
        ensures
            r == self.has_ancestor(from as int, target as int),
    {
        let mut cur = from;
        loop
            invariant
                self.wf(),
                self.live(cur as int),
                self.has_ancestor(from as int, target as int) == self.has_ancestor(
                    cur as int,
                    target as int,
                ),
            decreases cur,
        {
            if cur == target {
                return true;
            }
            proof {
                assert(self.node_ok(cur as int));
            }
            match self.parent(cur) {
                Some(p) => { cur = p },
                None => { return false },
            }
        }
    }

    /// The parent chain starting at `i` itself and ending at the root
    /// above it, in climbing order.
    pub fn ancestors(&self, i: usize) -> (r: Vec<usize>)
        requires
            self.wf(),
            self.live(i as int),
        ensures
            r@.len() >= 1,
            r@[0] == i,
            forall|k: int| 0 <= k < r@.len() ==> self.live(#[trigger] r@[k] as int),
            forall|k: int|
                0 <= k < r@.len() - 1 ==> self.parent_of(#[trigger] r@[k] as int) == Some(
                    r@[k + 1],
                ),
            self.parent_of(r@[r@.len() - 1] as int) is None,
    {
        let mut out: Vec<usize> = Vec::new();
        let mut cur = i;
        out.push(cur);
        loop
            invariant
                self.wf(),
                self.live(cur as int),
                out@.len() >= 1,
                out@[0] == i,
                out@.last() == cur,
                forall|k: int| 0 <= k < out@.len() ==> self.live(#[trigger] out@[k] as int),
                forall|k: int|
                    0 <= k < out@.len() - 1 ==> self.parent_of(#[trigger] out@[k] as int) == Some(
                        out@[k + 1],
                    ),
            decreases cur,
        {
            proof {
                assert(self.node_ok(cur as int));
            }
            match self.parent(cur) {
                Some(p) => {
                    cur = p;
                    out.push(p);
                },
                None => { return out },
            }
        }
    }

    /// Position of `i` in the child list of `p`.
    fn index_of_child(&self, p: usize, i: usize) -> (k: usize)
        requires
            self.live(p as int),
            self.children_of(p as int).contains(i),
        ensures
            0 <= k < self.children_of(p as int).len(),
            self.children_of(p as int)[k as int] == i,
    {
        let n = self.get(p);
        let len = n.children.len();
        let mut k: usize = 0;
        loop
            invariant
                self.live(p as int),
                *n == self.node_of(p as int),
                len == self.children_of(p as int).len(),
                self.children_of(p as int).contains(i),
                0 <= k <= len,
                forall|j: int| 0 <= j < k ==> self.children_of(p as int)[j] != i,
            decreases len - k,
        {
            proof {
                if k >= self.children_of(p as int).len() {
                    let w = choose|w: int|
                        0 <= w < self.children_of(p as int).len() && self.children_of(p as int)[w]
                            == i;
                    assert(false);
                }
            }
            if n.children[k] == i {
                return k;
            }
            k = k + 1;
        }
    }

    /// Unlink node `i` from its parent, making it a root. The other
    /// children of the parent keep their relative order; nothing else
    /// changes.
    pub fn detach(&mut self, i: usize)
        requires
            old(self).wf(),
            old(self).live(i as int),
        ensures
            final(self).wf(),
            final(self).spec_len() == old(self).spec_len(),
            forall|j: int| (#[trigger] final(self).live(j)) == old(self).live(j),
            final(self).parent_of(i as int) is None,
            final(self).children_of(i as int) == old(self).children_of(i as int),
            final(self).value_of(i as int) == old(self).value_of(i as int),
            old(self).parent_of(i as int) is None ==> *final(self) == *old(self),
            old(self).parent_of(i as int) matches Some(p) ==> {
                &&& (forall|j: int|
                    0 <= j < old(self).spec_len() && j != i && j != p
                        ==> final(self).nodes@[j] == old(self).nodes@[j])
                &&& final(self).parent_of(p as int) == old(self).parent_of(p as int)
                &&& final(self).value_of(p as int) == old(self).value_of(p as int)
                &&& (forall|v: usize|
                    #[trigger] final(self).children_of(p as int).contains(v) <==> (old(
                        self,
                    ).children_of(p as int).contains(v) && v != i))
                &&& final(self).children_of(p as int).len() == old(self).children_of(
                    p as int,
                ).len() - 1
            },
    {
        let p = match self.parent(i) {
            Some(p) => p,
            None => { return },
        };
        proof {
            assert(self.node_ok(i as int));
        }
        let ghost prev = *self;
        let k = self.index_of_child(p, i);
        proof {
            lemma_nodup_remove(self.children_of(p as int), k as int);
        }
        match &mut self.nodes[p] {
            Some(n) => { n.children.remove(k) },
            None => 0,
        };
        match &mut self.nodes[i] {
            Some(n) => { n.parent = None },
            None => {},
        }
        proof {
            assert forall|j: int| self.live(j) implies self.node_ok(j) by {
                assert(prev.live(j));
                assert(prev.node_ok(j));
                if j == i {
                    assert forall|w: int|
                        0 <= w < self.children_of(j).len() implies self.child_edge_ok(
                        j,
                        #[trigger] self.children_of(j)[w],
                    ) by {
                        assert(prev.child_edge_ok(j, prev.children_of(j)[w]));
                    }
                } else if j == p as int {
                    assert forall|w: int|
                        0 <= w < self.children_of(j).len() implies self.child_edge_ok(
                        j,
                        #[trigger] self.children_of(j)[w],
                    ) by {
                        let c = self.children_of(j)[w];
                        assert(self.children_of(j).contains(c));
                        assert(prev.children_of(j).remove(k as int).contains(c));
                        assert(prev.children_of(j).contains(c) && c != i);
                        let w0 = choose|w0: int|
                            0 <= w0 < prev.children_of(j).len() && prev.children_of(j)[w0] == c;
                        assert(prev.child_edge_ok(j, c));
                    }
                    if self.parent_of(j) is Some {
                        let q = self.parent_of(j)->Some_0;
                        assert(prev.children_of(q as int).contains(j as usize));
                        assert(q != p || j != i as int);
                        assert(self.children_of(q as int).contains(j as usize));
                    }
                } else {
                    assert forall|w: int|
                        0 <= w < self.children_of(j).len() implies self.child_edge_ok(
                        j,
                        #[trigger] self.children_of(j)[w],
                    ) by {
                        let c = prev.children_of(j)[w];
                        assert(prev.child_edge_ok(j, c));
                        assert(c != i) by {
                            if c == i {
                                assert(prev.parent_of(i as int) == Some(j as usize));
                            }
                        }
                    }
                    if self.parent_of(j) is Some {
                        let q = self.parent_of(j)->Some_0;
                        assert(prev.children_of(q as int).contains(j as usize));
                        if q == p {
                            assert(j != i as int);
                            vstd::std_specs::vec::axiom_spec_len(&self.nodes);
                            assert((j as usize) as int == j);
                            assert(j as usize != i);
                            let s = prev.children_of(p as int);
                            let w0 = choose|w0: int| 0 <= w0 < s.len() && s[w0] == j as usize;
                            assert(s[w0] == j as usize && s[k as int] == i);
                            assert(w0 != k as int);
                            s.remove_ensures(k as int);
                            assert(self.children_of(p as int) == s.remove(k as int));
                            if w0 < k as int {
                                assert(s.remove(k as int)[w0] == j as usize);
                            } else {
                                assert(s.remove(k as int)[w0 - 1] == j as usize);
                            }
                            assert(self.children_of(q as int).contains(j as usize));
                        }
                    }
                }
            }
        }
    }

    /// A child list entry is a sound edge (unpacked from `node_ok`).
    pub proof fn lemma_child_edge(self, p: int, c: usize)
        requires
            self.wf(),
            self.live(p),
            self.children_of(p).contains(c),
        ensures
            p < c as int,
            self.live(c as int),
            self.parent_of(c as int) == Some(p as usize),
    {
        assert(self.node_ok(p));
        let w = choose|w: int| 0 <= w < self.children_of(p).len() && self.children_of(p)[w] == c;
        assert(self.child_edge_ok(p, self.children_of(p)[w]));
    }

    /// An ancestor never has a larger index than its descendant.
    pub proof fn lemma_ancestor_le(self, d: int, a: int)
        requires
            self.wf(),
            self.live(d),
            self.has_ancestor(d, a),
        ensures
            a <= d,
        decreases d,
    {
        if d != a {
            let p = self.parent_of(d)->Some_0;
            assert(self.node_ok(d));
            self.lemma_ancestor_le(p as int, a);
        }
    }

    /// Remove node `i` alone: it is unlinked from its parent, its children
    /// become roots, and its slot is left permanently vacant.
    pub fn remove(&mut self, i: usize)
        requires
            old(self).wf(),
            old(self).live(i as int),
        ensures
            final(self).wf(),
            final(self).spec_len() == old(self).spec_len(),
            !final(self).live(i as int),
            forall|j: int| j != i ==> (#[trigger] final(self).live(j)) == old(self).live(j),
            forall|j: int|
                final(self).live(j) ==> final(self).value_of(j) == old(self).value_of(j),
            forall|c: usize|
                #[trigger] old(self).children_of(i as int).contains(c) ==> {
                    &&& final(self).parent_of(c as int) is None
                    &&& final(self).children_of(c as int) == old(self).children_of(c as int)
                },
            old(self).parent_of(i as int) matches Some(p) ==> {
                &&& final(self).parent_of(p as int) == old(self).parent_of(p as int)
                &&& (forall|v: usize|
                    #[trigger] final(self).children_of(p as int).contains(v) <==> (old(
                        self,
                    ).children_of(p as int).contains(v) && v != i))
            },
            forall|j: int|
                final(self).live(j) && Some(i) != old(self).parent_of(j) && (old(self).parent_of(
                    i as int,
                ) matches Some(p) ==> j != p) ==> final(self).children_of(j) == old(
                    self,
                ).children_of(j) && final(self).parent_of(j) == old(self).parent_of(j),
    {
        proof {
            assert(self.node_ok(i as int));
        }
        self.detach(i);
        let ghost mid0 = *self;
        loop
            invariant
                mid0.wf(),
                self.wf(),
                self.live(i as int),
                mid0.live(i as int),
                self.spec_len() == mid0.spec_len(),
                self.parent_of(i as int) is None,
                forall|j: int| (#[trigger] self.live(j)) == mid0.live(j),
                self.value_of(i as int) == mid0.value_of(i as int),
                forall|v: usize|
                    #[trigger] self.children_of(i as int).contains(v) ==> mid0.children_of(
                        i as int,
                    ).contains(v),
                forall|c: usize|
                    mid0.children_of(i as int).contains(c) && !self.children_of(i as int).contains(
                        c,
                    ) ==> {
                        &&& #[trigger] self.parent_of(c as int) is None
                        &&& self.children_of(c as int) == mid0.children_of(c as int)
                        &&& self.value_of(c as int) == mid0.value_of(c as int)
                    },
                forall|c: usize|
                    #[trigger] self.children_of(i as int).contains(c) ==> self.nodes@[c as int]
                        == mid0.nodes@[c as int],
                forall|j: int|
                    0 <= j < mid0.spec_len() && j != i && !mid0.children_of(i as int).contains(
                        j as usize,
                    ) ==> self.nodes@[j] == mid0.nodes@[j],
            ensures
                self.children_of(i as int).len() == 0,
            decreases self.children_of(i as int).len(),
        {
            let n = self.get(i);
            if n.children.len() == 0 {
                break;
            }
            let c = n.children[0];
            let ghost pre = *self;
            proof {
                assert(self.children_of(i as int).contains(c));
                self.lemma_child_edge(i as int, c);
            }
            self.detach(c);
            proof {
                assert forall|c2: usize|
                    mid0.children_of(i as int).contains(c2) && !self.children_of(
                        i as int,
                    ).contains(c2) implies {
                    &&& self.parent_of(c2 as int) is None
                    &&& self.children_of(c2 as int) == mid0.children_of(c2 as int)
                    &&& self.value_of(c2 as int) == mid0.value_of(c2 as int)
                } by {
                    mid0.lemma_child_edge(i as int, c2);
                    if pre.children_of(i as int).contains(c2) {
                        assert(c2 == c);
                    } else {
                        assert(pre.parent_of(c2 as int) is None);
                        assert(c2 != c);
                        assert(self.nodes@[c2 as int] == pre.nodes@[c2 as int]);
                    }
                }
                assert forall|c2: usize| #[trigger]
                    self.children_of(i as int).contains(c2) implies self.nodes@[c2 as int]
                    == mid0.nodes@[c2 as int] by {
                    mid0.lemma_child_edge(i as int, c2);
                    assert(pre.children_of(i as int).contains(c2));
                    assert(c2 != c);
                }
                assert forall|j: int|
                    0 <= j < mid0.spec_len() && j != i && !mid0.children_of(i as int).contains(
                        j as usize,
                    ) implies self.nodes@[j] == mid0.nodes@[j] by {
                    assert(mid0.children_of(i as int).contains(c));
                    assert(j as usize != c);
                    assert(pre.nodes@[j] == mid0.nodes@[j]);
                }
            }
        }
        let ghost prev1 = *self;
        let slot = &mut self.nodes[i];
        *slot = None;
        proof {
            assert forall|j: int| self.live(j) implies self.node_ok(j) by {
                assert(prev1.live(j));
                assert(prev1.node_ok(j));
                assert forall|w: int|
                    0 <= w < self.children_of(j).len() implies self.child_edge_ok(
                    j,
                    #[trigger] self.children_of(j)[w],
                ) by {
                    let c = self.children_of(j)[w];
                    assert(prev1.child_edge_ok(j, c));
                    if c == i {
                        assert(prev1.parent_of(i as int) == Some(j as usize));
                    }
                }
                if self.parent_of(j) is Some {
                    let q = self.parent_of(j)->Some_0;
                    if q == i {
                        assert(prev1.children_of(i as int).contains(j as usize));
                    }
                }
            }
            assert forall|j: int| j != i implies self.live(j) == old(self).live(j) by {
                assert(prev1.live(j) == mid0.live(j));
                assert(mid0.live(j) == old(self).live(j));
            }
            vstd::std_specs::vec::axiom_spec_len(&prev1.nodes);
            assert forall|j: int| self.live(j) implies self.value_of(j) == old(self).value_of(
                j,
            ) by {
                assert(prev1.live(j));
                assert(mid0.live(j));
                assert(old(self).live(j));
                if mid0.children_of(i as int).contains(j as usize) {
                    mid0.lemma_child_edge(i as int, j as usize);
                    assert((j as usize) as int == j);
                    assert(prev1.parent_of(j) is None);
                    assert(prev1.value_of(j) == mid0.value_of(j));
                } else {
                    assert(prev1.nodes@[j] == mid0.nodes@[j]);
                }
                if old(self).parent_of(i as int) is Some {
                    let p = old(self).parent_of(i as int)->Some_0;
                    if j == p {
                        assert(mid0.value_of(j) == old(self).value_of(j));
                    } else {
                        assert(mid0.nodes@[j] == old(self).nodes@[j]);
                    }
                } else {
                    assert(mid0.nodes@[j] == old(self).nodes@[j]);
                }
            }
            assert(mid0.children_of(i as int) == old(self).children_of(i as int));
            assert forall|c: usize| old(self).children_of(i as int).contains(c) implies {
                &&& self.parent_of(c as int) is None
                &&& self.children_of(c as int) == old(self).children_of(c as int)
            } by {
                mid0.lemma_child_edge(i as int, c);
                assert(prev1.parent_of(c as int) is None);
                assert(prev1.children_of(c as int) == mid0.children_of(c as int));
                assert(mid0.nodes@[c as int] == old(self).nodes@[c as int]);
            }
        }
    }

    /// Replace the value carried by node `i`, leaving every edge as it is.
    pub fn replace_value(&mut self, i: usize, value: T) -> (prev: T)
        requires
            old(self).live(i as int),
        ensures
            prev == old(self).value_of(i as int),
            final(self).spec_len() == old(self).spec_len(),
            forall|j: int| (#[trigger] final(self).live(j)) == old(self).live(j),
            final(self).value_of(i as int) == value,
            forall|j: int|
                0 <= j < old(self).spec_len() && j != i ==> final(self).nodes@[j] == old(
                    self,
                ).nodes@[j],
            final(self).parent_of(i as int) == old(self).parent_of(i as int),
            final(self).children_of(i as int) == old(self).children_of(i as int),
            old(self).wf() ==> final(self).wf(),
    {
        let mut v = value;
        match &mut self.nodes[i] {
            Some(n) => { core::mem::swap(&mut n.value, &mut v) },
            None => {},
        }
        proof {
            if old(self).wf() {
                assert forall|j: int| (#[trigger] self.live(j)) == old(self).live(j) by {}
                assert(old(self).same_structure(*self));
                old(self).lemma_wf_same_structure(*self);
            }
        }
        v
    }

    /// Remove node `i` together with every descendant: `i` is unlinked
    /// from its parent, every slot of the subtree becomes vacant, and the
    /// survivors are untouched apart from the parent's child list.
    pub fn remove_subtree(&mut self, i: usize)
        requires
            old(self).wf(),
            old(self).live(i as int),
        ensures
            final(self).wf(),
            final(self).spec_len() == old(self).spec_len(),
            forall|j: int|
                (#[trigger] final(self).live(j)) <==> (old(self).live(j) && !old(
                    self,
                ).has_ancestor(j, i as int)),
            forall|j: int|
                #[trigger] final(self).live(j) ==> {
                    &&& final(self).value_of(j) == old(self).value_of(j)
                    &&& final(self).parent_of(j) == old(self).parent_of(j)
                },
            forall|j: int|
                #[trigger] final(self).live(j) && (old(self).parent_of(i as int) matches Some(p)
                    ==> j != p) ==> final(self).children_of(j) == old(self).children_of(j),
            old(self).parent_of(i as int) matches Some(p) ==> (forall|v: usize|
                #[trigger] final(self).children_of(p as int).contains(v) <==> (old(
                    self,
                ).children_of(p as int).contains(v) && v != i)),
            old(self).parent_of(i as int) matches Some(p) ==> final(self).children_of(
                p as int,
            ).len() == old(self).children_of(p as int).len() - 1,
    {
        let ghost orig = *old(self);
        let len = self.len();
        // first pass: record which nodes lie in the subtree of `i`.
        let mut marked: Vec<bool> = Vec::new();
        let mut j: usize = 0;
        while j < len
            invariant
                *self == orig,
                orig.wf(),
                orig.live(i as int),
                len == orig.spec_len(),
                0 <= j <= len,
                marked@.len() == j,
                forall|t: int|
                    0 <= t < j ==> (#[trigger] marked@[t]) == (orig.live(t) && orig.has_ancestor(
                        t,
                        i as int,
                    )),
            decreases len - j,
        {
            let m = if self.is_live(j) {
                self.reaches(j, i)
            } else {
                false
            };
            marked.push(m);
            j = j + 1;
        }
        proof {
            assert(marked@[i as int]);
        }
        // second pass is a single step: unlink the subtree root.
        self.detach(i);
        let ghost mid = *self;
        proof {
            // a survivor's neighbours are all survivors.
            assert forall|t: int|
                mid.live(t) && !marked@[t] implies {
                &&& (mid.parent_of(t) matches Some(q) ==> !marked@[q as int])
                &&& (forall|w: int|
                    0 <= w < mid.children_of(t).len() ==> !marked@[#[trigger] mid.children_of(t)[w]
                        as int])
            } by {
                assert(orig.live(t));
                assert(t != i);
                assert(mid.nodes@[t] == orig.nodes@[t] || (orig.parent_of(i as int)
                    matches Some(p) && t == p));
                assert(mid.parent_of(t) == orig.parent_of(t));
                if mid.parent_of(t) is Some {
                    let q = mid.parent_of(t)->Some_0;
                    assert(orig.node_ok(t));
                    assert(orig.live(q as int));
                    if marked@[q as int] {
                        assert(orig.has_ancestor(q as int, i as int));
                        assert(orig.has_ancestor(t, i as int));
                        assert(false);
                    }
                }
                assert forall|w: int|
                    0 <= w < mid.children_of(t).len() implies !marked@[#[trigger] mid.children_of(
                    t,
                )[w] as int] by {
                    let c = mid.children_of(t)[w];
                    assert(mid.children_of(t).contains(c));
                    mid.lemma_child_edge(t, c);
                    assert(mid.parent_of(c as int) == Some(t as usize));
                    assert(c != i);
                    if orig.parent_of(i as int) is Some {
                        let p0 = orig.parent_of(i as int)->Some_0;
                        if c != p0 {
                            assert(mid.nodes@[c as int] == orig.nodes@[c as int]);
                        }
                    } else {
                        assert(mid == orig);
                    }
                    assert(mid.parent_of(c as int) == orig.parent_of(c as int));
                    assert(orig.live(c as int));
                    if marked@[c as int] {
                        assert(orig.has_ancestor(c as int, i as int));
                        assert(orig.parent_of(c as int) == Some(t as usize));
                        assert(orig.has_ancestor(t, i as int));
                        assert(false);
                    }
                }
            }
        }
        // third pass: clear every marked slot.
        let mut j: usize = 0;
        while j < len
            invariant
                mid.wf(),
                len == mid.spec_len(),
                self.spec_len() == mid.spec_len(),
                marked@.len() == len,
                0 <= j <= len,
                forall|t: int|
                    0 <= t < len ==> ((#[trigger] self.live(t)) <==> (mid.live(t) && !(marked@[t]
                        && t < j))),
                forall|t: int|
                    0 <= t < len && !(marked@[t] && t < j) ==> (#[trigger] self.nodes@[t])
                        == mid.nodes@[t],
                forall|t: int|
                    mid.live(t) && !marked@[t] ==> {
                        &&& (mid.parent_of(t) matches Some(q) ==> !marked@[q as int])
                        &&& (forall|w: int|
                            0 <= w < mid.children_of(t).len() ==> !marked@[#[trigger] mid.children_of(
                                t,
                            )[w] as int])
                    },
            decreases len - j,
        {
            let ghost prevs = *self;
            let ghost j0 = j as int;
            if marked[j] {
                let slot = &mut self.nodes[j];
                *slot = None;
            }
            proof {
                assert forall|t: int|
                    0 <= t < len implies (self.live(t) <==> (mid.live(t) && !(marked@[t] && t < j0
                        + 1))) by {
                    if t == j0 {
                        if marked@[t] {
                            assert(!self.live(t));
                        } else {
                            assert(self.nodes@[t] == prevs.nodes@[t]);
                            assert(self.live(t) == prevs.live(t));
                        }
                    } else {
                        assert(self.nodes@[t] == prevs.nodes@[t]);
                        assert(self.live(t) == prevs.live(t));
                        assert(prevs.live(t) <==> (mid.live(t) && !(marked@[t] && t < j0)));
                    }
                }
                assert forall|t: int|
                    0 <= t < len && !(marked@[t] && t < j0 + 1) implies (#[trigger] self.nodes@[t])
                    == mid.nodes@[t] by {
                    assert(self.nodes@[t] == prevs.nodes@[t]);
                    assert(prevs.nodes@[t] == mid.nodes@[t]);
                }
            }
            j = j + 1;
        }
        proof {
            vstd::std_specs::vec::axiom_spec_len(&mid.nodes);
            assert forall|t: int| self.live(t) implies self.node_ok(t) by {
                assert(mid.live(t) && !marked@[t]);
                assert(self.nodes@[t] == mid.nodes@[t]);
                assert(mid.node_ok(t));
                assert forall|w: int|
                    0 <= w < self.children_of(t).len() implies self.child_edge_ok(
                    t,
                    #[trigger] self.children_of(t)[w],
                ) by {
                    let c = self.children_of(t)[w];
                    assert(mid.child_edge_ok(t, c));
                    assert(!marked@[c as int]);
                    assert(self.nodes@[c as int] == mid.nodes@[c as int]);
                }
                if self.parent_of(t) is Some {
                    let q = self.parent_of(t)->Some_0;
                    assert(!marked@[q as int]);
                    assert(self.nodes@[q as int] == mid.nodes@[q as int]);
                }
            }
            assert forall|t: int|
                (#[trigger] self.live(t)) <==> (orig.live(t) && !orig.has_ancestor(
                    t,
                    i as int,
                )) by {
                if 0 <= t < len {
                    assert(mid.live(t) == orig.live(t));
                } else {
                    assert(!self.live(t) && !orig.live(t));
                }
            }
            assert forall|t: int| self.live(t) implies {
                &&& self.value_of(t) == orig.value_of(t)
                &&& self.parent_of(t) == orig.parent_of(t)
                &&& ((orig.parent_of(i as int) matches Some(p) ==> t != p)
                    ==> self.children_of(t) == orig.children_of(t))
            } by {
                assert(self.nodes@[t] == mid.nodes@[t]);
                assert(t != i);
                if orig.parent_of(i as int) is Some {
                    let p = orig.parent_of(i as int)->Some_0;
                    if t == p as int {
                        assert(mid.value_of(t) == orig.value_of(t));
                        assert(mid.parent_of(t) == orig.parent_of(t));
                    } else {
                        assert(mid.nodes@[t] == orig.nodes@[t]);
                    }
                } else {
                    assert(mid.nodes@[t] == orig.nodes@[t]);
                }
            }
            if orig.parent_of(i as int) is Some {
                let p = orig.parent_of(i as int)->Some_0;
                assert(orig.node_ok(i as int));
                assert(!marked@[p as int]) by {
                    if marked@[p as int] {
                        orig.lemma_ancestor_le(p as int, i as int);
                    }
                }
                assert(mid.live(p as int));
                assert(self.nodes@[p as int] == mid.nodes@[p as int]);
            }
        }
    }

    /// Link existing root `child` as the last child of `parent`. Edges
    /// always run from a smaller index to a larger one, so only a node
    /// created after `parent` can be linked under it.
    pub fn append(&mut self, parent: usize, child: usize)
        requires
            old(self).wf(),
            old(self).live(parent as int),
            old(self).live(child as int),
            parent < child,
            old(self).parent_of(child as int) is None,
        ensures
            final(self).wf(),
            final(self).spec_len() == old(self).spec_len(),
            forall|j: int| (#[trigger] final(self).live(j)) == old(self).live(j),
            forall|j: int|
                0 <= j < old(self).spec_len() && j != parent && j != child
                    ==> final(self).nodes@[j] == old(self).nodes@[j],
            final(self).children_of(parent as int) == old(self).children_of(parent as int).push(
                child,
            ),
            final(self).parent_of(child as int) == Some(parent),
            final(self).parent_of(parent as int) == old(self).parent_of(parent as int),
            final(self).value_of(parent as int) == old(self).value_of(parent as int),
            final(self).value_of(child as int) == old(self).value_of(child as int),
            final(self).children_of(child as int) == old(self).children_of(child as int),
    {
        proof {
            // `child` is in nobody's child list yet: such a parent would be
            // recorded in `child`'s parent field, which is empty.
            assert forall|q: int, k: int|
                self.live(q) && 0 <= k < self.children_of(q).len() implies self.children_of(q)[k]
                != child by {
                assert(self.node_ok(q));
                if self.children_of(q)[k] == child {
                    assert(self.child_edge_ok(q, self.children_of(q)[k]));
                }
            }
        }
        match &mut self.nodes[child] {
            Some(n) => { n.parent = Some(parent) },
            None => {},
        }
        match &mut self.nodes[parent] {
            Some(n) => { n.children.push(child) },
            None => {},
        }
        proof {
            let prev = *old(self);
            assert forall|i: int| self.live(i) implies self.node_ok(i) by {
                assert(prev.live(i));
                assert(prev.node_ok(i));
                if i == child {
                    assert(self.children_of(parent as int).last() == child);
                    assert(self.children_of(parent as int).contains(child));
                } else if i == parent {
                    assert forall|k: int|
                        0 <= k < self.children_of(i).len() implies self.child_edge_ok(
                        i,
                        #[trigger] self.children_of(i)[k],
                    ) by {
                        if k < prev.children_of(i).len() {
                            assert(prev.child_edge_ok(i, prev.children_of(i)[k]));
                        }
                    }
                    // no duplicates: the fresh entry was in no list before.
                    assert(!prev.children_of(parent as int).contains(child));
                    assert(self.children_of(i).drop_last() == prev.children_of(i));
                } else {
                    assert forall|k: int|
                        0 <= k < self.children_of(i).len() implies self.child_edge_ok(
                        i,
                        #[trigger] self.children_of(i)[k],
                    ) by {
                        assert(prev.child_edge_ok(i, prev.children_of(i)[k]));
                    }
                    if self.parent_of(i) is Some {
                        let p = self.parent_of(i)->Some_0;
                        if p == parent {
                            assert(prev.children_of(p as int).contains(i as usize));
                            let k = choose|k: int|
                                0 <= k < prev.children_of(p as int).len() && prev.children_of(
                                    p as int,
                                )[k] == i as usize;
                            assert(self.children_of(p as int)[k] == i as usize);
                            assert(self.children_of(p as int).contains(i as usize));
                        }
                    }
                }
            }
        }
    }
}

} // verus!
