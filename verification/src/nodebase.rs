use vstd::prelude::*;

verus! {

use crate::ids::Nid;
use crate::util::nid_vec_has;

/// Common per-node state: the node's identity, the set of outgoing
/// neighbours (`edges_to`), and the set of incoming neighbours
/// (`edges_from`, maintained only when the owning graph tracks reverse
/// edges). Both adjacency sets are kept free of duplicates; the stored
/// order is the insertion order and carries no meaning beyond giving
/// traversals a stable way to walk the neighbours.
///
/// An identifier held in either set is not guaranteed to denote a node
/// still present in the graph: removing a node does not purge references
/// to it, so readers must treat adjacency entries as potentially stale.
#[derive(Debug, Clone)]
pub struct NodeBase {
    nid: Nid,
    edges_to: Vec<Nid>,
    edges_from: Vec<Nid>,
}

impl NodeBase {
    /// The node's identity.
    pub closed spec fn id_spec(&self) -> Nid {
        self.nid
    }

    /// The outgoing neighbours, in stored order.
    pub closed spec fn to_seq(&self) -> Seq<Nid> {
        self.edges_to@
    }

    /// The incoming neighbours, in stored order.
    pub closed spec fn from_seq(&self) -> Seq<Nid> {
        self.edges_from@
    }

    /// A fresh base with the given identity and no neighbours.
    pub fn new(nid: Nid) -> (r: NodeBase)
        ensures
            r.id_spec() == nid,
            r.to_seq().len() == 0,
            r.from_seq().len() == 0,
    {
        NodeBase { nid, edges_to: Vec::new(), edges_from: Vec::new() }
    }

    /// Record `to` as an outgoing neighbour; a no-op when already present.
    pub fn direct(&mut self, to: Nid)
        ensures
            final(self).id_spec() == old(self).id_spec(),
            final(self).from_seq() == old(self).from_seq(),
            final(self).to_seq() == (if old(self).to_seq().contains(to) {
                old(self).to_seq()
            } else {
                old(self).to_seq().push(to)
            }),
    {
        if !nid_vec_has(&self.edges_to, to) {
            self.edges_to.push(to);
        }
    }

    /// Record `from` as an incoming neighbour; a no-op when already present.
    pub fn direct_from(&mut self, from: Nid)
        ensures
            final(self).id_spec() == old(self).id_spec(),
            final(self).to_seq() == old(self).to_seq(),
            final(self).from_seq() == (if old(self).from_seq().contains(from) {
                old(self).from_seq()
            } else {
                old(self).from_seq().push(from)
            }),
    {
        if !nid_vec_has(&self.edges_from, from) {
            self.edges_from.push(from);
        }
    }

    /// Drop `to` from the outgoing neighbours; a no-op when absent.
    pub fn undirect(&mut self, to: Nid)
        requires
            old(self).to_seq().no_duplicates(),
        ensures
            final(self).id_spec() == old(self).id_spec(),
            final(self).from_seq() == old(self).from_seq(),
            final(self).to_seq().no_duplicates(),
            !final(self).to_seq().contains(to),
            forall|x: Nid|
                x != to ==> final(self).to_seq().contains(x) == old(self).to_seq().contains(x),
            !old(self).to_seq().contains(to) ==> final(self).to_seq() == old(self).to_seq(),
    {
        let _present = remove_nid(&mut self.edges_to, to);
    }

    /// Drop `from` from the incoming neighbours; a no-op when absent.
    pub fn undirect_from(&mut self, from: Nid)
        requires
            old(self).from_seq().no_duplicates(),
        ensures
            final(self).id_spec() == old(self).id_spec(),
            final(self).to_seq() == old(self).to_seq(),
            final(self).from_seq().no_duplicates(),
            !final(self).from_seq().contains(from),
            forall|x: Nid|
                x != from ==> final(self).from_seq().contains(x) == old(self).from_seq().contains(x),
            !old(self).from_seq().contains(from) ==> final(self).from_seq() == old(self).from_seq(),
    {
        let _present = remove_nid(&mut self.edges_from, from);
    }

    /// A copy of the outgoing neighbours, in stored order.
    pub fn get_edges(&self) -> (r: Vec<Nid>)
        ensures
            r@ == self.to_seq(),
    {
        copy_nids(&self.edges_to)
    }

    /// A copy of the incoming neighbours, in stored order. Meaningful only
    /// when the owning graph tracks reverse edges.
    pub fn get_edges_from(&self) -> (r: Vec<Nid>)
        ensures
            r@ == self.from_seq(),
    {
        copy_nids(&self.edges_from)
    }

    /// The node's identity.
    pub fn get_id(&self) -> (r: Nid)
        ensures
            r == self.id_spec(),
    {
        self.nid
    }
}

/// A copy of `v`.
fn copy_nids(v: &Vec<Nid>) -> (r: Vec<Nid>)
    ensures
        r@ == v@,
{
    let mut r: Vec<Nid> = Vec::new();
    let mut i: usize = 0;
    while i < v.len()
        invariant
            0 <= i <= v@.len(),
            r@ == v@.subrange(0, i as int),
        decreases v@.len() - i,
    {
        r.push(v[i]);
        proof {
            assert(r@ =~= v@.subrange(0, i + 1 as int));
        }
        i = i + 1;
    }
    proof {
        assert(r@ =~= v@);
    }
    r
}

/// Remove the one occurrence of `x` from the duplicate-free vector `v`;
/// returns whether it was present.
fn remove_nid(v: &mut Vec<Nid>, x: Nid) -> (b: bool)
    requires
        old(v)@.no_duplicates(),
    ensures
        b == old(v)@.contains(x),
        final(v)@.no_duplicates(),
        !final(v)@.contains(x),
        forall|y: Nid| y != x ==> final(v)@.contains(y) == old(v)@.contains(y),
        !old(v)@.contains(x) ==> final(v)@ == old(v)@,
{
    let ghost orig = v@;
    let mut i: usize = 0;
    while i < v.len()
        invariant
            0 <= i <= v@.len(),
            v@ == orig,
            orig == old(v)@,
            orig.no_duplicates(),
            forall|j: int| 0 <= j < i ==> orig[j] != x,
        decreases v@.len() - i,
    {
        if v[i] == x {
            proof {
                assert(orig[i as int] == x);
                assert(orig.contains(x));
            }
            let _ = v.remove(i);
            proof {
                lemma_removed_membership(orig, i as int);
            }
            return true;
        }
        i = i + 1;
    }
    proof {
        assert(!orig.contains(x)) by {
            if orig.contains(x) {
                let j = choose|j: int| 0 <= j < orig.len() && orig[j] == x;
                assert(orig[j] != x);
            }
        }
    }
    false
}

/// After removing position `i` from a duplicate-free sequence, the value
/// that stood there is gone and every other value keeps its membership.
proof fn lemma_removed_membership(s: Seq<Nid>, i: int)
    requires
        s.no_duplicates(),
        0 <= i < s.len(),
    ensures
        s.remove(i).no_duplicates(),
        !s.remove(i).contains(s[i]),
        forall|y: Nid| y != s[i] ==> s.remove(i).contains(y) == s.contains(y),
{
    let r = s.remove(i);
    s.remove_ensures(i);
    assert forall|i1: int, i2: int| 0 <= i1 < i2 < r.len() implies r[i1] != r[i2] by {
        let o1: int = if i1 < i { i1 } else { i1 + 1 };
        let o2: int = if i2 < i { i2 } else { i2 + 1 };
        assert(r[i1] == s[o1]);
        assert(r[i2] == s[o2]);
    }
    assert(!r.contains(s[i])) by {
        if r.contains(s[i]) {
            let j = choose|j: int| 0 <= j < r.len() && r[j] == s[i];
            let oj: int = if j < i { j } else { j + 1 };
            assert(r[j] == s[oj]);
            assert(oj != i);
        }
    }
    assert forall|y: Nid| y != s[i] implies r.contains(y) == s.contains(y) by {
        if r.contains(y) {
            let j = choose|j: int| 0 <= j < r.len() && r[j] == y;
            let oj: int = if j < i { j } else { j + 1 };
            assert(s[oj] == y);
            assert(s.contains(y));
        }
        if s.contains(y) {
            let j = choose|j: int| 0 <= j < s.len() && s[j] == y;
            assert(j != i);
            let nj: int = if j < i { j } else { j - 1 };
            assert(r[nj] == y);
            assert(r.contains(y));
        }
    }
}

} // verus!
