//! Presentation of a converged ranking: a deterministic descending sort.
//!
//! Ranks are non-negative finite binary64 values carried as bit patterns,
//! so sorting the bit patterns in unsigned order is exactly sorting the
//! values numerically.  Ties in rank are broken by ascending identifier,
//! which makes the output order a function of the multiset of nodes alone:
//! deterministic and reproducible across runs.  A non-finite rank (NaN or
//! an infinity) has no place in a ranking and is rejected before sorting.

use vstd::prelude::*;

use crate::is_finite_bits;
use crate::finite_bits;
use crate::Node;
use crate::RankError;

verus! {

/// The presentation order: `a` comes no later than `b` when `a`'s rank is
/// strictly greater, or the ranks are equal and `a`'s identifier is no
/// greater.  This is a total order on nodes with distinct identifiers.
pub open spec fn rank_before(a: Node, b: Node) -> bool {
    a.rank_bits > b.rank_bits || (a.rank_bits == b.rank_bits && a.id <= b.id)
}

/// Sorted by descending rank, ties by ascending identifier.
pub open spec fn sorted_by_rank(s: Seq<Node>) -> bool {
    forall|i: int, j: int| 0 <= i < j < s.len() ==> rank_before(#[trigger] s[i], #[trigger] s[j])
}

/// Every node's rank is the bit pattern of a finite value.
pub open spec fn all_ranks_finite(s: Seq<Node>) -> bool {
    forall|i: int| 0 <= i < s.len() ==> is_finite_bits((#[trigger] s[i]).rank_bits)
}

/// Runtime comparison deciding [`rank_before`].
fn before(a: &Node, b: &Node) -> (r: bool)
    ensures
        r == rank_before(*a, *b),
{
    a.rank_bits > b.rank_bits || (a.rank_bits == b.rank_bits && a.id <= b.id)
}

/// Sorts the nodes into presentation order (descending rank, ties by
/// ascending identifier), keeping exactly the given nodes.
pub fn sort_by_rank(nodes: &mut Vec<Node>)
    ensures
        sorted_by_rank(final(nodes)@),
        final(nodes)@.to_multiset() == old(nodes)@.to_multiset(),
{
    let n = nodes.len();
    if n < 2 {
        return;
    }
    let mut i: usize = 1;
    while i < n
        invariant
            n == nodes@.len(),
            1 <= i <= n,
            forall|p: int, q: int|
                0 <= p < q < i ==> rank_before(#[trigger] nodes@[p], #[trigger] nodes@[q]),
            nodes@.to_multiset() == old(nodes)@.to_multiset(),
        decreases n - i,
    {
        let mut j: usize = i;
        while j > 0 && before(&nodes[j], &nodes[j - 1])
            invariant
                n == nodes@.len(),
                j <= i < n,
                nodes@.to_multiset() == old(nodes)@.to_multiset(),
                forall|p: int, q: int|
                    0 <= p < q < i + 1 && q != j
                        ==> rank_before(#[trigger] nodes@[p], #[trigger] nodes@[q]),
            decreases j,
        {
            let a = nodes[j - 1];
            let b = nodes[j];
            let ghost pre = nodes@;
            nodes[j - 1] = b;
            nodes[j] = a;
            proof {
                broadcast use vstd::seq_lib::group_to_multiset_ensures;
                assert(nodes@ =~= pre.update(j - 1, b).update(j as int, a));
                assert(nodes@.to_multiset() =~= pre.to_multiset());
            }
            j -= 1;
        }
        proof {
            assert forall|p: int, q: int| 0 <= p < q < i + 1 implies rank_before(
                nodes@[p],
                nodes@[q],
            ) by {
                if q == j && j > 0 {
                    assert(rank_before(nodes@[j - 1], nodes@[j as int]));
                    if p < j - 1 {
                        assert(rank_before(nodes@[p], nodes@[j - 1]));
                    }
                }
            }
        }
        i += 1;
    }
}

/// The presentation order is deterministic: two sequences that are both
/// sorted and hold the same nodes are the same sequence.  Together with
/// [`sort_by_rank`]'s contract, the output order is a function of the
/// input nodes alone — reproducible across runs, ties included.
pub proof fn lemma_sorted_by_rank_unique(s1: Seq<Node>, s2: Seq<Node>)
    requires
        sorted_by_rank(s1),
        sorted_by_rank(s2),
        s1.to_multiset() == s2.to_multiset(),
    ensures
        s1 == s2,
    decreases s1.len(),
{
    broadcast use vstd::seq_lib::group_to_multiset_ensures;

    assert(s1.len() == s1.to_multiset().len());
    assert(s2.len() == s2.to_multiset().len());
    if s1.len() == 0 {
        assert(s1 =~= s2);
    } else {
        assert(s1.to_multiset().count(s1[0]) > 0);
        assert(s2.contains(s1[0]));
        assert(s2.to_multiset().count(s2[0]) > 0);
        assert(s1.contains(s2[0]));
        let i = choose|i: int| 0 <= i < s2.len() && s2[i] == s1[0];
        let j = choose|j: int| 0 <= j < s1.len() && s1[j] == s2[0];
        assert(rank_before(s2[0], s1[0]));
        assert(rank_before(s1[0], s2[0]));
        assert(s1[0] == s2[0]);
        let t1 = s1.drop_first();
        let t2 = s2.drop_first();
        assert(s1.remove(0) =~= t1);
        assert(s2.remove(0) =~= t2);
        assert(t1.to_multiset() == s1.to_multiset().remove(s1[0]));
        assert(t2.to_multiset() == s2.to_multiset().remove(s2[0]));
        assert(sorted_by_rank(t1)) by {
            assert forall|p: int, q: int| 0 <= p < q < t1.len() implies rank_before(
                t1[p],
                t1[q],
            ) by {
                assert(t1[p] == s1[p + 1]);
                assert(t1[q] == s1[q + 1]);
            }
        }
        assert(sorted_by_rank(t2)) by {
            assert forall|p: int, q: int| 0 <= p < q < t2.len() implies rank_before(
                t2[p],
                t2[q],
            ) by {
                assert(t2[p] == s2[p + 1]);
                assert(t2[q] == s2[q + 1]);
            }
        }
        lemma_sorted_by_rank_unique(t1, t2);
        assert forall|k: int| 0 <= k < s1.len() implies s1[k] == s2[k] by {
            if k > 0 {
                assert(t1[k - 1] == s1[k]);
                assert(t2[k - 1] == s2[k]);
            }
        }
        assert(s1 =~= s2);
    }
}

/// Produces the ranking result: the nodes in presentation order.
///
/// Rejects the input with [`RankError::NumericDegeneracy`] exactly when
/// some rank is non-finite; otherwise returns the same nodes sorted by
/// descending rank, ties by ascending identifier.
pub fn present(nodes: Vec<Node>) -> (r: Result<Vec<Node>, RankError>)
    ensures
        r is Ok <==> all_ranks_finite(nodes@),
        r is Err ==> r->Err_0 == RankError::NumericDegeneracy,
        r is Ok ==> sorted_by_rank(r->Ok_0@) && r->Ok_0@.to_multiset() == nodes@.to_multiset(),
{
    let mut i: usize = 0;
    let n = nodes.len();
    while i < n
        invariant
            n == nodes@.len(),
            i <= n,
            forall|k: int| 0 <= k < i ==> is_finite_bits((#[trigger] nodes@[k]).rank_bits),
        decreases n - i,
    {
        if !finite_bits(nodes[i].rank_bits) {
            assert(!all_ranks_finite(nodes@));
            return Err(RankError::NumericDegeneracy);
        }
        i += 1;
    }
    let mut sorted = nodes;
    sort_by_rank(&mut sorted);
    Ok(sorted)
}

/// The leading `k` entries of the presentation: the ranking truncated for
/// display.
pub fn take_top(nodes: &Vec<Node>, k: usize) -> (r: Vec<Node>)
    ensures
        r@ == nodes@.take(if k <= nodes@.len() { k as int } else { nodes@.len() as int }),
{
    let mut out: Vec<Node> = Vec::new();
    let limit = if k <= nodes.len() { k } else { nodes.len() };
    let mut i: usize = 0;
    while i < limit
        invariant
            limit <= nodes@.len(),
            i <= limit,
            out@ =~= nodes@.take(i as int),
        decreases limit - i,
    {
        out.push(nodes[i]);
        i += 1;
    }
    proof {
        assert(out@ =~= nodes@.take(limit as int));
    }
    out
}

/// A node identifier paired with its rank already rendered as text, the
/// shape in which a ranking entry is printed.
#[derive(Clone, Debug)]
pub struct StringId {
    pub id: u64,
    pub rank: String,
}

impl StringId {
    pub fn new(id: u64, rank: String) -> (r: StringId)
        ensures
            r.id == id,
            r.rank@ == rank@,
    {
        StringId { id, rank }
    }
}

} // verus!
