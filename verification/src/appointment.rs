use vstd::prelude::*;

verus! {

/// Whether a vaccination session charges a fee.
#[derive(Clone, Copy, Debug, PartialEq, Eq, Structural)]
pub enum FeeType {
    Paid,
    Free,
}

/// Every entry of `order` indexes a session that still has capacity.
pub open spec fn picks_available(order: Seq<usize>, caps: Seq<i16>) -> bool {
    forall|k: int|
        0 <= k < order.len() ==> (#[trigger] order[k]) < caps.len() && caps[order[k] as int] > 0
}

/// Every session that still has capacity appears in `order`.
pub open spec fn picks_all_available(order: Seq<usize>, caps: Seq<i16>) -> bool {
    forall|j: int| 0 <= j < caps.len() && #[trigger] caps[j] > 0 ==> order.contains(j as usize)
}

/// No session is listed twice.
pub open spec fn pairwise_distinct(order: Seq<usize>) -> bool {
    forall|k1: int, k2: int|
        0 <= k1 < k2 < order.len() ==> #[trigger] order[k1] != #[trigger] order[k2]
}

/// Sessions are listed by descending capacity; sessions of equal capacity
/// keep their fetched order.
pub open spec fn capacity_ordered(order: Seq<usize>, caps: Seq<i16>) -> bool {
    forall|k1: int, k2: int|
        0 <= k1 < k2 < order.len() ==> (caps[#[trigger] order[k1] as int] > caps[
            #[trigger] order[k2] as int
        ] || (caps[order[k1] as int] == caps[order[k2] as int] && order[k1] < order[k2]))
}

/// The display order of one fetch's sessions, given their available
/// capacities: exactly the sessions with capacity left, by descending
/// capacity, ties kept in fetched order. The four clauses of the contract
/// pin the order uniquely.
pub fn availability_order(capacities: &Vec<i16>) -> (r: Vec<usize>)
    ensures
        picks_available(r@, capacities@),
        picks_all_available(r@, capacities@),
        pairwise_distinct(r@),
        capacity_ordered(r@, capacities@),
{
    let n = capacities.len();
    let mut order: Vec<usize> = Vec::new();
    let mut i: usize = 0;
    while i < n
        invariant
            0 <= i <= n,
            n == capacities@.len(),
            picks_available(order@, capacities@),
            pairwise_distinct(order@),
            capacity_ordered(order@, capacities@),
            forall|k: int| 0 <= k < order@.len() ==> (#[trigger] order@[k]) < i,
            forall|j: int|
                0 <= j < i && #[trigger] capacities@[j] > 0 ==> order@.contains(j as usize),
        decreases n - i,
    {
        if capacities[i] > 0 {
            let ci = capacities[i];
            let mut p: usize = 0;
            while p < order.len() && capacities[order[p]] >= ci
                invariant
                    0 <= p <= order@.len(),
                    n == capacities@.len(),
                    0 <= i < n,
                    ci == capacities@[i as int],
                    picks_available(order@, capacities@),
                    forall|q: int|
                        0 <= q < p ==> capacities@[(#[trigger] order@[q]) as int] >= ci,
                decreases order@.len() - p,
            {
                p += 1;
            }
            let ghost prev = order@;
            let ghost pos = p as int;
            order.insert(p, i);
            proof {
                prev.insert_ensures(pos, i as usize);
                let cur = order@;
                assert(cur == prev.insert(pos, i as usize));
                assert forall|k1: int, k2: int|
                    0 <= k1 < k2 < cur.len() implies (capacities@[#[trigger] cur[k1] as int]
                    > capacities@[#[trigger] cur[k2] as int] || (capacities@[cur[k1] as int]
                    == capacities@[cur[k2] as int] && cur[k1] < cur[k2])) by {
                    if k1 < pos && k2 < pos {
                    } else if k1 < pos && k2 == pos {
                        assert(cur[k1] == prev[k1]);
                        assert(capacities@[prev[k1] as int] >= ci);
                    } else if k1 == pos && k2 > pos {
                        assert(cur[k2] == prev[k2 - 1]);
                        assert(capacities@[prev[pos] as int] < ci);
                        if k2 - 1 > pos {
                            assert(capacities@[prev[pos] as int] >= capacities@[prev[k2 - 1] as int]
                                || (capacities@[prev[pos] as int] == capacities@[prev[k2
                                - 1] as int] && prev[pos] < prev[k2 - 1]));
                        }
                    } else if k1 < pos && k2 > pos {
                        assert(cur[k1] == prev[k1]);
                        assert(cur[k2] == prev[k2 - 1]);
                    } else {
                        assert(cur[k1] == prev[k1 - 1]);
                        assert(cur[k2] == prev[k2 - 1]);
                    }
                }
                assert forall|j: int|
                    0 <= j < i + 1 && #[trigger] capacities@[j] > 0 implies cur.contains(
                    j as usize,
                ) by {
                    if j == i {
                        assert(cur[pos] == i as usize);
                    } else {
                        assert(prev.contains(j as usize));
                        let k = choose|k: int| 0 <= k < prev.len() && prev[k] == j as usize;
                        if k < pos {
                            assert(cur[k] == j as usize);
                        } else {
                            assert(cur[k + 1] == j as usize);
                        }
                    }
                }
            }
        }
        i += 1;
    }
    order
}

} // verus!
