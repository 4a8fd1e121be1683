//! Ordering the documents of a query by their scores. A score is handed in
//! as an order key: a larger key ranks first, documents with equal keys keep
//! their order, and documents without a key (a zero score) are left out.
use vstd::prelude::*;

verus! {

/// Document `a` ranks before document `b`.
pub open spec fn ranks_before(keys: Seq<Option<u64>>, a: int, b: int) -> bool {
    keys[a]->0 > keys[b]->0 || (keys[a]->0 == keys[b]->0 && a < b)
}

/// `order` lists exactly the documents that have a key, each once, best first.
pub open spec fn is_ranking(keys: Seq<Option<u64>>, order: Seq<usize>) -> bool {
    &&& forall|i: int| 0 <= i < order.len() ==> #[trigger] order[i] < keys.len() && keys[order[i] as int] is Some
    &&& forall|d: int| 0 <= d < keys.len() && keys[d] is Some ==> #[trigger] order.contains(d as usize)
    &&& forall|i: int, j: int| 0 <= i < j < order.len() ==> ranks_before(keys, #[trigger] order[i] as int, #[trigger] order[j] as int)
}

/// The documents that have a key, ordered by decreasing key; ties keep the
/// order of `keys`.
pub fn rank(keys: &Vec<Option<u64>>) -> (order: Vec<usize>)
    ensures
        is_ranking(keys@, order@),
{
    let mut order: Vec<usize> = Vec::new();
    let mut d: usize = 0;
    while d < keys.len()
        invariant
            d <= keys.len(),
            forall|i: int| 0 <= i < order.len() ==> #[trigger] order@[i] < d && keys@[order@[i] as int] is Some,
            forall|e: int| 0 <= e < d && keys@[e] is Some ==> #[trigger] order@.contains(e as usize),
            forall|i: int, j: int| 0 <= i < j < order.len() ==> ranks_before(keys@, #[trigger] order@[i] as int, #[trigger] order@[j] as int),
        decreases keys.len() - d,
    {
        match keys[d] {
            None => {},
            Some(k) => {
                let mut p: usize = 0;
                while p < order.len() && keys[order[p]].unwrap() >= k
                    invariant
                        p <= order.len(),
                        d < keys.len(),
                        forall|i: int| 0 <= i < order.len() ==> #[trigger] order@[i] < d && keys@[order@[i] as int] is Some,
                        forall|e: int| 0 <= e < d && keys@[e] is Some ==> #[trigger] order@.contains(e as usize),
                        forall|i: int, j: int| 0 <= i < j < order.len() ==> ranks_before(keys@, #[trigger] order@[i] as int, #[trigger] order@[j] as int),
                        forall|i: int| 0 <= i < p ==> keys@[#[trigger] order@[i] as int]->0 >= k,
                    decreases order.len() - p,
                {
                    p = p + 1;
                }
                let ghost o0 = order@;
                order.insert(p, d);
                proof {
                    let o1 = order@;
                    assert forall|i: int, j: int| 0 <= i < j < o1.len() implies ranks_before(keys@, #[trigger] o1[i] as int, #[trigger] o1[j] as int) by {
                        if p < o0.len() {
                            assert(keys@[o0[p as int] as int]->0 < k);
                        }
                        if j < p {
                            assert(o1[i] == o0[i] && o1[j] == o0[j]);
                        } else if j == p {
                            assert(o1[i] == o0[i]);
                        } else if i < p {
                            assert(o1[i] == o0[i] && o1[j] == o0[j - 1]);
                            assert(ranks_before(keys@, o0[i] as int, o0[p as int] as int) || i == p);
                        } else if i == p {
                            assert(o1[j] == o0[j - 1]);
                            if j - 1 > p {
                                assert(ranks_before(keys@, o0[p as int] as int, o0[j - 1] as int));
                            }
                        } else {
                            assert(o1[i] == o0[i - 1] && o1[j] == o0[j - 1]);
                        }
                    }
                    assert forall|e: int| 0 <= e < d + 1 && keys@[e] is Some implies #[trigger] o1.contains(e as usize) by {
                        if e == d {
                            assert(o1[p as int] == d);
                        } else {
                            assert(o0.contains(e as usize));
                            let i = choose|i: int| 0 <= i < o0.len() && o0[i] == e as usize;
                            if i < p {
                                assert(o1[i] == o0[i]);
                            } else {
                                assert(o1[i + 1] == o0[i]);
                            }
                        }
                    }
                    assert forall|i: int| 0 <= i < o1.len() implies #[trigger] o1[i] < d + 1 && keys@[o1[i] as int] is Some by {
                        if i < p {
                            assert(o1[i] == o0[i]);
                        } else if i > p {
                            assert(o1[i] == o0[i - 1]);
                        }
                    }
                }
            },
        }
        d = d + 1;
    }
    order
}

} // verus!
