//! The contacts closest to a target by XOR distance, nearest first.

use vstd::multiset::Multiset;
use vstd::prelude::*;

use crate::routing_table::RoutingTableEntry;

verus! {

broadcast use vstd::seq_lib::group_to_multiset_ensures;

/// XOR distance from a contact to `target`.
pub open spec fn dist_to(e: RoutingTableEntry, target: u128) -> u128 {
    e.node_id ^ target
}

/// Index of the first contact nearest to `target` (0 when empty).
pub open spec fn nearest_index(s: Seq<RoutingTableEntry>, target: u128) -> int
    decreases s.len(),
{
    if s.len() <= 1 {
        0
    } else {
        let k = nearest_index(s.drop_last(), target);
        if dist_to(s.last(), target) < dist_to(s[k], target) {
            s.len() - 1
        } else {
            k
        }
    }
}

/// `nearest_index` points at a contact no other contact is nearer than.
pub proof fn lemma_nearest_index(s: Seq<RoutingTableEntry>, target: u128)
    requires
        s.len() > 0,
    ensures
        0 <= nearest_index(s, target) < s.len(),
        forall|j: int|
            0 <= j < s.len() ==> dist_to(s[nearest_index(s, target)], target) <= dist_to(
                #[trigger] s[j],
                target,
            ),
    decreases s.len(),
{
    if s.len() > 1 {
        let d = s.drop_last();
        lemma_nearest_index(d, target);
        let k = nearest_index(d, target);
        assert(s[k] == d[k]);
        assert forall|j: int| 0 <= j < s.len() implies dist_to(s[nearest_index(s, target)], target)
            <= dist_to(#[trigger] s[j], target) by {
            if j < d.len() {
                assert(s[j] == d[j]);
            }
        }
    }
}

/// The `k` contacts nearest to `target` (all of them when there are fewer),
/// nearest first; among contacts at the same distance, the earlier first.
pub open spec fn closest_k(s: Seq<RoutingTableEntry>, target: u128, k: nat) -> Seq<RoutingTableEntry>
    decreases k,
{
    if k == 0 || s.len() == 0 {
        Seq::empty()
    } else {
        let i = nearest_index(s, target);
        seq![s[i]] + closest_k(s.remove(i), target, (k - 1) as nat)
    }
}

/// The contacts that `closest_k` leaves out, in order.
pub open spec fn rest_k(s: Seq<RoutingTableEntry>, target: u128, k: nat) -> Seq<RoutingTableEntry>
    decreases k,
{
    if k == 0 || s.len() == 0 {
        s
    } else {
        rest_k(s.remove(nearest_index(s, target)), target, (k - 1) as nat)
    }
}

/// What `closest_k` picks: `min(k, n)` contacts, in order of distance, taken
/// from the contacts and none farther than any contact left out.
pub proof fn law_closest_k(s: Seq<RoutingTableEntry>, target: u128, k: nat)
    ensures
        closest_k(s, target, k).len() == if k < s.len() {
            k
        } else {
            s.len()
        },
        closest_k(s, target, k).to_multiset().add(rest_k(s, target, k).to_multiset())
            == s.to_multiset(),
        forall|i: int, j: int|
            0 <= i < j < closest_k(s, target, k).len() ==> dist_to(
                #[trigger] closest_k(s, target, k)[i],
                target,
            ) <= dist_to(#[trigger] closest_k(s, target, k)[j], target),
        forall|i: int, j: int|
            0 <= i < closest_k(s, target, k).len() && 0 <= j < rest_k(s, target, k).len()
                ==> dist_to(#[trigger] closest_k(s, target, k)[i], target) <= dist_to(
                #[trigger] rest_k(s, target, k)[j],
                target,
            ),
    decreases k,
{
    let r = closest_k(s, target, k);
    let rest = rest_k(s, target, k);
    if k == 0 || s.len() == 0 {
        assert(r.to_multiset() =~= Multiset::empty());
        assert(r.to_multiset().add(rest.to_multiset()) =~= s.to_multiset());
    } else {
        lemma_nearest_index(s, target);
        let i = nearest_index(s, target);
        let x = s[i];
        let s2 = s.remove(i);
        law_closest_k(s2, target, (k - 1) as nat);
        let r2 = closest_k(s2, target, (k - 1) as nat);
        assert(r == seq![x] + r2);
        assert(rest == rest_k(s2, target, (k - 1) as nat));
        // every contact of `s2` is a contact of `s`, hence no nearer than `x`
        assert forall|y: RoutingTableEntry| s2.contains(y) implies dist_to(x, target) <= dist_to(
            y,
            target,
        ) by {
            let m = choose|m: int| 0 <= m < s2.len() && s2[m] == y;
            if m < i {
                assert(s2[m] == s[m]);
            } else {
                assert(s2[m] == s[m + 1]);
            }
        }
        assert forall|y: RoutingTableEntry|
            r2.contains(y) || rest.contains(y) implies dist_to(x, target) <= dist_to(y, target) by {
            if r2.contains(y) {
                assert(r2.to_multiset().count(y) > 0);
            } else {
                assert(rest.to_multiset().count(y) > 0);
            }
            assert(r2.to_multiset().add(rest.to_multiset()).count(y) > 0);
            assert(s2.to_multiset().count(y) > 0);
            assert(s2.contains(y));
        }
        // multisets
        let e = Seq::<RoutingTableEntry>::empty();
        assert(e.to_multiset() =~= Multiset::empty()) by {
            assert forall|y: RoutingTableEntry| e.to_multiset().count(y) == 0 by {
                assert(!e.contains(y));
            }
        }
        assert(seq![x] =~= e.push(x));
        assert(seq![x].to_multiset() =~= Multiset::empty().insert(x));
        vstd::seq_lib::lemma_multiset_commutative(seq![x], r2);
        assert(s2.to_multiset() =~= s.to_multiset().remove(x));
        assert(s.contains(x));
        assert(s.to_multiset().count(x) > 0);
        assert(r.to_multiset() =~= Multiset::empty().insert(x).add(r2.to_multiset()));
        assert(r2.to_multiset().add(rest.to_multiset()) =~= s.to_multiset().remove(x));
        assert(r.to_multiset().add(rest.to_multiset()) =~= s.to_multiset()) by {
            broadcast use vstd::multiset::group_multiset_axioms;
            assert forall|y: RoutingTableEntry| #[trigger] r.to_multiset().add(rest.to_multiset()).count(y)
                == s.to_multiset().count(y) by {
                assert(r2.to_multiset().add(rest.to_multiset()).count(y) == s.to_multiset().remove(x).count(y));
            }
        }
        // ordering
        assert(r[0] == x);
        assert forall|a: int, b: int| 0 <= a < b < r.len() implies dist_to(#[trigger] r[a], target)
            <= dist_to(#[trigger] r[b], target) by {
            assert(r[b] == r2[b - 1]);
            if a == 0 {
                assert(r2.contains(r2[b - 1]));
            } else {
                assert(r[a] == r2[a - 1]);
            }
        }
        assert forall|a: int, b: int| 0 <= a < r.len() && 0 <= b < rest.len() implies dist_to(
            #[trigger] r[a],
            target,
        ) <= dist_to(#[trigger] rest[b], target) by {
            if a == 0 {
                assert(rest.contains(rest[b]));
            } else {
                assert(r[a] == r2[a - 1]);
            }
        }
    }
}

/// The contacts `closest_k` picks are ranked by the full 128-bit XOR of
/// their id with the target: the picked ones come in order of
/// `id ^ target`, none of them is farther by that measure than any contact
/// left out, and together with those left out they are exactly the contacts
/// given.
pub proof fn law_closest_by_xor(s: Seq<RoutingTableEntry>, target: u128, k: nat)
    ensures
        closest_k(s, target, k).len() == if k < s.len() {
            k
        } else {
            s.len()
        },
        closest_k(s, target, k).to_multiset().add(rest_k(s, target, k).to_multiset())
            == s.to_multiset(),
        forall|i: int, j: int|
            0 <= i < j < closest_k(s, target, k).len() ==> (#[trigger] closest_k(s, target, k)[i]).node_id
                ^ target <= (#[trigger] closest_k(s, target, k)[j]).node_id ^ target,
        forall|i: int, j: int|
            0 <= i < closest_k(s, target, k).len() && 0 <= j < rest_k(s, target, k).len()
                ==> (#[trigger] closest_k(s, target, k)[i]).node_id ^ target <= (
            #[trigger] rest_k(s, target, k)[j]).node_id ^ target,
{
    law_closest_k(s, target, k);
    let r = closest_k(s, target, k);
    let rest = rest_k(s, target, k);
    assert forall|i: int, j: int| 0 <= i < j < r.len() implies (#[trigger] r[i]).node_id ^ target
        <= (#[trigger] r[j]).node_id ^ target by {
        assert(dist_to(r[i], target) <= dist_to(r[j], target));
    }
    assert forall|i: int, j: int| 0 <= i < r.len() && 0 <= j < rest.len() implies (
    #[trigger] r[i]).node_id ^ target <= (#[trigger] rest[j]).node_id ^ target by {
        assert(dist_to(r[i], target) <= dist_to(rest[j], target));
    }
}

/// Index of the first contact nearest to `target`.
fn nearest(s: &Vec<RoutingTableEntry>, target: u128) -> (k: usize)
    requires
        s.len() > 0,
    ensures
        k == nearest_index(s@, target),
        k < s.len(),
{
    let mut best: usize = 0;
    for j in 1..s.len()
        invariant
            s.len() > 0,
            best == nearest_index(s@.take(j as int), target),
            best < j,
    {
        assert(s@.take(j + 1).drop_last() =~= s@.take(j as int));
        assert(s@.take(j as int)[best as int] == s@[best as int]);
        proof {
            lemma_nearest_index(s@.take(j as int), target);
        }
        if s[j].node_id ^ target < s[best].node_id ^ target {
            best = j;
        }
    }
    assert(s@.take(s.len() as int) =~= s@);
    proof {
        lemma_nearest_index(s@, target);
    }
    best
}

/// The `k` contacts nearest to `target`, nearest first.
pub fn closest_entries(entries: &Vec<RoutingTableEntry>, target: u128, k: usize) -> (r: Vec<
    RoutingTableEntry,
>)
    ensures
        r@ == closest_k(entries@, target, k as nat),
{
    let mut rest: Vec<RoutingTableEntry> = Vec::with_capacity(entries.len());
    for j in 0..entries.len()
        invariant
            rest@ == entries@.take(j as int),
    {
        rest.push(entries[j]);
        assert(entries@.take(j + 1) =~= entries@.take(j as int).push(entries@[j as int]));
    }
    assert(entries@.take(entries.len() as int) =~= entries@);
    let mut r: Vec<RoutingTableEntry> = Vec::new();
    let mut taken: usize = 0;
    while taken < k && rest.len() > 0
        invariant
            taken <= k,
            r@ + closest_k(rest@, target, (k - taken) as nat) == closest_k(
                entries@,
                target,
                k as nat,
            ),
        decreases rest.len(),
    {
        let ghost before = rest@;
        proof {
            lemma_nearest_index(rest@, target);
        }
        let i = nearest(&rest, target);
        let e = rest.remove(i);
        assert(closest_k(before, target, (k - taken) as nat) == seq![e] + closest_k(
            rest@,
            target,
            (k - taken - 1) as nat,
        ));
        assert(r@ + (seq![e] + closest_k(rest@, target, (k - taken - 1) as nat)) =~= r@.push(e)
            + closest_k(rest@, target, (k - taken - 1) as nat));
        r.push(e);
        taken = taken + 1;
    }
    assert(closest_k(rest@, target, (k - taken) as nat) =~= Seq::<RoutingTableEntry>::empty());
    assert(r@ + Seq::<RoutingTableEntry>::empty() =~= r@);
    r
}

} // verus!
