//! k-buckets: a closed range of node ids and the routing entries that fall in it.

use vstd::prelude::*;

use crate::routing_table::RoutingTableEntry;

verus! {

/// Number of entries at which a bucket counts as full.
pub const BUCKET_SIZE: usize = 8;

/// A k-bucket: the entries whose node id lies in `min..=max`.
pub struct Bucket {
    pub min: u128,
    pub max: u128,
    pub nodes: Vec<RoutingTableEntry>,
}

/// The mathematical content of a bucket.
#[verifier::ext_equal]
pub struct BucketView {
    pub min: u128,
    pub max: u128,
    pub nodes: Seq<RoutingTableEntry>,
}

impl View for Bucket {
    type V = BucketView;

    open spec fn view(&self) -> BucketView {
        BucketView { min: self.min, max: self.max, nodes: self.nodes@ }
    }
}

/// `id` lies in the bucket's closed range.
pub open spec fn in_range(b: BucketView, id: u128) -> bool {
    b.min <= id && id <= b.max
}

/// The bucket holds at least `BUCKET_SIZE` entries.
pub open spec fn full(b: BucketView) -> bool {
    b.nodes.len() >= BUCKET_SIZE
}

/// Where a bucket is cut in two: halfway between its bounds, rounded down.
pub open spec fn split_point(b: BucketView) -> u128 {
    (b.min + (b.max - b.min) / 2) as u128
}

/// The entries whose id is at most `mid`, keeping their order.
pub open spec fn at_most(s: Seq<RoutingTableEntry>, mid: u128) -> Seq<RoutingTableEntry> {
    s.filter(|e: RoutingTableEntry| e.node_id <= mid)
}

/// The entries whose id is above `mid`, keeping their order.
pub open spec fn above(s: Seq<RoutingTableEntry>, mid: u128) -> Seq<RoutingTableEntry> {
    s.filter(|e: RoutingTableEntry| e.node_id > mid)
}

/// The first entry (in order) whose id is `id`, if any.
pub open spec fn first_with_id(s: Seq<RoutingTableEntry>, id: u128) -> Option<RoutingTableEntry>
    decreases s.len(),
{
    if s.len() == 0 {
        None
    } else if first_with_id(s.drop_last(), id) is Some {
        first_with_id(s.drop_last(), id)
    } else if s.last().node_id == id {
        Some(s.last())
    } else {
        None
    }
}

/// `first_with_id` finds an entry exactly when one with that id is present,
/// and what it finds carries that id and is present.
pub proof fn lemma_first_with_id(s: Seq<RoutingTableEntry>, id: u128)
    ensures
        first_with_id(s, id) is None <==> (forall|k: int| 0 <= k < s.len() ==> s[k].node_id != id),
        first_with_id(s, id) matches Some(e) ==> e.node_id == id && s.contains(e),
    decreases s.len(),
{
    if s.len() > 0 {
        let d = s.drop_last();
        lemma_first_with_id(d, id);
        assert forall|k: int| 0 <= k < d.len() implies s[k] == #[trigger] d[k] by {}
        if first_with_id(s, id) is None {
            assert forall|k: int| 0 <= k < s.len() implies s[k].node_id != id by {
                if k < d.len() {
                    assert(s[k] == d[k]);
                }
            }
        }
        if first_with_id(d, id) is Some {
            let e = first_with_id(d, id)->0;
            let k = choose|k: int| 0 <= k < d.len() && d[k] == e;
            assert(s[k] == e);
        } else if s.last().node_id == id {
            assert(s[s.len() - 1] == s.last());
        }
    }
}

/// Once a prefix holds an entry with that id, the whole sequence finds the same one.
pub proof fn lemma_first_with_id_prefix(s: Seq<RoutingTableEntry>, id: u128, k: int)
    requires
        0 <= k <= s.len(),
        first_with_id(s.take(k), id) is Some,
    ensures
        first_with_id(s, id) == first_with_id(s.take(k), id),
    decreases s.len(),
{
    if k == s.len() {
        assert(s.take(k) =~= s);
    } else {
        assert(s.drop_last().take(k) =~= s.take(k));
        lemma_first_with_id_prefix(s.drop_last(), id, k);
    }
}

/// Dropping entries that do not carry `id` does not change what `first_with_id` finds.
pub proof fn lemma_first_with_id_filter(
    s: Seq<RoutingTableEntry>,
    pred: spec_fn(RoutingTableEntry) -> bool,
    id: u128,
)
    requires
        forall|x: RoutingTableEntry| x.node_id == id ==> #[trigger] pred(x),
    ensures
        first_with_id(s.filter(pred), id) == first_with_id(s, id),
    decreases s.len(),
{
    reveal_with_fuel(Seq::filter, 1);
    if s.len() > 0 {
        lemma_first_with_id_filter(s.drop_last(), pred, id);
        let f = s.drop_last().filter(pred);
        if pred(s.last()) {
            assert(s.filter(pred) == f.push(s.last()));
            assert(f.push(s.last()).drop_last() =~= f);
        } else {
            assert(s.filter(pred) == f);
        }
    }
}

/// Splitting at `mid` loses and invents no entry: the two halves together
/// hold exactly the entries split.
pub proof fn law_split_partitions(s: Seq<RoutingTableEntry>, mid: u128)
    ensures
        at_most(s, mid).to_multiset().add(above(s, mid).to_multiset()) == s.to_multiset(),
        forall|k: int| 0 <= k < at_most(s, mid).len() ==> #[trigger] at_most(s, mid)[k].node_id <= mid,
        forall|k: int| 0 <= k < above(s, mid).len() ==> #[trigger] above(s, mid)[k].node_id > mid,
    decreases s.len(),
{
    broadcast use vstd::seq_lib::group_to_multiset_ensures;
    broadcast use vstd::seq_lib::group_filter_ensures;
    reveal_with_fuel(Seq::filter, 1);
    if s.len() > 0 {
        law_split_partitions(s.drop_last(), mid);
        assert(s.drop_last().push(s.last()) =~= s);
    } else {
        assert(at_most(s, mid) =~= Seq::<RoutingTableEntry>::empty());
        assert(above(s, mid) =~= Seq::<RoutingTableEntry>::empty());
    }
}

/// Keeping a sub-sequence keeps every entry inside bounds that held before,
/// and every kept entry satisfies the predicate.
pub proof fn lemma_filter_within(
    s: Seq<RoutingTableEntry>,
    pred: spec_fn(RoutingTableEntry) -> bool,
    lo: u128,
    hi: u128,
)
    requires
        forall|k: int| 0 <= k < s.len() ==> lo <= #[trigger] s[k].node_id <= hi,
    ensures
        forall|k: int|
            0 <= k < s.filter(pred).len() ==> lo <= (#[trigger] s.filter(pred)[k]).node_id <= hi
                && pred(s.filter(pred)[k]),
    decreases s.len(),
{
    reveal_with_fuel(Seq::filter, 1);
    if s.len() > 0 {
        lemma_filter_within(s.drop_last(), pred, lo, hi);
        let sub = s.drop_last().filter(pred);
        assert forall|k: int| 0 <= k < s.filter(pred).len() implies lo <= (
        #[trigger] s.filter(pred)[k]).node_id <= hi && pred(s.filter(pred)[k]) by {
            if k < sub.len() {
                assert(s.filter(pred)[k] == sub[k]);
            } else {
                assert(s.filter(pred)[k] == s.last());
                assert(s.last() == s[s.len() - 1]);
            }
        }
    }
}

impl Bucket {
    /// An empty bucket for the ids `min..=max`.
    pub fn new(min: u128, max: u128) -> (b: Bucket)
        ensures
            b@ == (BucketView { min, max, nodes: Seq::empty() }),
    {
        Bucket { nodes: Vec::with_capacity(BUCKET_SIZE), min, max }
    }

    /// Appends an entry, whatever its id and however many the bucket holds.
    pub fn insert(&mut self, entry: RoutingTableEntry)
        ensures
            final(self)@ == (BucketView { nodes: old(self)@.nodes.push(entry), ..old(self)@ }),
    {
        self.nodes.push(entry);
    }

    /// The bucket holds at least `BUCKET_SIZE` entries.
    pub fn is_full(&self) -> (r: bool)
        ensures
            r == full(self@),
    {
        self.nodes.len() >= BUCKET_SIZE
    }

    /// Cuts the bucket at its split point `mid`: this bucket keeps `min..=mid`
    /// and the entries with id at most `mid`; the returned bucket covers
    /// `mid..=max` and takes the entries with id above `mid`. Both keep the
    /// entries' order.
    pub fn split(&mut self) -> (high: Bucket)
        requires
            old(self).min <= old(self).max,
        ensures
            final(self)@ == (BucketView {
                min: old(self).min,
                max: split_point(old(self)@),
                nodes: at_most(old(self)@.nodes, split_point(old(self)@)),
            }),
            high@ == (BucketView {
                min: split_point(old(self)@),
                max: old(self).max,
                nodes: above(old(self)@.nodes, split_point(old(self)@)),
            }),
    {
        let old_max = self.max;
        let new_range = (self.max - self.min) / 2;
        let mid = self.min + new_range;
        let ghost nodes = self.nodes@;

        let mut low: Vec<RoutingTableEntry> = Vec::with_capacity(BUCKET_SIZE);
        let mut hi: Vec<RoutingTableEntry> = Vec::with_capacity(BUCKET_SIZE);
        let n = self.nodes.len();
        for i in 0..n
            invariant
                n == self.nodes.len(),
                self.nodes@ == nodes,
                low@ == at_most(nodes.take(i as int), mid),
                hi@ == above(nodes.take(i as int), mid),
        {
            reveal_with_fuel(Seq::filter, 1);
            let e = self.nodes[i];
            assert(nodes.take(i + 1).drop_last() =~= nodes.take(i as int));
            if e.node_id > mid {
                hi.push(e);
            } else {
                low.push(e);
            }
        }
        assert(nodes.take(n as int) =~= nodes);
        self.nodes = low;
        self.max = mid;
        Bucket { min: mid, max: old_max, nodes: hi }
    }

    /// `node_id` lies in `min..=max`.
    pub fn node_in_range(&self, node_id: u128) -> (r: bool)
        ensures
            r == in_range(self@, node_id),
    {
        self.min <= node_id && node_id <= self.max
    }

    /// The first entry (in insertion order) whose id is `node_id`.
    pub fn find(&self, node_id: u128) -> (r: Option<RoutingTableEntry>)
        ensures
            r == first_with_id(self@.nodes, node_id),
    {
        first_entry_with_id(&self.nodes, node_id)
    }
}

/// The first entry of `nodes` (in order) whose id is `node_id`.
pub fn first_entry_with_id(nodes: &Vec<RoutingTableEntry>, node_id: u128) -> (r: Option<
    RoutingTableEntry,
>)
    ensures
        r == first_with_id(nodes@, node_id),
{
    let ghost s = nodes@;
    let n = nodes.len();
    let mut i: usize = 0;
    assert(s.take(0) =~= Seq::<RoutingTableEntry>::empty());
    while i < n
        invariant
            n == s.len(),
            s == nodes@,
            i <= n,
            first_with_id(s.take(i as int), node_id) is None,
        decreases n - i,
    {
        assert(s.take(i + 1).drop_last() =~= s.take(i as int));
        assert(s.take(i + 1).last() == s[i as int]);
        if nodes[i].node_id == node_id {
            proof {
                lemma_first_with_id_prefix(s, node_id, i + 1);
            }
            return Some(nodes[i]);
        }
        i = i + 1;
    }
    assert(s.take(n as int) =~= s);
    None
}

} // verus!
