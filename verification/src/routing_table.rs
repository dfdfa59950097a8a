//! The routing table: an ordered list of k-buckets that splits the bucket
//! holding the node's own id when it fills up.

use vstd::prelude::*;

use crate::bucket::{
    above, at_most, first_with_id, BUCKET_SIZE, full, in_range, lemma_filter_within, lemma_first_with_id,
    lemma_first_with_id_filter, split_point, Bucket, BucketView,
};

verus! {

/// A contact in the routing table: a node id and the handle of its address.
#[derive(Clone, Copy, PartialEq, Eq, Structural, Debug)]
pub struct RoutingTableEntry {
    pub node_id: u128,
    pub address: u64,
}

/// The buckets of a table, in order.
pub struct RoutingTable {
    parent_node_id: u128,
    buckets: Vec<Bucket>,
}

/// Buckets are well formed: each range is non-empty, ranges come in
/// increasing order (neighbours may share a bound), and every entry lies in
/// the range of the bucket that holds it.
pub open spec fn table_wf(v: Seq<BucketView>) -> bool {
    &&& forall|i: int| 0 <= i < v.len() ==> (#[trigger] v[i]).min <= v[i].max
    &&& forall|i: int, j: int|
        0 <= i < j < v.len() ==> (#[trigger] v[i]).max <= (#[trigger] v[j]).min
    &&& forall|i: int, k: int|
        #![trigger v[i].nodes[k]]
        0 <= i < v.len() && 0 <= k < v[i].nodes.len() ==> in_range(v[i], v[i].nodes[k].node_id)
}

/// Some bucket's range holds `id`.
pub open spec fn covers(v: Seq<BucketView>, id: u128) -> bool {
    exists|i: int| 0 <= i < v.len() && in_range(#[trigger] v[i], id)
}

/// Bucket `i` is the first one whose range holds `id`.
pub open spec fn is_first_covering(v: Seq<BucketView>, id: u128, i: int) -> bool {
    &&& 0 <= i < v.len()
    &&& in_range(v[i], id)
    &&& forall|j: int| 0 <= j < i ==> !in_range(#[trigger] v[j], id)
}

/// The index of the first bucket whose range holds `id`.
pub open spec fn locate(v: Seq<BucketView>, id: u128) -> int {
    choose|i: int| is_first_covering(v, id, i)
}

/// The entries without those whose id is `id`.
pub open spec fn without_id(s: Seq<RoutingTableEntry>, id: u128) -> Seq<RoutingTableEntry> {
    s.filter(|e: RoutingTableEntry| e.node_id != id)
}

/// The buckets after inserting `e` into a table whose own id is `parent`.
/// The bucket located for `e` takes it when not full. A full bucket that
/// holds `parent` is split at its split point first: when `e` belongs to the
/// upper half, the upper half is placed right after the lower one and takes
/// `e`; otherwise the lower half takes `e` and the upper half is discarded
/// together with its entries. A full bucket that does not hold `parent`
/// leaves the table unchanged.
pub open spec fn inserted(v: Seq<BucketView>, parent: u128, e: RoutingTableEntry) -> Seq<BucketView> {
    let i = locate(v, e.node_id);
    let b = v[i];
    let mid = split_point(b);
    if full(b) && in_range(b, parent) {
        let low = BucketView { min: b.min, max: mid, nodes: at_most(b.nodes, mid) };
        let high = BucketView { min: mid, max: b.max, nodes: above(b.nodes, mid) };
        if mid <= e.node_id {
            v.update(i, low).insert(i + 1, BucketView { nodes: high.nodes.push(e), ..high })
        } else {
            v.update(i, BucketView { nodes: low.nodes.push(e), ..low })
        }
    } else if !full(b) {
        v.update(i, BucketView { nodes: b.nodes.push(e), ..b })
    } else {
        v
    }
}

/// The buckets after dropping every entry whose id is `id`.
pub open spec fn removed(v: Seq<BucketView>, id: u128) -> Seq<BucketView> {
    Seq::new(v.len(), |i: int| BucketView { nodes: without_id(v[i].nodes, id), ..v[i] })
}

/// Every entry of the table, bucket after bucket.
pub open spec fn all_entries(v: Seq<BucketView>) -> Seq<RoutingTableEntry>
    decreases v.len(),
{
    if v.len() == 0 {
        Seq::empty()
    } else {
        all_entries(v.drop_last()) + v.last().nodes
    }
}

/// When a bucket covers `id`, a first such bucket exists and is the one `locate` picks.
pub proof fn lemma_locate(v: Seq<BucketView>, id: u128)
    requires
        covers(v, id),
    ensures
        is_first_covering(v, id, locate(v, id)),
        forall|i: int| is_first_covering(v, id, i) ==> i == locate(v, id),
{
    let i = choose|i: int| 0 <= i < v.len() && in_range(v[i], id);
    lemma_first_covering_below(v, id, i);
}

proof fn lemma_first_covering_below(v: Seq<BucketView>, id: u128, i: int)
    requires
        0 <= i < v.len(),
        in_range(v[i], id),
    ensures
        exists|j: int| is_first_covering(v, id, j),
    decreases i,
{
    if exists|j: int| 0 <= j < i && in_range(v[j], id) {
        let j = choose|j: int| 0 <= j < i && in_range(v[j], id);
        lemma_first_covering_below(v, id, j);
    } else {
        assert(is_first_covering(v, id, i));
    }
}

/// Inserting keeps the buckets well formed.
pub proof fn lemma_inserted_wf(v: Seq<BucketView>, parent: u128, e: RoutingTableEntry)
    requires
        table_wf(v),
        covers(v, e.node_id),
    ensures
        table_wf(inserted(v, parent, e)),
        inserted(v, parent, e).len() >= v.len(),
{
    lemma_locate(v, e.node_id);
    let i = locate(v, e.node_id);
    let b = v[i];
    let mid = split_point(b);
    let r = inserted(v, parent, e);
    assert forall|k: int| 0 <= k < b.nodes.len() implies b.min <= #[trigger] b.nodes[k].node_id <= b.max by {
        assert(in_range(v[i], v[i].nodes[k].node_id));
    }
    if full(b) && in_range(b, parent) {
        let pl = |x: RoutingTableEntry| x.node_id <= mid;
        let ph = |x: RoutingTableEntry| x.node_id > mid;
        lemma_filter_within(b.nodes, pl, b.min, b.max);
        lemma_filter_within(b.nodes, ph, b.min, b.max);
        let low = BucketView { min: b.min, max: mid, nodes: at_most(b.nodes, mid) };
        let high = BucketView { min: mid, max: b.max, nodes: above(b.nodes, mid) };
        if mid <= e.node_id {
            let hb = BucketView { nodes: high.nodes.push(e), ..high };
            assert(r == v.update(i, low).insert(i + 1, hb));
            assert forall|x: int| 0 <= x < r.len() implies (#[trigger] r[x]).min <= r[x].max by {
                if x < i { assert(r[x] == v[x]); }
                else if x > i + 1 { assert(r[x] == v[x - 1]); }
            }
            assert forall|x: int, y: int| 0 <= x < y < r.len() implies (#[trigger] r[x]).max <= (#[trigger] r[y]).min by {
                if x < i { assert(r[x] == v[x]); }
                if x > i + 1 { assert(r[x] == v[x - 1]); }
                if y < i { assert(r[y] == v[y]); }
                if y > i + 1 { assert(r[y] == v[y - 1]); }
                if x < i && (y == i || y == i + 1) { assert(v[x].max <= v[i].min); }
                if (x == i || x == i + 1) && y > i + 1 { assert(v[i].max <= v[y - 1].min); }
                if x < i && y > i + 1 { assert(v[x].max <= v[y - 1].min); }
                if x > i + 1 { assert(v[x - 1].max <= v[y - 1].min); }
            }
            assert forall|x: int, k: int|
                #![trigger r[x].nodes[k]]
                0 <= x < r.len() && 0 <= k < r[x].nodes.len() implies in_range(r[x], r[x].nodes[k].node_id) by {
                if x < i { assert(r[x] == v[x]); }
                else if x > i + 1 { assert(r[x] == v[x - 1]); assert(r[x].nodes[k] == v[x - 1].nodes[k]); }
                else if x == i { assert(r[x] == low); assert(low.nodes[k] == at_most(b.nodes, mid)[k]); }
                else {
                    assert(r[x] == hb);
                    if k < high.nodes.len() { assert(hb.nodes[k] == above(b.nodes, mid)[k]); }
                }
            }
        } else {
            let lb = BucketView { nodes: low.nodes.push(e), ..low };
            assert(r == v.update(i, lb));
            assert forall|x: int, y: int| 0 <= x < y < r.len() implies (#[trigger] r[x]).max <= (#[trigger] r[y]).min by {
                if x == i { assert(v[i].max <= v[y].min); }
                if y == i { assert(v[x].max <= v[i].min); }
            }
            assert forall|x: int, k: int|
                #![trigger r[x].nodes[k]]
                0 <= x < r.len() && 0 <= k < r[x].nodes.len() implies in_range(r[x], r[x].nodes[k].node_id) by {
                if x == i {
                    if k < low.nodes.len() { assert(lb.nodes[k] == at_most(b.nodes, mid)[k]); }
                } else {
                    assert(r[x] == v[x]);
                }
            }
        }
    } else if !full(b) {
        let nb = BucketView { nodes: b.nodes.push(e), ..b };
        assert(r == v.update(i, nb));
        assert forall|x: int, k: int|
            #![trigger r[x].nodes[k]]
            0 <= x < r.len() && 0 <= k < r[x].nodes.len() implies in_range(r[x], r[x].nodes[k].node_id) by {
            if x == i {
                if k < b.nodes.len() { assert(nb.nodes[k] == b.nodes[k]); }
            } else {
                assert(r[x] == v[x]);
            }
        }
    }
}

impl View for RoutingTable {
    type V = Seq<BucketView>;

    closed spec fn view(&self) -> Seq<BucketView> {
        self.buckets@.map_values(|b: Bucket| b@)
    }
}

impl RoutingTable {
    /// The id of the node that owns the table.
    pub closed spec fn parent(&self) -> u128 {
        self.parent_node_id
    }

    /// The table's buckets are well formed.
    pub open spec fn wf(&self) -> bool {
        table_wf(self@)
    }

    /// Some bucket of the table covers `id`.
    pub open spec fn covers_id(&self, id: u128) -> bool {
        covers(self@, id)
    }

    /// A table for the node `node_id`: one empty bucket covering every id.
    pub fn new(node_id: u128) -> (t: RoutingTable)
        ensures
            t.wf(),
            t.parent() == node_id,
            t@ == seq![BucketView { min: 0, max: u128::MAX, nodes: Seq::empty() }],
    {
        let mut buckets: Vec<Bucket> = Vec::new();
        buckets.push(Bucket::new(0, u128::MAX));
        let t = RoutingTable { parent_node_id: node_id, buckets };
        assert(t@ =~= seq![BucketView { min: 0, max: u128::MAX, nodes: Seq::empty() }]);
        t
    }

    /// Whether some bucket covers `node_id`; the lookups need one.
    pub fn covers(&self, node_id: u128) -> (r: bool)
        ensures
            r == covers(self@, node_id),
    {
        let n = self.buckets.len();
        for i in 0..n
            invariant
                n == self@.len(),
                forall|j: int| 0 <= j < i ==> !in_range(#[trigger] self@[j], node_id),
        {
            if self.buckets[i].node_in_range(node_id) {
                assert(in_range(self@[i as int], node_id));
                return true;
            }
        }
        false
    }

    /// Index of the first bucket whose range holds `node_id`.
    fn locate_index(&self, node_id: u128) -> (r: usize)
        requires
            covers(self@, node_id),
        ensures
            r == locate(self@, node_id),
            is_first_covering(self@, node_id, r as int),
    {
        proof {
            lemma_locate(self@, node_id);
        }
        let n = self.buckets.len();
        let mut i: usize = 0;
        while i < n
            invariant
                n == self@.len(),
                i <= n,
                covers(self@, node_id),
                forall|j: int| 0 <= j < i ==> !in_range(#[trigger] self@[j], node_id),
            decreases n - i,
        {
            if self.buckets[i].node_in_range(node_id) {
                assert(is_first_covering(self@, node_id, i as int));
                return i;
            }
            i = i + 1;
        }
        proof {
            let k = choose|k: int| 0 <= k < self@.len() && in_range(self@[k], node_id);
        }
        i
    }

    /// Adds a contact, as [`inserted`] describes: into the first bucket
    /// covering its id, splitting that bucket first when it is full and holds
    /// the table's own id, and dropping the contact when the bucket is full
    /// and does not hold it.
    pub fn insert(&mut self, entry: RoutingTableEntry)
        requires
            old(self).wf(),
            covers(old(self)@, entry.node_id),
        ensures
            final(self).wf(),
            final(self).parent() == old(self).parent(),
            final(self)@ == inserted(old(self)@, old(self).parent(), entry),
    {
        proof {
            lemma_inserted_wf(self@, self.parent_node_id, entry);
        }
        let ghost v = self@;
        let i = self.locate_index(entry.node_id);
        let parent = self.parent_node_id;
        let mut bucket = Bucket::new(0, 0);
        self.buckets.set_and_swap(i, &mut bucket);
        assert(bucket@ == v[i as int]);
        assert(v[i as int].min <= v[i as int].max);
        if bucket.is_full() && bucket.node_in_range(parent) {
            let mut high = bucket.split();
            if high.node_in_range(entry.node_id) {
                high.insert(entry);
                self.buckets.set(i, bucket);
                assert(i < self.buckets.len());
                self.buckets.insert(i + 1, high);
                assert(self@ =~= inserted(v, parent, entry));
            } else {
                bucket.insert(entry);
                self.buckets.set(i, bucket);
                assert(self@ =~= inserted(v, parent, entry));
            }
        } else if !bucket.is_full() {
            bucket.insert(entry);
            self.buckets.set(i, bucket);
            assert(self@ =~= inserted(v, parent, entry));
        } else {
            self.buckets.set(i, bucket);
            assert(self@ =~= v);
        }
    }

    /// Every entry of the table, bucket after bucket, each bucket in order.
    pub fn entries(&self) -> (r: Vec<RoutingTableEntry>)
        ensures
            r@ == all_entries(self@),
    {
        let mut r: Vec<RoutingTableEntry> = Vec::new();
        let n = self.buckets.len();
        for i in 0..n
            invariant
                n == self@.len(),
                r@ == all_entries(self@.take(i as int)),
        {
            let nodes = &self.buckets[i].nodes;
            assert(nodes@ == self@[i as int].nodes);
            let ghost start = r@;
            for j in 0..nodes.len()
                invariant
                    r@ == start + nodes@.take(j as int),
            {
                r.push(nodes[j]);
                assert(nodes@.take(j + 1) =~= nodes@.take(j as int).push(nodes@[j as int]));
            }
            assert(nodes@.take(nodes.len() as int) =~= nodes@);
            assert(self@.take(i + 1).drop_last() =~= self@.take(i as int));
            assert(self@.take(i + 1).last() == self@[i as int]);
        }
        assert(self@.take(n as int) =~= self@);
        r
    }

    /// The first entry with id `node_id` in the bucket that covers it.
    pub fn find_exact(&self, node_id: u128) -> (r: Option<RoutingTableEntry>)
        requires
            covers(self@, node_id),
        ensures
            r == first_with_id(self@[locate(self@, node_id)].nodes, node_id),
    {
        let i = self.locate_index(node_id);
        self.buckets[i].find(node_id)
    }

    /// A copy of the entries of the bucket that covers `node_id`, in order.
    pub fn find_closest(&self, node_id: u128) -> (r: Vec<RoutingTableEntry>)
        requires
            covers(self@, node_id),
        ensures
            r@ == self@[locate(self@, node_id)].nodes,
    {
        let i = self.locate_index(node_id);
        let nodes = &self.buckets[i].nodes;
        let mut r: Vec<RoutingTableEntry> = Vec::with_capacity(nodes.len());
        for k in 0..nodes.len()
            invariant
                nodes@ == self@[i as int].nodes,
                r@ == nodes@.take(k as int),
        {
            r.push(nodes[k]);
            assert(nodes@.take(k + 1) =~= nodes@.take(k as int).push(nodes@[k as int]));
        }
        assert(nodes@.take(nodes.len() as int) =~= nodes@);
        r
    }

    /// Drops every entry whose id is `node_id`, from every bucket; the
    /// buckets and their ranges stay.
    pub fn remove(&mut self, node_id: u128)
        requires
            old(self).wf(),
        ensures
            final(self).wf(),
            final(self).parent() == old(self).parent(),
            final(self)@ == removed(old(self)@, node_id),
    {
        proof {
            lemma_removed_wf(self@, node_id);
        }
        let ghost v = self@;
        let n = self.buckets.len();
        for i in 0..n
            invariant
                n == v.len(),
                self@.len() == n,
                self.parent() == old(self).parent(),
                v == old(self)@,
                forall|j: int| 0 <= j < i ==> #[trigger] self@[j] == removed(v, node_id)[j],
                forall|j: int| i <= j < n ==> #[trigger] self@[j] == v[j],
        {
            let ghost before = self@;
            assert(self.buckets@[i as int]@ == before[i as int]);
            let mut bucket = Bucket::new(0, 0);
            self.buckets.set_and_swap(i, &mut bucket);
            assert(bucket@ == v[i as int]);
            let kept = without_id_vec(&bucket.nodes, node_id);
            bucket.nodes = kept;
            self.buckets.set(i, bucket);
            assert(self@ =~= before.update(i as int, removed(v, node_id)[i as int]));
        }
        assert(self@ =~= removed(v, node_id));
    }
}

/// The entries of `nodes` whose id is not `node_id`, in order.
fn without_id_vec(nodes: &Vec<RoutingTableEntry>, node_id: u128) -> (r: Vec<RoutingTableEntry>)
    ensures
        r@ == without_id(nodes@, node_id),
{
    let mut r: Vec<RoutingTableEntry> = Vec::new();
    for k in 0..nodes.len()
        invariant
            r@ == without_id(nodes@.take(k as int), node_id),
    {
        reveal_with_fuel(Seq::filter, 1);
        assert(nodes@.take(k + 1).drop_last() =~= nodes@.take(k as int));
        if nodes[k].node_id != node_id {
            r.push(nodes[k]);
        }
    }
    assert(nodes@.take(nodes.len() as int) =~= nodes@);
    r
}

/// Dropping entries keeps the buckets well formed.
pub proof fn lemma_removed_wf(v: Seq<BucketView>, id: u128)
    requires
        table_wf(v),
    ensures
        table_wf(removed(v, id)),
        removed(v, id).len() == v.len(),
{
    let r = removed(v, id);
    assert forall|x: int, k: int|
        #![trigger r[x].nodes[k]]
        0 <= x < r.len() && 0 <= k < r[x].nodes.len() implies in_range(r[x], r[x].nodes[k].node_id) by {
        let b = v[x];
        assert forall|j: int| 0 <= j < b.nodes.len() implies b.min <= #[trigger] b.nodes[j].node_id <= b.max by {
            assert(in_range(v[x], v[x].nodes[j].node_id));
        }
        lemma_filter_within(b.nodes, |e: RoutingTableEntry| e.node_id != id, b.min, b.max);
    }
    assert forall|x: int, y: int| 0 <= x < y < r.len() implies (#[trigger] r[x]).max <= (#[trigger] r[y]).min by {
        assert(v[x].max <= v[y].min);
    }
}

/// A fresh table covers every id.
pub proof fn law_fresh_table_covers(id: u128)
    ensures
        covers(seq![BucketView { min: 0, max: u128::MAX, nodes: Seq::empty() }], id),
{
    let v = seq![BucketView { min: 0, max: u128::MAX, nodes: Seq::empty() }];
    assert(in_range(v[0], id));
}

/// Read after write: once a contact is inserted into a bucket that keeps it
/// (one with room, or a full one holding the table's own id whose split point
/// is not the contact's id), looking its id up finds the entry that was
/// already there with that id, or else the new contact.
pub proof fn law_find_after_insert(v: Seq<BucketView>, parent: u128, e: RoutingTableEntry)
    requires
        table_wf(v),
        covers(v, e.node_id),
        !full(v[locate(v, e.node_id)]) || (in_range(v[locate(v, e.node_id)], parent)
            && e.node_id != split_point(v[locate(v, e.node_id)])),
    ensures
        covers(inserted(v, parent, e), e.node_id),
        first_with_id(
            inserted(v, parent, e)[locate(inserted(v, parent, e), e.node_id)].nodes,
            e.node_id,
        ) == (if first_with_id(v[locate(v, e.node_id)].nodes, e.node_id) is Some {
            first_with_id(v[locate(v, e.node_id)].nodes, e.node_id)
        } else {
            Some(e)
        }),
{
    lemma_locate(v, e.node_id);
    let id = e.node_id;
    let i = locate(v, id);
    let b = v[i];
    let mid = split_point(b);
    let r = inserted(v, parent, e);
    let expected = if first_with_id(b.nodes, id) is Some {
        first_with_id(b.nodes, id)
    } else {
        Some(e)
    };
    if !full(b) {
        let nb = BucketView { nodes: b.nodes.push(e), ..b };
        assert(r == v.update(i, nb));
        assert(is_first_covering(r, id, i));
        lemma_locate(r, id);
        assert(nb.nodes.drop_last() =~= b.nodes);
    } else {
        let low = BucketView { min: b.min, max: mid, nodes: at_most(b.nodes, mid) };
        let high = BucketView { min: mid, max: b.max, nodes: above(b.nodes, mid) };
        if mid <= id {
            let hb = BucketView { nodes: high.nodes.push(e), ..high };
            assert(r == v.update(i, low).insert(i + 1, hb));
            assert(r[i + 1] == hb);
            assert forall|j: int| 0 <= j < i + 1 implies !in_range(#[trigger] r[j], id) by {
                if j < i {
                    assert(r[j] == v[j]);
                }
            }
            assert(is_first_covering(r, id, i + 1));
            lemma_locate(r, id);
            lemma_first_with_id_filter(b.nodes, |x: RoutingTableEntry| x.node_id > mid, id);
            assert(hb.nodes.drop_last() =~= high.nodes);
        } else {
            let lb = BucketView { nodes: low.nodes.push(e), ..low };
            assert(r == v.update(i, lb));
            assert(is_first_covering(r, id, i));
            lemma_locate(r, id);
            lemma_first_with_id_filter(b.nodes, |x: RoutingTableEntry| x.node_id <= mid, id);
            assert(lb.nodes.drop_last() =~= low.nodes);
        }
    }
}

/// Inserting keeps every id covered that was covered before, unless it
/// splits a full bucket and discards the upper half (the contact's id lies
/// below the split point).
pub proof fn law_insert_keeps_coverage(
    v: Seq<BucketView>,
    parent: u128,
    e: RoutingTableEntry,
    y: u128,
)
    requires
        table_wf(v),
        covers(v, e.node_id),
        covers(v, y),
        !(full(v[locate(v, e.node_id)]) && in_range(v[locate(v, e.node_id)], parent)
            && e.node_id < split_point(v[locate(v, e.node_id)])),
    ensures
        covers(inserted(v, parent, e), y),
{
    lemma_locate(v, e.node_id);
    let i = locate(v, e.node_id);
    let b = v[i];
    let mid = split_point(b);
    let r = inserted(v, parent, e);
    let k = choose|k: int| 0 <= k < v.len() && in_range(v[k], y);
    if full(b) && in_range(b, parent) {
        let low = BucketView { min: b.min, max: mid, nodes: at_most(b.nodes, mid) };
        let high = BucketView { min: mid, max: b.max, nodes: above(b.nodes, mid) };
        let hb = BucketView { nodes: high.nodes.push(e), ..high };
        assert(r == v.update(i, low).insert(i + 1, hb));
        if k < i {
            assert(r[k] == v[k]);
        } else if k > i {
            assert(r[k + 1] == v[k]);
        } else if y <= mid {
            assert(in_range(r[i], y));
        } else {
            assert(in_range(r[i + 1], y));
        }
    } else if !full(b) {
        assert(r[k].min == v[k].min && r[k].max == v[k].max);
        assert(in_range(r[k], y));
    } else {
        assert(in_range(r[k], y));
    }
}

/// Read after remove: once an id is removed, looking it up finds nothing,
/// while looking up any other id finds what it found before; the buckets
/// and their ranges do not move.
pub proof fn law_find_after_remove(v: Seq<BucketView>, id: u128, other: u128)
    requires
        table_wf(v),
        covers(v, other),
    ensures
        covers(removed(v, id), other),
        locate(removed(v, id), other) == locate(v, other),
        first_with_id(removed(v, id)[locate(v, other)].nodes, other) == (if other == id {
            None
        } else {
            first_with_id(v[locate(v, other)].nodes, other)
        }),
{
    lemma_locate(v, other);
    let i = locate(v, other);
    let r = removed(v, id);
    assert(is_first_covering(r, other, i));
    lemma_locate(r, other);
    let s = v[i].nodes;
    if other == id {
        lemma_filter_within(s, |x: RoutingTableEntry| x.node_id != id, 0, u128::MAX);
        lemma_first_with_id(without_id(s, id), other);
    } else {
        lemma_first_with_id_filter(s, |x: RoutingTableEntry| x.node_id != id, other);
    }
}

/// What `find_exact` finds is among what `find_closest` returns for the same
/// id, and carries that id; it finds nothing exactly when no contact there
/// carries it.
pub proof fn law_exact_among_closest(v: Seq<BucketView>, id: u128)
    requires
        covers(v, id),
    ensures
        first_with_id(v[locate(v, id)].nodes, id) matches Some(e) ==> e.node_id == id && v[locate(
            v,
            id,
        )].nodes.contains(e),
        first_with_id(v[locate(v, id)].nodes, id) is None <==> forall|k: int|
            0 <= k < v[locate(v, id)].nodes.len() ==> v[locate(v, id)].nodes[k].node_id != id,
{
    lemma_locate(v, id);
    lemma_first_with_id(v[locate(v, id)].nodes, id);
}

/// The contacts `find_closest` returns for an id all share with it the
/// range of one bucket: the first bucket covering the id.
pub proof fn law_closest_share_bucket(v: Seq<BucketView>, id: u128)
    requires
        table_wf(v),
        covers(v, id),
    ensures
        in_range(v[locate(v, id)], id),
        forall|k: int|
            0 <= k < v[locate(v, id)].nodes.len() ==> in_range(
                v[locate(v, id)],
                #[trigger] v[locate(v, id)].nodes[k].node_id,
            ),
{
    lemma_locate(v, id);
}

/// The buckets tile all ids: they start at 0, end at `u128::MAX`, each
/// starts where the one before ends, and every entry of a bucket after the
/// first lies above that bucket's lower bound (the shared bound belongs to
/// the bucket before).
pub open spec fn tiles(v: Seq<BucketView>) -> bool {
    &&& table_wf(v)
    &&& v.len() > 0
    &&& v[0].min == 0
    &&& v.last().max == u128::MAX
    &&& forall|i: int| 0 < i < v.len() ==> (#[trigger] v[i]).min == v[i - 1].max
    &&& forall|i: int, k: int|
        #![trigger v[i].nodes[k]]
        0 < i < v.len() && 0 <= k < v[i].nodes.len() ==> v[i].nodes[k].node_id > v[i].min
}

/// A fresh table tiles all ids.
pub proof fn law_fresh_table_tiles()
    ensures
        tiles(seq![BucketView { min: 0, max: u128::MAX, nodes: Seq::empty() }]),
{
}

/// When the buckets tile all ids, every id is covered, and every entry sits
/// in the first bucket covering its id (the one lookups search).
pub proof fn law_tiles_cover(v: Seq<BucketView>, id: u128)
    requires
        tiles(v),
    ensures
        covers(v, id),
        forall|i: int, k: int|
            #![trigger v[i].nodes[k]]
            0 <= i < v.len() && 0 <= k < v[i].nodes.len() ==> is_first_covering(
                v,
                v[i].nodes[k].node_id,
                i,
            ),
{
    lemma_tiles_cover_from(v, id, 0);
    assert forall|i: int, k: int|
        #![trigger v[i].nodes[k]]
        0 <= i < v.len() && 0 <= k < v[i].nodes.len() implies is_first_covering(
        v,
        v[i].nodes[k].node_id,
        i,
    ) by {
        let x = v[i].nodes[k].node_id;
        assert(in_range(v[i], x));
        assert forall|j: int| 0 <= j < i implies !in_range(#[trigger] v[j], x) by {
            assert(v[i].min == v[i - 1].max);
            if j < i - 1 {
                assert(v[j].max <= v[i - 1].min);
            }
        }
    }
}

proof fn lemma_tiles_cover_from(v: Seq<BucketView>, id: u128, i: int)
    requires
        tiles(v),
        0 <= i < v.len(),
        v[i].min <= id,
    ensures
        covers(v, id),
    decreases v.len() - i,
{
    if i == v.len() - 1 {
        assert(in_range(v[i], id));
    } else if v[i + 1].min <= id {
        lemma_tiles_cover_from(v, id, i + 1);
    } else {
        assert(v[i + 1].min == v[i].max);
        assert(in_range(v[i], id));
    }
}

/// Inserting keeps the buckets tiling all ids, unless it splits a full
/// bucket and the contact's id is at or below the split point (then the
/// upper half is discarded, or the contact lands above the bound that
/// lookups search for its id).
pub proof fn law_insert_keeps_tiling(v: Seq<BucketView>, parent: u128, e: RoutingTableEntry)
    requires
        tiles(v),
        !(full(v[locate(v, e.node_id)]) && in_range(v[locate(v, e.node_id)], parent)
            && e.node_id <= split_point(v[locate(v, e.node_id)])),
    ensures
        tiles(inserted(v, parent, e)),
{
    law_tiles_cover(v, e.node_id);
    lemma_locate(v, e.node_id);
    lemma_inserted_wf(v, parent, e);
    let i = locate(v, e.node_id);
    let b = v[i];
    if i > 0 {
        assert(!in_range(v[i - 1], e.node_id));
        assert(v[i].min == v[i - 1].max);
    }
    if full(b) && in_range(b, parent) {
        lemma_tiling_split(v, parent, e, i);
    } else if !full(b) {
        lemma_tiling_push(v, parent, e, i);
    }
}

#[verifier::spinoff_prover]
proof fn lemma_tiling_push(v: Seq<BucketView>, parent: u128, e: RoutingTableEntry, i: int)
    requires
        tiles(v),
        table_wf(inserted(v, parent, e)),
        i == locate(v, e.node_id),
        is_first_covering(v, e.node_id, i),
        i > 0 ==> e.node_id > v[i].min,
        !full(v[i]),
    ensures
        tiles(inserted(v, parent, e)),
{
    let b = v[i];
    let r = inserted(v, parent, e);
    let nb = BucketView { nodes: b.nodes.push(e), ..b };
    assert(r == v.update(i, nb));
    assert forall|x: int| 0 < x < r.len() implies (#[trigger] r[x]).min == r[x - 1].max by {
        assert(v[x].min == v[x - 1].max);
    }
    assert forall|x: int, k: int|
        #![trigger r[x].nodes[k]]
        0 < x < r.len() && 0 <= k < r[x].nodes.len() implies r[x].nodes[k].node_id > r[x].min by {
        if x == i {
            if k < b.nodes.len() {
                assert(nb.nodes[k] == b.nodes[k]);
            }
        } else {
            assert(r[x] == v[x]);
        }
    }
    assert(r[0].min == v[0].min);
    assert(r.last().max == v.last().max);
}

#[verifier::spinoff_prover]
proof fn lemma_tiling_split(v: Seq<BucketView>, parent: u128, e: RoutingTableEntry, i: int)
    requires
        tiles(v),
        table_wf(inserted(v, parent, e)),
        i == locate(v, e.node_id),
        is_first_covering(v, e.node_id, i),
        full(v[i]),
        in_range(v[i], parent),
        e.node_id > split_point(v[i]),
    ensures
        tiles(inserted(v, parent, e)),
{
    let b = v[i];
    let mid = split_point(b);
    let r = inserted(v, parent, e);
    let low = BucketView { min: b.min, max: mid, nodes: at_most(b.nodes, mid) };
    let high = BucketView { min: mid, max: b.max, nodes: above(b.nodes, mid) };
    let hb = BucketView { nodes: high.nodes.push(e), ..high };
    assert(r == v.update(i, low).insert(i + 1, hb));
    assert(r.len() == v.len() + 1);
    assert(r[i] == low);
    assert(r[i + 1] == hb);
    assert forall|x: int| 0 <= x < i implies #[trigger] r[x] == v[x] by {}
    assert forall|x: int| i + 1 < x < r.len() implies #[trigger] r[x] == v[x - 1] by {}
    let lo: u128 = if i > 0 { (b.min + 1) as u128 } else { b.min };
    assert forall|k: int| 0 <= k < b.nodes.len() implies lo <= #[trigger] b.nodes[k].node_id
        <= b.max by {
        assert(in_range(v[i], v[i].nodes[k].node_id));
    }
    lemma_filter_within(b.nodes, |x: RoutingTableEntry| x.node_id <= mid, lo, b.max);
    lemma_filter_within(b.nodes, |y: RoutingTableEntry| y.node_id > mid, lo, b.max);
    if i + 1 == r.len() - 1 {
        assert(r.last() == hb);
    } else {
        assert(r.last() == v.last());
    }
    if i > 0 {
        assert(r[0] == v[0]);
    }
    assert forall|x: int| 0 < x < r.len() implies (#[trigger] r[x]).min == r[x - 1].max by {
        if x < i {
            assert(r[x - 1] == v[x - 1]);
        } else if x == i {
            assert(r[x - 1] == v[x - 1]);
        } else if x == i + 2 {
            assert(r[x] == v[i + 1]);
        } else if x > i + 2 {
            assert(r[x - 1] == v[x - 2]);
        }
    }
    assert forall|x: int, k: int|
        #![trigger r[x].nodes[k]]
        0 < x < r.len() && 0 <= k < r[x].nodes.len() implies r[x].nodes[k].node_id > r[x].min by {
        if x == i {
            assert(low.nodes[k] == at_most(b.nodes, mid)[k]);
        } else if x == i + 1 {
            if k < high.nodes.len() {
                assert(hb.nodes[k] == above(b.nodes, mid)[k]);
            }
        } else if x > i + 1 {
            assert(r[x].nodes[k] == v[x - 1].nodes[k]);
        }
    }
}

/// The entries of two runs of buckets are those of the first, then those of the second.
pub proof fn lemma_all_entries_add(a: Seq<BucketView>, b: Seq<BucketView>)
    ensures
        all_entries(a + b) == all_entries(a) + all_entries(b),
    decreases b.len(),
{
    if b.len() == 0 {
        assert(a + b =~= a);
        assert(all_entries(a) + all_entries(b) =~= all_entries(a));
    } else {
        lemma_all_entries_add(a, b.drop_last());
        assert((a + b).drop_last() =~= a + b.drop_last());
        assert((a + b).last() == b.last());
        assert(all_entries(a + b) =~= all_entries(a) + all_entries(b));
    }
}

/// The entries of a single bucket run are that bucket's.
proof fn lemma_all_entries_single(b: BucketView)
    ensures
        all_entries(seq![b]) == b.nodes,
{
    let one = seq![b];
    let e0 = Seq::<BucketView>::empty();
    assert(all_entries(e0) == Seq::<RoutingTableEntry>::empty());
    assert(one.drop_last() =~= e0);
    assert(one.last() == b);
    assert(all_entries(one) =~= b.nodes);
}

/// The entries of a table, as a multiset: those of the buckets before `i`,
/// of bucket `i`, and of the buckets after.
proof fn lemma_entries_around(v: Seq<BucketView>, i: int)
    requires
        0 <= i < v.len(),
    ensures
        all_entries(v).to_multiset() == all_entries(v.take(i)).to_multiset().add(
            v[i].nodes.to_multiset(),
        ).add(all_entries(v.skip(i + 1)).to_multiset()),
{
    broadcast use vstd::seq_lib::lemma_multiset_commutative;
    let one = seq![v[i]];
    assert(v =~= v.take(i) + one + v.skip(i + 1));
    lemma_all_entries_add(v.take(i) + one, v.skip(i + 1));
    lemma_all_entries_add(v.take(i), one);
    lemma_all_entries_single(v[i]);
    vstd::seq_lib::lemma_multiset_commutative(all_entries(v.take(i)) + v[i].nodes, all_entries(v.skip(i + 1)));
    vstd::seq_lib::lemma_multiset_commutative(all_entries(v.take(i)), v[i].nodes);
}

/// Inserting loses no entry and adds none but the contact: the table's
/// entries afterwards are those before plus the contact, or those before
/// when the contact is dropped (its bucket is full and does not hold the
/// table's own id). This fails only when a split discards an upper half
/// that holds entries (the contact's id lies below the split point and some
/// entry of the full bucket lies above it).
pub proof fn law_insert_keeps_entries(v: Seq<BucketView>, parent: u128, e: RoutingTableEntry)
    requires
        table_wf(v),
        covers(v, e.node_id),
        !(full(v[locate(v, e.node_id)]) && in_range(v[locate(v, e.node_id)], parent)
            && e.node_id < split_point(v[locate(v, e.node_id)]) && above(
            v[locate(v, e.node_id)].nodes,
            split_point(v[locate(v, e.node_id)]),
        ).len() > 0),
    ensures
        all_entries(inserted(v, parent, e)).to_multiset() == if full(v[locate(v, e.node_id)])
            && !in_range(v[locate(v, e.node_id)], parent) {
            all_entries(v).to_multiset()
        } else {
            all_entries(v).to_multiset().insert(e)
        },
{
    broadcast use vstd::seq_lib::group_to_multiset_ensures;
    lemma_locate(v, e.node_id);
    let i = locate(v, e.node_id);
    let b = v[i];
    let mid = split_point(b);
    let r = inserted(v, parent, e);
    lemma_entries_around(v, i);
    let before = all_entries(v.take(i)).to_multiset();
    let after = all_entries(v.skip(i + 1)).to_multiset();
    if full(b) && in_range(b, parent) && e.node_id < mid {
        let low = BucketView { min: b.min, max: mid, nodes: at_most(b.nodes, mid) };
        let lb = BucketView { nodes: low.nodes.push(e), ..low };
        assert(r == v.update(i, lb));
        crate::bucket::law_split_partitions(b.nodes, mid);
        assert(above(b.nodes, mid).to_multiset() =~= vstd::multiset::Multiset::empty());
        assert(low.nodes.to_multiset() =~= b.nodes.to_multiset());
        assert(r.take(i) =~= v.take(i));
        assert(r.skip(i + 1) =~= v.skip(i + 1));
        lemma_entries_around(r, i);
        assert(all_entries(r).to_multiset() =~= all_entries(v).to_multiset().insert(e));
    } else if full(b) && in_range(b, parent) {
        let low = BucketView { min: b.min, max: mid, nodes: at_most(b.nodes, mid) };
        let high = BucketView { min: mid, max: b.max, nodes: above(b.nodes, mid) };
        let hb = BucketView { nodes: high.nodes.push(e), ..high };
        assert(r == v.update(i, low).insert(i + 1, hb));
        let two = seq![low, hb];
        assert(r =~= v.take(i) + two + v.skip(i + 1));
        lemma_all_entries_add(v.take(i) + two, v.skip(i + 1));
        lemma_all_entries_add(v.take(i), two);
        assert(two.drop_last() =~= seq![low]);
        assert(two.last() == hb);
        lemma_all_entries_single(low);
        assert(all_entries(two) =~= low.nodes + hb.nodes);
        vstd::seq_lib::lemma_multiset_commutative(all_entries(v.take(i)) + all_entries(two), all_entries(v.skip(i + 1)));
        vstd::seq_lib::lemma_multiset_commutative(all_entries(v.take(i)), all_entries(two));
        vstd::seq_lib::lemma_multiset_commutative(low.nodes, hb.nodes);
        crate::bucket::law_split_partitions(b.nodes, mid);
        assert(all_entries(r).to_multiset() =~= all_entries(v).to_multiset().insert(e));
    } else if !full(b) {
        let nb = BucketView { nodes: b.nodes.push(e), ..b };
        assert(r == v.update(i, nb));
        assert(r.take(i) =~= v.take(i));
        assert(r.skip(i + 1) =~= v.skip(i + 1));
        lemma_entries_around(r, i);
        assert(all_entries(r).to_multiset() =~= all_entries(v).to_multiset().insert(e));
    }
}

/// Inserting keeps every bucket at no more than `BUCKET_SIZE` entries,
/// unless a split leaves every entry of the full bucket on the contact's
/// side (that half then takes a ninth).
pub proof fn law_insert_keeps_bucket_size(v: Seq<BucketView>, parent: u128, e: RoutingTableEntry)
    requires
        covers(v, e.node_id),
        forall|j: int| 0 <= j < v.len() ==> (#[trigger] v[j]).nodes.len() <= BUCKET_SIZE,
        full(v[locate(v, e.node_id)]) && in_range(v[locate(v, e.node_id)], parent) ==> if split_point(
            v[locate(v, e.node_id)],
        ) <= e.node_id {
            above(v[locate(v, e.node_id)].nodes, split_point(v[locate(v, e.node_id)])).len()
                < BUCKET_SIZE
        } else {
            at_most(v[locate(v, e.node_id)].nodes, split_point(v[locate(v, e.node_id)])).len()
                < BUCKET_SIZE
        },
    ensures
        forall|j: int|
            0 <= j < inserted(v, parent, e).len() ==> (#[trigger] inserted(v, parent, e)[j]).nodes.len()
                <= BUCKET_SIZE,
{
    broadcast use vstd::seq_lib::group_filter_ensures;
    lemma_locate(v, e.node_id);
    let i = locate(v, e.node_id);
    let b = v[i];
    let mid = split_point(b);
    let r = inserted(v, parent, e);
    if full(b) && in_range(b, parent) {
        let low = BucketView { min: b.min, max: mid, nodes: at_most(b.nodes, mid) };
        let high = BucketView { min: mid, max: b.max, nodes: above(b.nodes, mid) };
        if mid <= e.node_id {
            let hb = BucketView { nodes: high.nodes.push(e), ..high };
            assert(r == v.update(i, low).insert(i + 1, hb));
            assert forall|j: int| 0 <= j < r.len() implies (#[trigger] r[j]).nodes.len() <= BUCKET_SIZE by {
                if j < i {
                    assert(r[j] == v[j]);
                } else if j > i + 1 {
                    assert(r[j] == v[j - 1]);
                }
            }
        } else {
            let lb = BucketView { nodes: low.nodes.push(e), ..low };
            assert(r == v.update(i, lb));
        }
    } else if !full(b) {
        let nb = BucketView { nodes: b.nodes.push(e), ..b };
        assert(r == v.update(i, nb));
    }
}

} // verus!
