use vstd::prelude::*;
use crate::config::RoutingConfig;
use crate::consts::ID_LEN_BITS;
use crate::id::Id;
use crate::kbucket::after_insert;
use crate::kbucket::after_remove;
use crate::kbucket::lemma_insert_keeps;
use crate::kbucket::lemma_refresh_keeps;
use crate::kbucket::lemma_remove_keeps;
use crate::kbucket::placement;
use crate::kbucket::refreshed;
use crate::kbucket::KBucket;
use crate::sort::sort_by_key;
use crate::sort::stable_sort;
use crate::transport::TransportSender;

verus! {

/// Two to the power `n`.
pub open spec fn pow2(n: nat) -> nat
    decreases n,
{
    if n == 0 {
        1
    } else {
        2 * pow2((n - 1) as nat)
    }
}

/// The primary index of `id` in the table of `own`: the number of leading
/// bits they share, capped so that `split` bits are left to index with.
pub open spec fn entry_index(own: Id, split: int, id: Id) -> int {
    let zeros = own.spec_xor(id).spec_leading_zeros() as int;
    if zeros <= 160 - split {
        zeros
    } else {
        160 - split
    }
}

/// The index of the bucket of `id` within its entry: the `split - 1` bits of
/// the distance that follow the bit at the primary index.
pub open spec fn bucket_index(own: Id, split: int, id: Id) -> int {
    own.spec_xor(id).bits_value(entry_index(own, split, id) + 1, split - 1) as int
}

/// The buckets of one distance class.
pub struct KTreeEntry {
    buckets: Vec<KBucket>,
}

impl KTreeEntry {
    /// The buckets of the entry, in order.
    pub closed spec fn buckets(&self) -> Seq<KBucket> {
        self.buckets@
    }

    /// The identifiers routed through the first `upto` buckets, bucket
    /// after bucket.
    pub open spec fn ids_upto(&self, upto: int) -> Seq<Id>
        decreases upto,
    {
        if upto <= 0 {
            Seq::empty()
        } else {
            self.ids_upto(upto - 1) + self.buckets()[upto - 1].entries@
        }
    }

    /// The identifiers routed through the entry, bucket after bucket.
    pub open spec fn ids(&self) -> Seq<Id> {
        self.ids_upto(self.buckets().len() as int)
    }

    /// The number of identifiers in the entry, replacements included.
    pub open spec fn total(&self) -> nat {
        buckets_total(self.buckets())
    }

    /// An entry of empty buckets: two to the power `buckets_per_bit - 1` of
    /// them.
    pub fn new(config: &RoutingConfig) -> (r: KTreeEntry)
        requires
            config.valid(),
        ensures
            r.buckets().len() == pow2((config.buckets_per_bit - 1) as nat),
            forall|j: int|
                0 <= j < r.buckets().len() ==> (#[trigger] r.buckets()[j]).entries@.len() == 0
                    && r.buckets()[j].replacement_cache@.len() == 0,
    {
        let mut buckets: Vec<KBucket> = Vec::new();
        buckets.push(KBucket::new());
        let mut i: usize = 1;
        while i < config.buckets_per_bit
            invariant
                1 <= i <= config.buckets_per_bit <= 9,
                buckets@.len() == pow2((i - 1) as nat),
                buckets@.len() <= 256,
                forall|j: int|
                    0 <= j < buckets@.len() ==> (#[trigger] buckets@[j]).entries@.len() == 0
                        && buckets@[j].replacement_cache@.len() == 0,
            decreases config.buckets_per_bit - i,
        {
            let half: usize = buckets.len();
            let mut j: usize = 0;
            while j < half
                invariant
                    j <= half,
                    half <= 256,
                    buckets@.len() == half + j,
                    forall|w: int|
                        0 <= w < buckets@.len() ==> (#[trigger] buckets@[w]).entries@.len() == 0
                            && buckets@[w].replacement_cache@.len() == 0,
                decreases half - j,
            {
                buckets.push(KBucket::new());
                j += 1;
            }
            proof {
                lemma_pow2_bounds((i - 1) as nat);
                lemma_pow2_bounds(i as nat);
            }
            i += 1;
        }
        KTreeEntry { buckets }
    }
}

/// Powers of two up to the ninth.
pub proof fn lemma_pow2_bounds(n: nat)
    ensures
        pow2(n) >= 1,
        n <= 8 ==> pow2(n) <= 256,
        n < 8 ==> pow2(n) <= 128,
    decreases n,
{
    if n > 0 {
        lemma_pow2_bounds((n - 1) as nat);
    }
    if n <= 8 {
        reveal_with_fuel(pow2, 10);
    }
}

/// The number of identifiers in a run of buckets, replacements included.
pub open spec fn buckets_total(buckets: Seq<KBucket>) -> nat
    decreases buckets.len(),
{
    if buckets.len() == 0 {
        0
    } else {
        buckets_total(buckets.drop_last()) + buckets.last().entries@.len()
            + buckets.last().replacement_cache@.len()
    }
}

/// The number of identifiers in a run of entries, replacements included.
pub open spec fn entries_total(entries: Seq<KTreeEntry>) -> nat
    decreases entries.len(),
{
    if entries.len() == 0 {
        0
    } else {
        entries_total(entries.drop_last()) + entries.last().total()
    }
}

/// Replacing one bucket changes the number of identifiers in a run of
/// buckets by the difference between the two.
pub proof fn lemma_buckets_total_replace(before: Seq<KBucket>, after: Seq<KBucket>, j: int)
    requires
        before.len() == after.len(),
        0 <= j < before.len(),
        forall|w: int| 0 <= w < before.len() && w != j ==> before[w] == after[w],
    ensures
        buckets_total(after) + before[j].entries@.len() + before[j].replacement_cache@.len()
            == buckets_total(before) + after[j].entries@.len() + after[j].replacement_cache@.len(),
    decreases before.len(),
{
    if j == before.len() - 1 {
        assert(before.drop_last() =~= after.drop_last());
    } else {
        lemma_buckets_total_replace(before.drop_last(), after.drop_last(), j);
    }
}

/// Replacing one entry changes the number of identifiers in a run of
/// entries by the difference between the two.
pub proof fn lemma_entries_total_replace(before: Seq<KTreeEntry>, after: Seq<KTreeEntry>, e: int)
    requires
        before.len() == after.len(),
        0 <= e < before.len(),
        forall|w: int| 0 <= w < before.len() && w != e ==> before[w] == after[w],
    ensures
        entries_total(after) + before[e].total() == entries_total(before) + after[e].total(),
    decreases before.len(),
{
    if e == before.len() - 1 {
        assert(before.drop_last() =~= after.drop_last());
    } else {
        lemma_entries_total_replace(before.drop_last(), after.drop_last(), e);
    }
}

proof fn lemma_empty_buckets_total(buckets: Seq<KBucket>)
    requires
        forall|j: int|
            0 <= j < buckets.len() ==> (#[trigger] buckets[j]).entries@.len() == 0
                && buckets[j].replacement_cache@.len() == 0,
    ensures
        buckets_total(buckets) == 0,
    decreases buckets.len(),
{
    if buckets.len() > 0 {
        lemma_empty_buckets_total(buckets.drop_last());
    }
}

/// A run of `len` bits denotes a number below two to the power `len`.
pub proof fn lemma_bits_value_bound(id: Id, index: int, len: int)
    requires
        0 <= len,
    ensures
        id.bits_value(index, len) < pow2(len as nat),
    decreases len,
{
    if len > 0 {
        lemma_bits_value_bound(id, index, len - 1);
    }
}

/// The routing table of one node: for each number of leading bits that an
/// identifier can share with the node's own, the buckets of the
/// identifiers that share so many.
pub struct KTree {
    id: Id,
    config: RoutingConfig,
    nodes: Vec<KTreeEntry>,
    size: u64,
}

impl KTree {
    /// The identifier of the node that owns the table.
    pub closed spec fn own_id(&self) -> Id {
        self.id
    }

    /// The settings that the table was built with.
    pub closed spec fn config(&self) -> RoutingConfig {
        self.config
    }

    /// The number of identifiers in the table, replacements included.
    pub closed spec fn count(&self) -> nat {
        self.size as nat
    }

    /// The entries of the table, by primary index.
    pub closed spec fn nodes(&self) -> Seq<KTreeEntry> {
        self.nodes@
    }

    /// The identifiers routed through bucket `j` of entry `e`, least
    /// recently seen first.
    pub open spec fn routed(&self, e: int, j: int) -> Seq<Id> {
        self.nodes()[e].buckets()[j].entries@
    }

    /// The replacements of bucket `j` of entry `e`, oldest first.
    pub open spec fn cached(&self, e: int, j: int) -> Seq<Id> {
        self.nodes()[e].buckets()[j].replacement_cache@
    }

    /// The number of bits by which a distance class is split into buckets.
    pub open spec fn split(&self) -> int {
        self.config().buckets_per_bit as int
    }

    /// The number of buckets of each entry.
    pub open spec fn width(&self) -> int {
        pow2((self.split() - 1) as nat) as int
    }

    /// The largest number of identifiers that the table takes.
    pub open spec fn capacity(&self) -> nat {
        match self.config().max_routing_count {
            Some(max) => max as nat,
            None => u64::MAX as nat,
        }
    }

    /// Primary index and bucket index of the bucket that `id` belongs to.
    pub open spec fn slot(&self, id: Id) -> (int, int) {
        (entry_index(self.own_id(), self.split(), id), bucket_index(self.own_id(), self.split(), id))
    }

    /// Whether `id` is in the table, routed through or kept as a replacement.
    pub open spec fn contains(&self, id: Id) -> bool {
        let (e, j) = self.slot(id);
        self.routed(e, j).contains(id) || self.cached(e, j).contains(id)
    }

    /// The table has one entry for each bit, each entry its buckets, each
    /// bucket distinct identifiers within the limits of the settings; every
    /// identifier stands in the bucket that it belongs to, the node's own
    /// identifier nowhere; and the count is the number of identifiers.
    pub open spec fn wf(&self) -> bool {
        &&& self.config().valid()
        &&& self.nodes().len() == 160
        &&& forall|e: int| 0 <= e < 160 ==> (#[trigger] self.nodes()[e]).buckets().len() == self.width()
        &&& forall|e: int, j: int|
            0 <= e < 160 && 0 <= j < self.width() ==> (#[trigger] self.nodes()[e].buckets()[j]).wf()
                && self.nodes()[e].buckets()[j].fits(&self.config())
        &&& forall|e: int, j: int, id: Id|
            0 <= e < 160 && 0 <= j < self.width() && #[trigger] self.nodes()[e].buckets()[j].spec_has(id)
                ==> id != self.own_id() && self.slot(id) == (e, j)
        &&& self.count() == entries_total(self.nodes())
        &&& self.count() <= self.capacity()
    }

    /// An empty table for the node `id`.
    pub fn new(id: Id, config: RoutingConfig) -> (r: KTree)
        requires
            config.valid(),
        ensures
            r.wf(),
            r.own_id() == id,
            r.config() == config,
            r.count() == 0,
            forall|e: int, j: int|
                0 <= e < 160 && 0 <= j < r.width() ==> r.routed(e, j).len() == 0 && r.cached(e, j).len()
                    == 0,
    {
        let mut nodes: Vec<KTreeEntry> = Vec::new();
        let mut i: usize = 0;
        while i < ID_LEN_BITS
            invariant
                i <= 160,
                config.valid(),
                nodes@.len() == i,
                entries_total(nodes@) == 0,
                forall|e: int|
                    0 <= e < i ==> (#[trigger] nodes@[e]).buckets().len() == pow2(
                        (config.buckets_per_bit - 1) as nat,
                    ),
                forall|e: int, j: int|
                    0 <= e < i && 0 <= j < nodes@[e].buckets().len() ==> (
                    #[trigger] nodes@[e].buckets()[j]).entries@.len() == 0
                        && nodes@[e].buckets()[j].replacement_cache@.len() == 0,
            decreases 160 - i,
        {
            let entry = KTreeEntry::new(&config);
            proof {
                lemma_empty_buckets_total(entry.buckets());
                assert(nodes@.push(entry).drop_last() =~= nodes@);
            }
            nodes.push(entry);
            i += 1;
        }
        let r = KTree { id, config, nodes, size: 0 };
        proof {
            assert forall|e: int, j: int, x: Id|
                0 <= e < 160 && 0 <= j < r.width() && #[trigger] r.nodes()[e].buckets()[j].spec_has(
                    x,
                ) implies x != r.own_id() && r.slot(x) == (e, j) by {
                assert(r.nodes()[e].buckets()[j].entries@.len() == 0);
                assert(r.nodes()[e].buckets()[j].replacement_cache@.len() == 0);
            }
            assert forall|e: int, j: int| 0 <= e < 160 && 0 <= j < r.width() implies (
            #[trigger] r.nodes()[e].buckets()[j]).wf() && r.nodes()[e].buckets()[j].fits(
                &r.config(),
            ) by {
                assert(r.nodes()[e].buckets()[j].entries@.len() == 0);
                assert(r.nodes()[e].buckets()[j].replacement_cache@.len() == 0);
            }
        }
        r
    }

    /// Primary index and bucket index of the bucket that `id` belongs to.
    pub fn get_bucket_index(&self, id: Id) -> (r: (usize, usize))
        requires
            self.wf(),
        ensures
            (r.0 as int, r.1 as int) == self.slot(id),
            r.0 < 160,
            r.1 < self.width(),
    {
        let nid = self.id ^ id;
        let zeros: u8 = nid.leading_zeros();
        let cap: u8 = (ID_LEN_BITS - self.config.buckets_per_bit) as u8;
        let entryi: u8 = if zeros <= cap {
            zeros
        } else {
            cap
        };
        proof {
            lemma_bits_value_bound(nid, entryi + 1, self.config.buckets_per_bit - 1);
            lemma_pow2_bounds((self.config.buckets_per_bit - 1) as nat);
        }
        let bucketi: usize = if self.config.buckets_per_bit == 1 {
            0
        } else {
            nid.bitslice(entryi as u32 + 1, (self.config.buckets_per_bit - 1) as u8) as usize
        };
        (entryi as usize, bucketi)
    }

    /// The bucket that `id` belongs to.
    pub fn get_bucket(&self, id: Id) -> (r: &KBucket)
        requires
            self.wf(),
        ensures
            r.entries@ == self.routed(self.slot(id).0, self.slot(id).1),
            r.replacement_cache@ == self.cached(self.slot(id).0, self.slot(id).1),
    {
        let index = self.get_bucket_index(id);
        &self.nodes[index.0].buckets[index.1]
    }

    /// Whether `id` is in the table, routed through or kept as a replacement.
    pub fn has(&self, id: Id) -> (r: bool)
        requires
            self.wf(),
        ensures
            r == self.contains(id),
    {
        self.get_bucket(id).has(id)
    }
}

impl KTree {
    /// Every bucket but the one at `(e, j)` is the same in both tables, and so
    /// are the owner and the settings.
    pub open spec fn same_but(&self, other: &KTree, e: int, j: int) -> bool {
        &&& self.own_id() == other.own_id()
        &&& self.config() == other.config()
        &&& forall|e2: int, j2: int|
            0 <= e2 < 160 && 0 <= j2 < self.width() && (e2, j2) != (e, j) ==> self.routed(e2, j2)
                == other.routed(e2, j2) && self.cached(e2, j2) == other.cached(e2, j2)
    }

    proof fn lemma_frame(before: &KTree, after: &KTree, e: int, j: int)
        requires
            before.wf(),
            0 <= e < 160,
            0 <= j < before.width(),
            after.own_id() == before.own_id(),
            after.config() == before.config(),
            after.nodes().len() == 160,
            forall|w: int| 0 <= w < 160 && w != e ==> after.nodes()[w] == before.nodes()[w],
            after.nodes()[e].buckets().len() == before.width(),
            forall|w: int|
                0 <= w < before.width() && w != j ==> after.nodes()[e].buckets()[w]
                    == before.nodes()[e].buckets()[w],
            after.nodes()[e].buckets()[j].wf(),
            after.nodes()[e].buckets()[j].fits(&after.config()),
            forall|x: Id| #[trigger]
                after.nodes()[e].buckets()[j].spec_has(x) ==> before.nodes()[e].buckets()[j].spec_has(
                    x,
                ) || (x != before.own_id() && before.slot(x) == (e, j)),
            after.count() + before.routed(e, j).len() + before.cached(e, j).len() == before.count()
                + after.routed(e, j).len() + after.cached(e, j).len(),
            after.count() <= after.capacity(),
        ensures
            after.wf(),
            after.same_but(before, e, j),
    {
        lemma_buckets_total_replace(before.nodes()[e].buckets(), after.nodes()[e].buckets(), j);
        lemma_entries_total_replace(before.nodes(), after.nodes(), e);
        assert forall|e2: int, j2: int| 0 <= e2 < 160 && 0 <= j2 < after.width() implies (
        #[trigger] after.nodes()[e2].buckets()[j2]).wf() && after.nodes()[e2].buckets()[j2].fits(
            &after.config(),
        ) by {
            if (e2, j2) != (e, j) {
                assert(after.nodes()[e2].buckets()[j2] == before.nodes()[e2].buckets()[j2]);
            }
        }
        assert forall|e2: int, j2: int, x: Id|
            0 <= e2 < 160 && 0 <= j2 < after.width() && #[trigger] after.nodes()[e2].buckets()[j2].spec_has(
                x,
            ) implies x != after.own_id() && after.slot(x) == (e2, j2) by {
            if (e2, j2) != (e, j) {
                assert(after.nodes()[e2].buckets()[j2] == before.nodes()[e2].buckets()[j2]);
                assert(before.nodes()[e2].buckets()[j2].spec_has(x));
            } else if before.nodes()[e].buckets()[j].spec_has(x) {
            }
        }
        assert forall|e2: int| 0 <= e2 < 160 implies (#[trigger] after.nodes()[e2]).buckets().len()
            == after.width() by {
            if e2 != e {
                assert(after.nodes()[e2] == before.nodes()[e2]);
            }
        }
        assert forall|e2: int, j2: int|
            0 <= e2 < 160 && 0 <= j2 < after.width() && (e2, j2) != (e, j) implies after.routed(e2, j2)
            == before.routed(e2, j2) && after.cached(e2, j2) == before.cached(e2, j2) by {
            assert(after.nodes()[e2].buckets()[j2] == before.nodes()[e2].buckets()[j2]);
        }
    }

    /// Offers `id` to the table. The node's own identifier and, in a table
    /// that is full, any identifier are turned away; another goes to the
    /// bucket it belongs to, whose entries are pinged if it becomes a
    /// replacement. Returns whether `id` joined the table.
    pub fn insert<T: TransportSender>(&mut self, id: Id, contacter: &T) -> (r: bool)
        requires
            old(self).wf(),
        ensures
            final(self).wf(),
            final(self).same_but(old(self), old(self).slot(id).0, old(self).slot(id).1),
            ({
                let (e, j) = old(self).slot(id);
                let open = id != old(self).own_id() && old(self).count() < old(self).capacity();
                let k = old(self).config().bucket_size as int;
                let c = old(self).config().bucket_replacement_size as int;
                let p = placement(old(self).routed(e, j), old(self).cached(e, j), id, k, c);
                &&& r == (open && (p is Routed || p is Cached))
                &&& (final(self).routed(e, j), final(self).cached(e, j)) == if open {
                    after_insert(old(self).routed(e, j), old(self).cached(e, j), id, k, c)
                } else {
                    (old(self).routed(e, j), old(self).cached(e, j))
                }
                &&& final(self).count() == old(self).count() + if r {
                    1nat
                } else {
                    0nat
                }
            }),
    {
        let index = self.get_bucket_index(id);
        if id == self.id {
            return false;
        }
        let limit: u64 = match self.config.max_routing_count {
            Some(max) => max,
            None => u64::MAX,
        };
        if self.size >= limit {
            return false;
        }
        let inserted = self.nodes[index.0].buckets[index.1].insert(id, &self.config, contacter);
        if inserted {
            self.size += 1;
        }
        proof {
            let e = index.0 as int;
            let j = index.1 as int;
            let k = old(self).config().bucket_size as int;
            let c = old(self).config().bucket_replacement_size as int;
            lemma_insert_keeps(old(self).routed(e, j), old(self).cached(e, j), id, k, c);
            assert forall|x: Id| #[trigger]
                self.nodes()[e].buckets()[j].spec_has(x) implies old(self).nodes()[e].buckets()[j].spec_has(
                x,
            ) || (x != old(self).own_id() && old(self).slot(x) == (e, j)) by {
                let oe = old(self).routed(e, j);
                let oc = old(self).cached(e, j);
                if self.routed(e, j).contains(x) {
                    let w = choose|w: int| 0 <= w < self.routed(e, j).len() && self.routed(e, j)[w] == x;
                    if w < oe.len() {
                        assert(oe[w] == x);
                    }
                } else {
                    let w = choose|w: int| 0 <= w < self.cached(e, j).len() && self.cached(e, j)[w] == x;
                    if w < oc.len() {
                        assert(oc[w] == x);
                    }
                }
            }
            KTree::lemma_frame(old(self), self, e, j);
        }
        inserted
    }

    /// Takes `id` out of the table. Returns whether it was in it.
    pub fn remove(&mut self, id: Id) -> (r: bool)
        requires
            old(self).wf(),
        ensures
            final(self).wf(),
            final(self).same_but(old(self), old(self).slot(id).0, old(self).slot(id).1),
            r == old(self).contains(id),
            !final(self).contains(id),
            ({
                let (e, j) = old(self).slot(id);
                (final(self).routed(e, j), final(self).cached(e, j)) == after_remove(
                    old(self).routed(e, j),
                    old(self).cached(e, j),
                    id,
                )
            }),
            final(self).count() == old(self).count() - if r {
                1nat
            } else {
                0nat
            },
    {
        let index = self.get_bucket_index(id);
        let removed = self.nodes[index.0].buckets[index.1].remove(id);
        proof {
            let e = index.0 as int;
            let j = index.1 as int;
            let oe = old(self).routed(e, j);
            let oc = old(self).cached(e, j);
            lemma_remove_keeps(oe, oc, id);
            crate::kbucket::lemma_position_bounds(oe, id);
            crate::kbucket::lemma_position_bounds(oc, id);
            assert(old(self).nodes()[e].buckets()[j].wf());
            assert(entries_total(old(self).nodes()) >= old(self).nodes()[e].total()) by {
                lemma_entries_total_at_least(old(self).nodes(), e);
            }
            assert(old(self).nodes()[e].total() >= oe.len() + oc.len()) by {
                lemma_buckets_total_at_least(old(self).nodes()[e].buckets(), j);
            }
        }
        if removed {
            self.size -= 1;
        }
        proof {
            let e = index.0 as int;
            let j = index.1 as int;
            let oe = old(self).routed(e, j);
            let oc = old(self).cached(e, j);
            assert forall|x: Id| #[trigger]
                self.nodes()[e].buckets()[j].spec_has(x) implies old(self).nodes()[e].buckets()[j].spec_has(
                x,
            ) by {
                let ne = self.routed(e, j);
                let nc = self.cached(e, j);
                if ne.contains(x) {
                    let w = choose|w: int| 0 <= w < ne.len() && ne[w] == x;
                    assert((ne + nc)[w] == x);
                } else {
                    let w = choose|w: int| 0 <= w < nc.len() && nc[w] == x;
                    assert((ne + nc)[ne.len() + w] == x);
                }
                assert((ne, nc) == after_remove(oe, oc, id));
                assert(ne + nc == after_remove(oe, oc, id).0 + after_remove(oe, oc, id).1);
                assert((ne + nc).contains(x));
                assert((oe + oc).contains(x));
                let v = choose|v: int| 0 <= v < (oe + oc).len() && (oe + oc)[v] == x;
                if v < oe.len() {
                    assert(oe[v] == x);
                } else {
                    assert(oc[v - oe.len()] == x);
                }
            }
            KTree::lemma_frame(old(self), self, e, j);
            if self.contains(id) {
                let ne = self.routed(e, j);
                let nc = self.cached(e, j);
                if ne.contains(id) {
                    let w = choose|w: int| 0 <= w < ne.len() && ne[w] == id;
                    assert((ne + nc)[w] == id);
                } else {
                    let w = choose|w: int| 0 <= w < nc.len() && nc[w] == id;
                    assert((ne + nc)[ne.len() + w] == id);
                }
            }
        }
        removed
    }

    /// Notes that `id` was seen: if it is routed through it becomes the most
    /// recently seen of its bucket. Returns whether it is routed through.
    pub fn refresh(&mut self, id: Id) -> (r: bool)
        requires
            old(self).wf(),
        ensures
            final(self).wf(),
            final(self).same_but(old(self), old(self).slot(id).0, old(self).slot(id).1),
            ({
                let (e, j) = old(self).slot(id);
                &&& r == old(self).routed(e, j).contains(id)
                &&& final(self).routed(e, j) == refreshed(old(self).routed(e, j), id)
                &&& final(self).cached(e, j) == old(self).cached(e, j)
            }),
            final(self).count() == old(self).count(),
    {
        let index = self.get_bucket_index(id);
        let found = self.nodes[index.0].buckets[index.1].refresh_node(id);
        proof {
            let e = index.0 as int;
            let j = index.1 as int;
            lemma_refresh_keeps(old(self).routed(e, j), old(self).cached(e, j), id);
            KTree::lemma_frame(old(self), self, e, j);
        }
        found
    }
}

proof fn lemma_buckets_total_at_least(buckets: Seq<KBucket>, j: int)
    requires
        0 <= j < buckets.len(),
    ensures
        buckets_total(buckets) >= buckets[j].entries@.len() + buckets[j].replacement_cache@.len(),
    decreases buckets.len(),
{
    if j < buckets.len() - 1 {
        lemma_buckets_total_at_least(buckets.drop_last(), j);
    }
}

proof fn lemma_entries_total_at_least(entries: Seq<KTreeEntry>, e: int)
    requires
        0 <= e < entries.len(),
    ensures
        entries_total(entries) >= entries[e].total(),
    decreases entries.len(),
{
    if e < entries.len() - 1 {
        lemma_entries_total_at_least(entries.drop_last(), e);
    }
}

/// The `n` identifiers of `s` closest to `target`, closest first; all of
/// `s` in that order if it holds no more than `n`.
pub open spec fn closest(s: Seq<Id>, target: Id, n: int) -> Seq<Id> {
    let ordered = stable_sort(s, |x: Id| target.distance(x) as int);
    if n < ordered.len() {
        ordered.take(n)
    } else {
        ordered
    }
}

/// Gathers identifiers for a lookup of the closest ones.
pub struct NodeAggregator {
    nodes: Vec<Id>,
    limit: usize,
}

impl NodeAggregator {
    /// The identifiers gathered so far, in the order they came.
    pub closed spec fn gathered(&self) -> Seq<Id> {
        self.nodes@
    }

    /// The number of identifiers wanted.
    pub closed spec fn limit(&self) -> usize {
        self.limit
    }

    /// An aggregator that wants `limit` identifiers and has none.
    pub fn new(limit: usize) -> (r: NodeAggregator)
        ensures
            r.gathered() == Seq::<Id>::empty(),
            r.limit() == limit,
    {
        NodeAggregator { nodes: Vec::new(), limit }
    }

    /// Whether as many identifiers as wanted were gathered.
    pub fn is_done(&self) -> (r: bool)
        ensures
            r == (self.gathered().len() >= self.limit()),
    {
        self.nodes.len() >= self.limit
    }

    /// Adds the identifiers routed through `bucket`.
    pub fn add_bucket(&mut self, bucket: &KBucket)
        ensures
            final(self).gathered() == old(self).gathered() + bucket.entries@,
            final(self).limit() == old(self).limit(),
    {
        let mut i: usize = 0;
        while i < bucket.entries.len()
            invariant
                i <= bucket.entries@.len(),
                self.nodes@ == old(self).nodes@ + bucket.entries@.take(i as int),
                self.limit == old(self).limit,
            decreases bucket.entries@.len() - i,
        {
            self.nodes.push(bucket.entries[i]);
            proof {
                assert(bucket.entries@.take(i + 1) =~= bucket.entries@.take(i as int).push(
                    bucket.entries@[i as int],
                ));
                assert(self.nodes@ =~= old(self).nodes@ + bucket.entries@.take(i + 1));
            }
            i += 1;
        }
        proof {
            assert(bucket.entries@.take(i as int) =~= bucket.entries@);
        }
    }

    /// Adds the identifiers routed through `entry`, bucket after bucket.
    pub fn add_entry(&mut self, entry: &KTreeEntry)
        ensures
            final(self).gathered() == old(self).gathered() + entry.ids(),
            final(self).limit() == old(self).limit(),
    {
        let mut j: usize = 0;
        while j < entry.buckets.len()
            invariant
                j <= entry.buckets@.len(),
                self.gathered() == old(self).gathered() + entry.ids_upto(j as int),
                self.limit() == old(self).limit(),
            decreases entry.buckets@.len() - j,
        {
            self.add_bucket(&entry.buckets[j]);
            proof {
                assert(self.gathered() =~= old(self).gathered() + entry.ids_upto(j + 1));
            }
            j += 1;
        }
    }

    /// The gathered identifiers closest to `closer_to`, closest first, as
    /// many as wanted.
    pub fn finish(self, closer_to: Id) -> (r: Vec<Id>)
        ensures
            r@ == closest(self.gathered(), closer_to, self.limit() as int),
    {
        let limit = self.limit;
        let leq = |a: &Id, b: &Id| -> (le: bool)
            ensures
                le == (closer_to.distance(*a) <= closer_to.distance(*b)),
            { !closer_to.closer(b, a) };
        let mut ordered = sort_by_key(
            self.nodes,
            leq,
            Ghost(|x: Id| closer_to.distance(x) as int),
        );
        proof {
            crate::sort::lemma_stable_sort(self.gathered(), |x: Id| closer_to.distance(x) as int);
        }
        ordered.truncate(limit);
        ordered
    }
}

impl KTree {
    /// The identifiers routed through the first `upto` buckets of entry `e`
    /// but for bucket `skip`, bucket after bucket.
    pub open spec fn siblings(&self, e: int, skip: int, upto: int) -> Seq<Id>
        decreases upto,
    {
        if upto <= 0 {
            Seq::empty()
        } else if upto - 1 == skip {
            self.siblings(e, skip, upto - 1)
        } else {
            self.siblings(e, skip, upto - 1) + self.routed(e, upto - 1)
        }
    }

    /// What a lookup for `n` identifiers has gathered once it has added to
    /// `acc` the entries from `e` down to the first, stopping as soon as it
    /// has enough.
    pub open spec fn gather_left(&self, e: int, acc: Seq<Id>, n: int) -> Seq<Id>
        decreases e + 1,
    {
        if e < 0 {
            acc
        } else {
            let next = acc + self.nodes()[e].ids();
            if next.len() >= n {
                next
            } else {
                self.gather_left(e - 1, next, n)
            }
        }
    }

    /// What a lookup for `n` identifiers around entry `first` has gathered
    /// once it has added to `acc` the entries from `e` up to the last. When
    /// it has enough it adds the entry before `first` and stops; when the
    /// entries run out it goes on below `first`.
    pub open spec fn gather_right(&self, e: int, acc: Seq<Id>, first: int, n: int) -> Seq<Id>
        decreases 160 - e,
    {
        if e >= 160 {
            self.gather_left(first - 1, acc, n)
        } else {
            let next = acc + self.nodes()[e].ids();
            if next.len() >= n {
                if first != 0 {
                    next + self.nodes()[first - 1].ids()
                } else {
                    next
                }
            } else {
                self.gather_right(e + 1, next, first, n)
            }
        }
    }

    /// The identifiers that a lookup for the `n` closest to `target`
    /// gathers: those of the bucket that `target` belongs to; if they are
    /// too few, those of the other buckets of its entry; if they are still
    /// too few, those of the entries behind it and then before it.
    pub open spec fn gather(&self, target: Id, n: int) -> Seq<Id> {
        let (e, j) = self.slot(target);
        let own = self.routed(e, j);
        if own.len() >= n {
            own
        } else {
            let all = own + self.siblings(e, j, self.width());
            if all.len() >= n {
                all
            } else {
                self.gather_right(e + 1, all, e, n)
            }
        }
    }

    /// The routed identifiers that a walk through the table from the
    /// bucket of `closer_to` gathers, cut down to the `size` closest to
    /// `closer_to`, closest first.
    pub fn get_closer_n(&self, closer_to: Id, size: usize) -> (r: Vec<Id>)
        requires
            self.wf(),
        ensures
            r@ == closest(self.gather(closer_to, size as int), closer_to, size as int),
    {
        let mut res = NodeAggregator::new(size);
        let index = self.get_bucket_index(closer_to);
        let fentry = &self.nodes[index.0];
        res.add_bucket(&fentry.buckets[index.1]);
        proof {
            assert(res.gathered() =~= self.routed(index.0 as int, index.1 as int));
        }
        if res.is_done() {
            return res.finish(closer_to);
        }
        let ghost own = res.gathered();
        let mut j: usize = 0;
        while j < fentry.buckets.len()
            invariant
                j <= fentry.buckets@.len(),
                fentry.buckets@.len() == self.width(),
                *fentry == self.nodes()[index.0 as int],
                index.0 < 160,
                res.limit() == size,
                res.gathered() == own + self.siblings(index.0 as int, index.1 as int, j as int),
            decreases fentry.buckets@.len() - j,
        {
            if j != index.1 {
                res.add_bucket(&fentry.buckets[j]);
            }
            proof {
                assert(res.gathered() =~= own + self.siblings(
                    index.0 as int,
                    index.1 as int,
                    j + 1,
                ));
            }
            j += 1;
        }
        if res.is_done() {
            return res.finish(closer_to);
        }
        let mut e: usize = index.0 + 1;
        while e < ID_LEN_BITS
            invariant
                index.0 < e <= 160,
                self.wf(),
                res.limit() == size,
                res.gathered().len() < size,
                self.gather(closer_to, size as int) == self.gather_right(
                    e as int,
                    res.gathered(),
                    index.0 as int,
                    size as int,
                ),
            decreases 160 - e,
        {
            res.add_entry(&self.nodes[e]);
            if res.is_done() {
                if index.0 != 0 {
                    res.add_entry(&self.nodes[index.0 - 1]);
                }
                return res.finish(closer_to);
            }
            e += 1;
        }
        let mut e: usize = index.0;
        while e > 0
            invariant
                e <= index.0 < 160,
                self.wf(),
                res.limit() == size,
                res.gathered().len() < size,
                self.gather(closer_to, size as int) == self.gather_left(
                    e - 1,
                    res.gathered(),
                    size as int,
                ),
            decreases e,
        {
            e -= 1;
            res.add_entry(&self.nodes[e]);
            if res.is_done() {
                return res.finish(closer_to);
            }
        }
        res.finish(closer_to)
    }
}

/// What `closest` gives: as many identifiers of `s` as asked for, or all
/// of them; in ascending distance from the target; and none of those it
/// leaves out is closer than any of those it gives.
pub proof fn lemma_closest(s: Seq<Id>, target: Id, n: int)
    requires
        0 <= n,
    ensures
        closest(s, target, n).len() == if n < s.len() {
            n
        } else {
            s.len() as int
        },
        forall|i: int, j: int|
            0 <= i < j < closest(s, target, n).len() ==> target.distance(closest(s, target, n)[i])
                <= target.distance(closest(s, target, n)[j]),
        forall|i: int|
            0 <= i < closest(s, target, n).len() ==> s.contains(#[trigger] closest(s, target, n)[i]),
        forall|x: Id, i: int|
            #![trigger s.contains(x), closest(s, target, n)[i]]
            s.contains(x) && !closest(s, target, n).contains(x) && 0 <= i < closest(
                s,
                target,
                n,
            ).len() ==> target.distance(closest(s, target, n)[i]) <= target.distance(x),
{
    let key = |x: Id| target.distance(x) as int;
    let ordered = stable_sort(s, key);
    let r = closest(s, target, n);
    crate::sort::lemma_stable_sort(s, key);
    assert forall|i: int, j: int| 0 <= i < j < r.len() implies target.distance(r[i])
        <= target.distance(r[j]) by {
        assert(key(ordered[i]) <= key(ordered[j]));
    }
    assert forall|i: int| 0 <= i < r.len() implies s.contains(#[trigger] r[i]) by {
        assert(ordered.contains(ordered[i]));
    }
    assert forall|x: Id, i: int|
        #![trigger s.contains(x), r[i]]
        s.contains(x) && !r.contains(x) && 0 <= i < r.len() implies target.distance(r[i])
        <= target.distance(x) by {
        assert(ordered.contains(x));
        let w = choose|w: int| 0 <= w < ordered.len() && ordered[w] == x;
        if w < r.len() {
            assert(r[w] == x);
        } else {
            assert(key(ordered[i]) <= key(ordered[w]));
        }
    }
}

impl KTree {
    /// Whether the table routes through `id`.
    pub open spec fn routes(&self, id: Id) -> bool {
        self.routed(self.slot(id).0, self.slot(id).1).contains(id)
    }

    /// A lookup returns the identifiers closest to the target among all
    /// that the table routes through, provided that the walk left out none
    /// that is closer than one it returned: then no routed identifier
    /// outside the result is closer to the target than one inside it, and
    /// the result is short of the number asked for only if it holds every
    /// routed identifier.
    pub proof fn lemma_closer_n_closest(&self, target: Id, n: int)
        requires
            self.wf(),
            0 <= n,
            forall|x: Id, i: int|
                #![trigger self.routes(x), closest(self.gather(target, n), target, n)[i]]
                self.routes(x) && !self.gather(target, n).contains(x) && 0 <= i < closest(
                    self.gather(target, n),
                    target,
                    n,
                ).len() ==> target.distance(closest(self.gather(target, n), target, n)[i])
                    <= target.distance(x),
            self.gather(target, n).len() < n ==> forall|x: Id|
                self.routes(x) ==> self.gather(target, n).contains(x),
        ensures
            forall|x: Id, i: int|
                #![trigger self.routes(x), closest(self.gather(target, n), target, n)[i]]
                self.routes(x) && !closest(self.gather(target, n), target, n).contains(x) && 0 <= i
                    < closest(self.gather(target, n), target, n).len() ==> target.distance(
                    closest(self.gather(target, n), target, n)[i],
                ) <= target.distance(x),
            closest(self.gather(target, n), target, n).len() < n ==> forall|x: Id|
                self.routes(x) ==> closest(self.gather(target, n), target, n).contains(x),
    {
        let g = self.gather(target, n);
        let r = closest(g, target, n);
        lemma_closest(g, target, n);
        crate::sort::lemma_stable_sort(g, |x: Id| target.distance(x) as int);
    }
}

impl KTree {
    /// Whether this table is `before` after `id` was offered to it with the
    /// outcome `joined`.
    pub open spec fn is_insert_of(&self, before: &KTree, id: Id, joined: bool) -> bool {
        let (e, j) = before.slot(id);
        let open = id != before.own_id() && before.count() < before.capacity();
        let k = before.config().bucket_size as int;
        let c = before.config().bucket_replacement_size as int;
        let p = placement(before.routed(e, j), before.cached(e, j), id, k, c);
        &&& self.same_but(before, e, j)
        &&& joined == (open && (p is Routed || p is Cached))
        &&& (self.routed(e, j), self.cached(e, j)) == if open {
            after_insert(before.routed(e, j), before.cached(e, j), id, k, c)
        } else {
            (before.routed(e, j), before.cached(e, j))
        }
        &&& self.count() == before.count() + if joined {
            1nat
        } else {
            0nat
        }
    }

    /// Whether this table is `before` after `id` was taken out of it.
    pub open spec fn is_remove_of(&self, before: &KTree, id: Id) -> bool {
        let (e, j) = before.slot(id);
        &&& self.same_but(before, e, j)
        &&& !self.contains(id)
        &&& (self.routed(e, j), self.cached(e, j)) == after_remove(
            before.routed(e, j),
            before.cached(e, j),
            id,
        )
        &&& self.count() == before.count() - if before.contains(id) {
            1nat
        } else {
            0nat
        }
    }

    /// Whether this table is `before` after `id` was seen.
    pub open spec fn is_refresh_of(&self, before: &KTree, id: Id) -> bool {
        let (e, j) = before.slot(id);
        &&& self.same_but(before, e, j)
        &&& self.routed(e, j) == refreshed(before.routed(e, j), id)
        &&& self.cached(e, j) == before.cached(e, j)
        &&& self.count() == before.count()
    }
}

/// An identifier that stands in an entry before that of the target is
/// farther from the target than any identifier of a later entry.
pub proof fn lemma_earlier_entry_is_farther(own: Id, split: int, target: Id, near: Id, far: Id)
    requires
        1 <= split <= 9,
        entry_index(own, split, far) < entry_index(own, split, target),
        entry_index(own, split, far) < entry_index(own, split, near),
    ensures
        target.distance(near) < target.distance(far),
{
    let k = entry_index(own, split, far);
    Id::lemma_shared_prefix(own, far);
    Id::lemma_shared_prefix(own, target);
    Id::lemma_shared_prefix(own, near);
    own.spec_xor(far).lemma_leading_zeros();
    let u = target.spec_xor(near);
    let v = target.spec_xor(far);
    assert forall|i: int| 0 <= i < k implies u.bit(i) == v.bit(i) by {
        Id::lemma_bits(target, near, i);
        Id::lemma_bits(target, far, i);
    }
    Id::lemma_bits(target, near, k);
    Id::lemma_bits(target, far, k);
    Id::lemma_first_bit_difference(u, v, k);
}

/// An identifier that stands in the entry of the target is closer to the
/// target than any identifier of a later entry.
pub proof fn lemma_own_entry_is_nearer(own: Id, split: int, target: Id, near: Id, far: Id)
    requires
        1 <= split <= 9,
        entry_index(own, split, near) == entry_index(own, split, target),
        entry_index(own, split, far) > entry_index(own, split, target),
    ensures
        target.distance(near) < target.distance(far),
{
    let k = entry_index(own, split, target);
    Id::lemma_shared_prefix(own, far);
    Id::lemma_shared_prefix(own, target);
    Id::lemma_shared_prefix(own, near);
    own.spec_xor(far).lemma_leading_zeros();
    let u = target.spec_xor(near);
    let v = target.spec_xor(far);
    assert forall|i: int| 0 <= i < k implies u.bit(i) == v.bit(i) by {
        Id::lemma_bits(target, near, i);
        Id::lemma_bits(target, far, i);
    }
    Id::lemma_bits(target, near, k);
    Id::lemma_bits(target, far, k);
    Id::lemma_first_bit_difference(u, v, k);
}

/// What stands in one of two sequences stands in their concatenation, and
/// nothing else does.
pub proof fn lemma_concat_contains(a: Seq<Id>, b: Seq<Id>, x: Id)
    ensures
        (a + b).contains(x) <==> a.contains(x) || b.contains(x),
{
    if (a + b).contains(x) {
        let w = choose|w: int| 0 <= w < (a + b).len() && (a + b)[w] == x;
        if w < a.len() {
            assert(a[w] == x);
        } else {
            assert(b[w - a.len()] == x);
        }
    }
    if a.contains(x) {
        let w = choose|w: int| 0 <= w < a.len() && a[w] == x;
        assert((a + b)[w] == x);
    }
    if b.contains(x) {
        let w = choose|w: int| 0 <= w < b.len() && b[w] == x;
        assert((a + b)[a.len() + w] == x);
    }
}

impl KTreeEntry {
    /// The identifiers of the first buckets are those routed through one of
    /// them.
    pub proof fn lemma_ids_upto(&self, upto: int, x: Id)
        requires
            0 <= upto <= self.buckets().len(),
        ensures
            self.ids_upto(upto).contains(x) <==> exists|j: int|
                0 <= j < upto && (#[trigger] self.buckets()[j]).entries@.contains(x),
        decreases upto,
    {
        if upto > 0 {
            self.lemma_ids_upto(upto - 1, x);
            lemma_concat_contains(self.ids_upto(upto - 1), self.buckets()[upto - 1].entries@, x);
            if self.ids_upto(upto).contains(x) {
                if self.ids_upto(upto - 1).contains(x) {
                    let j = choose|j: int|
                        0 <= j < upto - 1 && (#[trigger] self.buckets()[j]).entries@.contains(x);
                    assert(0 <= j < upto && self.buckets()[j].entries@.contains(x));
                } else {
                    assert(self.buckets()[upto - 1].entries@.contains(x));
                }
            }
            if exists|j: int| 0 <= j < upto && (#[trigger] self.buckets()[j]).entries@.contains(x) {
                let j = choose|j: int| 0 <= j < upto && (#[trigger] self.buckets()[j]).entries@.contains(x);
                if j < upto - 1 {
                    assert(self.ids_upto(upto - 1).contains(x));
                }
            }
        } else {
            if self.ids_upto(upto).contains(x) {
                let w = choose|w: int| 0 <= w < self.ids_upto(upto).len() && self.ids_upto(upto)[w] == x;
            }
        }
    }
}

impl KTree {
    /// The primary index of the entry that `id` belongs to.
    pub open spec fn entry_of(&self, id: Id) -> int {
        entry_index(self.own_id(), self.split(), id)
    }

    /// Whether `ids` are the routed identifiers of the entries from `low`
    /// up to, but not including, `high`.
    pub open spec fn covers(&self, ids: Seq<Id>, low: int, high: int) -> bool {
        forall|x: Id| ids.contains(x) <==> (self.routes(x) && low <= self.entry_of(x) < high)
    }

    /// The number of identifiers routed through the entries from `e` on.
    pub open spec fn ids_behind(&self, e: int) -> nat
        decreases 160 - e,
    {
        if e < 0 || e >= 160 {
            0
        } else {
            self.nodes()[e].ids().len() + self.ids_behind(e + 1)
        }
    }

    /// Whether a lookup for the `n` identifiers closest to `target` walks
    /// through the table without leaving out an entry that could hold a
    /// closer identifier: it gathers the whole entry that the target
    /// belongs to, and then it either has enough, or goes through every
    /// entry behind that one before it turns to those before it.
    pub open spec fn walks_through(&self, target: Id, n: int) -> bool {
        let (e, j) = self.slot(target);
        let own = self.routed(e, j);
        let all = own + self.siblings(e, j, self.width());
        &&& self.split() == 1 || own.len() < n
        &&& all.len() >= n || all.len() + self.ids_behind(e + 1) < n
    }

    proof fn lemma_slot_in_range(&self, id: Id)
        requires
            self.wf(),
        ensures
            0 <= self.slot(id).0 < 160,
            0 <= self.slot(id).1 < self.width(),
            self.slot(id).0 == self.entry_of(id),
            self.split() == 1 ==> self.slot(id).1 == 0 && self.width() == 1,
    {
        let nid = self.own_id().spec_xor(id);
        nid.lemma_leading_zeros();
        lemma_bits_value_bound(nid, self.slot(id).0 + 1, self.split() - 1);
        lemma_pow2_bounds((self.split() - 1) as nat);
        reveal_with_fuel(pow2, 2);
    }

    /// The identifiers of an entry are the routed identifiers that belong
    /// to it.
    proof fn lemma_entry_ids(&self, e: int)
        requires
            self.wf(),
            0 <= e < 160,
        ensures
            self.covers(self.nodes()[e].ids(), e, e + 1),
    {
        let entry = self.nodes()[e];
        assert forall|x: Id| entry.ids().contains(x) <==> (self.routes(x) && e <= self.entry_of(x) < e
            + 1) by {
            entry.lemma_ids_upto(entry.buckets().len() as int, x);
            self.lemma_slot_in_range(x);
            if entry.ids().contains(x) {
                let j = choose|j: int|
                    0 <= j < entry.buckets().len() && (#[trigger] entry.buckets()[j]).entries@.contains(x);
                assert(self.nodes()[e].buckets()[j].spec_has(x));
                assert(self.slot(x) == (e, j));
            }
            if self.routes(x) && self.entry_of(x) == e {
                let j = self.slot(x).1;
                assert(entry.buckets()[j].entries@.contains(x));
            }
        }
    }

    /// The buckets of an entry but one hold the identifiers of the entry
    /// that are not in that one.
    proof fn lemma_siblings(&self, e: int, skip: int, upto: int, x: Id)
        requires
            self.wf(),
            0 <= e < 160,
            0 <= upto <= self.width(),
        ensures
            self.siblings(e, skip, upto).contains(x) <==> exists|j: int|
                0 <= j < upto && j != skip && (#[trigger] self.nodes()[e].buckets()[j]).entries@.contains(
                    x,
                ),
        decreases upto,
    {
        if upto > 0 {
            self.lemma_siblings(e, skip, upto - 1, x);
            let before = self.siblings(e, skip, upto - 1);
            if upto - 1 != skip {
                lemma_concat_contains(before, self.routed(e, upto - 1), x);
            }
            if self.siblings(e, skip, upto).contains(x) {
                if before.contains(x) {
                    let j = choose|j: int|
                        0 <= j < upto - 1 && j != skip && (#[trigger] self.nodes()[e].buckets()[j]).entries@.contains(
                            x,
                        );
                    assert(0 <= j < upto && j != skip && self.nodes()[e].buckets()[j].entries@.contains(x));
                } else {
                    assert(self.nodes()[e].buckets()[upto - 1].entries@.contains(x));
                }
            }
            if exists|j: int|
                0 <= j < upto && j != skip && (#[trigger] self.nodes()[e].buckets()[j]).entries@.contains(x) {
                let j = choose|j: int|
                    0 <= j < upto && j != skip && (#[trigger] self.nodes()[e].buckets()[j]).entries@.contains(
                        x,
                    );
                if j < upto - 1 {
                    assert(before.contains(x));
                }
            }
        } else {
            if self.siblings(e, skip, upto).contains(x) {
                let w = choose|w: int|
                    0 <= w < self.siblings(e, skip, upto).len() && self.siblings(e, skip, upto)[w] == x;
            }
        }
    }

    /// The bucket of the target and the other buckets of its entry hold
    /// the identifiers of that entry.
    proof fn lemma_whole_entry(&self, target: Id)
        requires
            self.wf(),
        ensures
            self.covers(
                self.routed(self.slot(target).0, self.slot(target).1) + self.siblings(
                    self.slot(target).0,
                    self.slot(target).1,
                    self.width(),
                ),
                self.slot(target).0,
                self.slot(target).0 + 1,
            ),
    {
        let (e, j0) = self.slot(target);
        self.lemma_slot_in_range(target);
        let own = self.routed(e, j0);
        let rest = self.siblings(e, j0, self.width());
        let entry = self.nodes()[e];
        self.lemma_entry_ids(e);
        assert forall|x: Id| (own + rest).contains(x) <==> (self.routes(x) && e <= self.entry_of(x) < e
            + 1) by {
            lemma_concat_contains(own, rest, x);
            self.lemma_siblings(e, j0, self.width(), x);
            entry.lemma_ids_upto(entry.buckets().len() as int, x);
            if (own + rest).contains(x) {
                if own.contains(x) {
                    assert(entry.buckets()[j0].entries@.contains(x));
                } else {
                    let j = choose|j: int|
                        0 <= j < self.width() && j != j0 && (#[trigger] self.nodes()[e].buckets()[j]).entries@.contains(
                            x,
                        );
                    assert(entry.buckets()[j].entries@.contains(x));
                }
                assert(entry.ids().contains(x));
            }
            if entry.ids().contains(x) {
                let j = choose|j: int|
                    0 <= j < entry.buckets().len() && (#[trigger] entry.buckets()[j]).entries@.contains(x);
                if j == j0 {
                    assert(own.contains(x));
                } else {
                    assert(self.nodes()[e].buckets()[j].entries@.contains(x));
                    assert(rest.contains(x));
                }
            }
        }
    }

    proof fn lemma_covers_more(&self, acc: Seq<Id>, low: int, e: int, up: bool)
        requires
            self.wf(),
            0 <= e < 160,
            if up {
                self.covers(acc, low, e)
            } else {
                self.covers(acc, e + 1, 160)
            },
            low <= e,
        ensures
            if up {
                self.covers(acc + self.nodes()[e].ids(), low, e + 1)
            } else {
                self.covers(acc + self.nodes()[e].ids(), e, 160)
            },
    {
        self.lemma_entry_ids(e);
        let next = acc + self.nodes()[e].ids();
        assert forall|x: Id|
            next.contains(x) <==> (self.routes(x) && (if up {
                low <= self.entry_of(x) < e + 1
            } else {
                e <= self.entry_of(x) < 160
            })) by {
            lemma_concat_contains(acc, self.nodes()[e].ids(), x);
        }
    }

    /// Where a lookup goes through the entries before that of the target,
    /// it gathers the entries from some entry on, all of them.
    proof fn lemma_gather_left(&self, e: int, acc: Seq<Id>, n: int) -> (low: int)
        requires
            self.wf(),
            -1 <= e < 160,
            self.covers(acc, e + 1, 160),
        ensures
            low <= e + 1,
            self.covers(self.gather_left(e, acc, n), low, 160),
            self.gather_left(e, acc, n).len() >= n || low <= 0,
        decreases e + 1,
    {
        if e < 0 {
            0
        } else {
            let next = acc + self.nodes()[e].ids();
            self.lemma_covers_more(acc, 0, e, false);
            if next.len() >= n {
                e
            } else {
                self.lemma_gather_left(e - 1, next, n)
            }
        }
    }

    /// Where a lookup does not find enough in the entries behind that of
    /// the target, it gathers them all and goes on before it.
    proof fn lemma_gather_right(&self, e: int, acc: Seq<Id>, first: int, n: int) -> (low: int)
        requires
            self.wf(),
            0 <= first < e <= 160,
            self.covers(acc, first, e),
            acc.len() + self.ids_behind(e) < n,
        ensures
            low <= first,
            self.covers(self.gather_right(e, acc, first, n), low, 160),
            self.gather_right(e, acc, first, n).len() >= n || low <= 0,
        decreases 160 - e,
    {
        if e >= 160 {
            self.lemma_gather_left(first - 1, acc, n)
        } else {
            self.lemma_covers_more(acc, first, e, true);
            self.lemma_gather_right(e + 1, acc + self.nodes()[e].ids(), first, n)
        }
    }

    /// A lookup that walks through the table returns the identifiers
    /// closest to the target among all that the table routes through: no
    /// routed identifier outside the result is closer to the target than
    /// one inside it; the result is short of the number asked for only if
    /// it holds every routed identifier; it holds routed identifiers only;
    /// and it is in ascending distance from the target.
    pub proof fn lemma_closer_n_walks_through(&self, target: Id, n: int)
        requires
            self.wf(),
            0 <= n,
            self.walks_through(target, n),
        ensures
            forall|x: Id, i: int|
                #![trigger self.routes(x), closest(self.gather(target, n), target, n)[i]]
                self.routes(x) && !closest(self.gather(target, n), target, n).contains(x) && 0 <= i
                    < closest(self.gather(target, n), target, n).len() ==> target.distance(
                    closest(self.gather(target, n), target, n)[i],
                ) <= target.distance(x),
            closest(self.gather(target, n), target, n).len() < n ==> forall|x: Id|
                self.routes(x) ==> closest(self.gather(target, n), target, n).contains(x),
            forall|i: int|
                0 <= i < closest(self.gather(target, n), target, n).len() ==> self.routes(
                    #[trigger] closest(self.gather(target, n), target, n)[i],
                ),
            forall|i: int, j: int|
                0 <= i < j < closest(self.gather(target, n), target, n).len() ==> target.distance(
                    closest(self.gather(target, n), target, n)[i],
                ) <= target.distance(closest(self.gather(target, n), target, n)[j]),
    {
        let (e, j) = self.slot(target);
        let own = self.routed(e, j);
        let all = own + self.siblings(e, j, self.width());
        let g = self.gather(target, n);
        let r = closest(g, target, n);
        self.lemma_slot_in_range(target);
        self.lemma_whole_entry(target);
        lemma_closest(g, target, n);
        // the entries that the walk has gathered: those from `low` to `high`
        let (low, high): (int, int) = if own.len() >= n || all.len() >= n {
            if own.len() >= n {
                // one bucket for each entry: the bucket is the entry
                assert(self.siblings(e, j, 1) =~= self.siblings(e, j, 0));
                assert(self.siblings(e, j, 0) =~= Seq::<Id>::empty());
                assert(all =~= own);
            }
            (e, e + 1)
        } else {
            let low = self.lemma_gather_right(e + 1, all, e, n);
            (low, 160)
        };
        assert(self.covers(g, low, high));
        assert(g.len() >= n || low <= 0 && high == 160);
        assert forall|x: Id, i: int|
            #![trigger self.routes(x), r[i]]
            self.routes(x) && !g.contains(x) && 0 <= i < r.len() implies target.distance(r[i])
            <= target.distance(x) by {
            let y = r[i];
            assert(g.contains(y));
            self.lemma_slot_in_range(x);
            self.lemma_slot_in_range(y);
            if self.entry_of(x) < low {
                lemma_earlier_entry_is_farther(self.own_id(), self.split(), target, y, x);
            } else {
                lemma_own_entry_is_nearer(self.own_id(), self.split(), target, y, x);
            }
        }
        if g.len() < n {
            assert forall|x: Id| self.routes(x) implies g.contains(x) by {
                self.lemma_slot_in_range(x);
            }
        }
        self.lemma_closer_n_closest(target, n);
        assert forall|i: int| 0 <= i < r.len() implies self.routes(#[trigger] r[i]) by {
            assert(g.contains(r[i]));
        }
    }
}

} // verus!
