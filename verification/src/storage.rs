use vstd::prelude::*;
use crate::config::StorageConfig;
use crate::id::Id;
use crate::kbucket::lemma_position;
use crate::kbucket::lemma_position_bounds;
use crate::kbucket::position;
use crate::seqs::keep;
use crate::seqs::lemma_keep_agree;
use crate::seqs::lemma_keep_all;
use crate::seqs::lemma_keep_all_but;
use crate::seqs::lemma_keep_twice;
use crate::transport::TopicEntry;
use priority_queue::DoublePriorityQueue;
use std::collections::hash_map::RandomState;
use instant::Instant;

verus! {

/// The double-ended priority queue of the `priority-queue` crate. Verus
/// sees nothing inside it.
#[verifier::external_type_specification]
#[verifier::external_body]
#[verifier::reject_recursive_types(I)]
#[verifier::reject_recursive_types(P)]
#[verifier::reject_recursive_types(H)]
pub struct ExDoublePriorityQueue<I, P, H>(DoublePriorityQueue<I, P, H>) where
    I: core::hash::Hash + Eq,
    P: Ord,
;

/// A point in time of the `instant` crate. Verus sees nothing inside it.
#[verifier::external_type_specification]
#[verifier::external_body]
pub struct ExInstant(Instant);

/// The queue of deadlines: pairs of topic and publisher, as their bytes,
/// ordered by the time at which the value expires.
pub type Deadlines = DoublePriorityQueue<([u8; 20], [u8; 20]), u128, RandomState>;

/// The records that a queue of deadlines holds: for each pair of topic and
/// publisher in it, the deadline it was last pushed with.
pub uninterp spec fn records(queue: Deadlines) -> Map<(Id, Id), u128>;

/// No records at all.
pub open spec fn no_records() -> Map<(Id, Id), u128> {
    Map::empty()
}

/// `DoublePriorityQueue::new`: the queue it makes holds nothing.
#[verifier::external_body]
fn queue_new() -> (queue: Deadlines)
    ensures
        records(queue) == no_records(),
{
    DoublePriorityQueue::new()
}

/// `DoublePriorityQueue::push`: the item gets the priority given, whether
/// or not it was in the queue; the other items keep theirs.
#[verifier::external_body]
fn queue_push(queue: &mut Deadlines, topic: Id, publisher: Id, deadline: u128)
    ensures
        records(*final(queue)) == records(*old(queue)).insert((topic, publisher), deadline),
{
    queue.push((topic.0, publisher.0), deadline);
}

/// `DoublePriorityQueue::remove`: the item leaves the queue if it was in
/// it; the other items stay.
#[verifier::external_body]
fn queue_remove(queue: &mut Deadlines, topic: Id, publisher: Id)
    ensures
        records(*final(queue)) == records(*old(queue)).remove((topic, publisher)),
{
    queue.remove(&(topic.0, publisher.0));
}

/// `DoublePriorityQueue::peek_min`: nothing for a queue that holds
/// nothing, else an item of the queue with its priority, which no priority
/// in the queue is below.
#[verifier::external_body]
fn queue_peek_min(queue: &Deadlines) -> (r: Option<(Id, Id, u128)>)
    ensures
        r is None <==> records(*queue) == no_records(),
        r matches Some((topic, publisher, deadline)) ==> records(*queue).contains_pair(
            (topic, publisher),
            deadline,
        ) && forall|k: (Id, Id)| #[trigger]
            records(*queue).contains_key(k) ==> deadline <= records(*queue)[k],
{
    match queue.peek_min() {
        Some((item, deadline)) => Some((Id(item.0), Id(item.1), *deadline)),
        None => None,
    }
}

/// `DoublePriorityQueue::pop_min`: what `peek_min` gives, and that item
/// leaves the queue.
#[verifier::external_body]
fn queue_pop_min(queue: &mut Deadlines) -> (r: Option<(Id, Id, u128)>)
    ensures
        r is None <==> records(*old(queue)) == no_records(),
        r is None ==> records(*final(queue)) == records(*old(queue)),
        r matches Some((topic, publisher, deadline)) ==> records(*old(queue)).contains_pair(
            (topic, publisher),
            deadline,
        ) && (forall|k: (Id, Id)| #[trigger]
            records(*old(queue)).contains_key(k) ==> deadline <= records(*old(queue))[k])
            && records(*final(queue)) == records(*old(queue)).remove((topic, publisher)),
{
    match queue.pop_min() {
        Some((item, deadline)) => Some((Id(item.0), Id(item.1), deadline)),
        None => None,
    }
}

/// `Instant::now`: the time at which it is called.
#[verifier::external_body]
fn clock_start() -> Instant {
    Instant::now()
}

/// `Instant::elapsed`, with `Duration::as_nanos`: the nanoseconds gone by
/// since `start`.
#[verifier::external_body]
fn clock_nanos_since(start: &Instant) -> u128 {
    start.elapsed().as_nanos()
}

/// Why a value was not stored.
#[derive(Clone, Copy, Debug, PartialEq, Eq, Structural)]
#[non_exhaustive]
pub enum Error {
    TooManyEntries,
    InvalidLifetime,
    InvalidData,
}

impl Error {
    /// The message that describes the error.
    pub fn message(&self) -> (r: &'static str)
        ensures
            r@ == match self {
                Error::TooManyEntries => "Too many entries stored"@,
                Error::InvalidLifetime => "Invalid data lifetime"@,
                Error::InvalidData => "Invalid data"@,
            },
    {
        match self {
            Error::TooManyEntries => "Too many entries stored",
            Error::InvalidLifetime => "Invalid data lifetime",
            Error::InvalidData => "Invalid data",
        }
    }
}

/// Nanoseconds in a second.
pub const NANOS_PER_SEC: u128 = 1_000_000_000;

/// Whether one of `entries` was published by `publisher`.
pub open spec fn has_publisher(entries: Seq<TopicEntry>, publisher: Id) -> bool {
    exists|i: int| 0 <= i < entries.len() && (#[trigger] entries[i]).publisher == publisher
}

/// `entries` but for those of `publisher`.
pub open spec fn without(entries: Seq<TopicEntry>, publisher: Id) -> Seq<TopicEntry> {
    keep(entries, |e: TopicEntry| e.publisher != publisher)
}

/// The values of one topic, in the order they were published.
struct TopicList {
    topic: Id,
    entries: Vec<TopicEntry>,
}

spec fn keys(lists: Seq<TopicList>) -> Seq<Id> {
    Seq::new(lists.len(), |i: int| lists[i].topic)
}

spec fn listing_in(lists: Seq<TopicList>, topic: Id) -> Seq<TopicEntry> {
    let i = position(keys(lists), topic);
    if i < lists.len() {
        lists[i].entries@
    } else {
        Seq::empty()
    }
}

spec fn total(lists: Seq<TopicList>) -> nat
    decreases lists.len(),
{
    if lists.len() == 0 {
        0
    } else {
        total(lists.drop_last()) + lists.last().entries@.len()
    }
}

spec fn list_wf(entries: Seq<TopicEntry>, max_size: usize) -> bool {
    &&& entries.len() > 0
    &&& forall|a: int, b: int|
        0 <= a < entries.len() && 0 <= b < entries.len() && a != b ==> (#[trigger] entries[a]).publisher
            != (#[trigger] entries[b]).publisher
    &&& forall|a: int| 0 <= a < entries.len() ==> (#[trigger] entries[a]).data@.len() <= max_size
}

spec fn lists_wf(lists: Seq<TopicList>, max_size: usize) -> bool {
    &&& keys(lists).no_duplicates()
    &&& forall|i: int| 0 <= i < lists.len() ==> list_wf((#[trigger] lists[i]).entries@, max_size)
}

proof fn lemma_listing_at(lists: Seq<TopicList>, i: int)
    requires
        keys(lists).no_duplicates(),
        0 <= i < lists.len(),
    ensures
        position(keys(lists), lists[i].topic) == i,
        listing_in(lists, lists[i].topic) == lists[i].entries@,
{
    let ks = keys(lists);
    assert forall|j: int| 0 <= j < i implies ks[j] != lists[i].topic by {
        assert(ks[i] == lists[i].topic);
    }
    lemma_position(ks, lists[i].topic, i);
}

proof fn lemma_listing_absent(lists: Seq<TopicList>, topic: Id)
    requires
        forall|j: int| 0 <= j < lists.len() ==> (#[trigger] lists[j]).topic != topic,
    ensures
        position(keys(lists), topic) == lists.len(),
        listing_in(lists, topic) == Seq::<TopicEntry>::empty(),
{
    lemma_position(keys(lists), topic, lists.len() as int);
}

proof fn lemma_listing_found(lists: Seq<TopicList>, topic: Id)
    ensures
        ({
            let i = position(keys(lists), topic);
            &&& 0 <= i <= lists.len()
            &&& i < lists.len() ==> lists[i].topic == topic
            &&& i == lists.len() ==> forall|j: int|
                0 <= j < lists.len() ==> (#[trigger] lists[j]).topic != topic
        }),
{
    let ks = keys(lists);
    lemma_position_bounds(ks, topic);
    let i = position(ks, topic);
    if i == lists.len() {
        assert forall|j: int| 0 <= j < lists.len() implies (#[trigger] lists[j]).topic != topic by {
            assert(ks[j] == lists[j].topic);
        }
    }
}

/// Replacing the values of one topic leaves the other topics alone.
proof fn lemma_lists_update(lists: Seq<TopicList>, after: Seq<TopicList>, i: int)
    requires
        keys(lists).no_duplicates(),
        0 <= i < lists.len(),
        after.len() == lists.len(),
        after[i].topic == lists[i].topic,
        forall|j: int| 0 <= j < lists.len() && j != i ==> after[j] == lists[j],
    ensures
        keys(after) == keys(lists),
        listing_in(after, lists[i].topic) == after[i].entries@,
        forall|t: Id| t != lists[i].topic ==> listing_in(after, t) == listing_in(lists, t),
        total(after) + lists[i].entries@.len() == total(lists) + after[i].entries@.len(),
{
    assert(keys(after) =~= keys(lists));
    lemma_listing_at(after, i);
    assert forall|t: Id| t != lists[i].topic implies listing_in(after, t) == listing_in(lists, t) by {
        lemma_listing_found(lists, t);
    }
    lemma_total_update(lists, after, i);
}

proof fn lemma_total_update(lists: Seq<TopicList>, after: Seq<TopicList>, i: int)
    requires
        0 <= i < lists.len(),
        after.len() == lists.len(),
        forall|j: int| 0 <= j < lists.len() && j != i ==> after[j] == lists[j],
    ensures
        total(after) + lists[i].entries@.len() == total(lists) + after[i].entries@.len(),
    decreases lists.len(),
{
    if i == lists.len() - 1 {
        assert(lists.drop_last() =~= after.drop_last());
    } else {
        lemma_total_update(lists.drop_last(), after.drop_last(), i);
    }
}

proof fn lemma_total_remove(lists: Seq<TopicList>, i: int)
    requires
        0 <= i < lists.len(),
    ensures
        total(lists.remove(i)) + lists[i].entries@.len() == total(lists),
    decreases lists.len(),
{
    if i == lists.len() - 1 {
        assert(lists.remove(i) =~= lists.drop_last());
    } else {
        lemma_total_remove(lists.drop_last(), i);
        assert(lists.remove(i).drop_last() =~= lists.drop_last().remove(i));
    }
}

/// Dropping one topic leaves the other topics alone.
proof fn lemma_lists_remove(lists: Seq<TopicList>, i: int)
    requires
        keys(lists).no_duplicates(),
        0 <= i < lists.len(),
    ensures
        keys(lists.remove(i)).no_duplicates(),
        listing_in(lists.remove(i), lists[i].topic) == Seq::<TopicEntry>::empty(),
        forall|t: Id| t != lists[i].topic ==> listing_in(lists.remove(i), t) == listing_in(lists, t),
        total(lists.remove(i)) + lists[i].entries@.len() == total(lists),
{
    let after = lists.remove(i);
    let ks = keys(lists);
    assert(keys(after) =~= ks.remove(i));
    assert forall|a: int, b: int| 0 <= a < after.len() && 0 <= b < after.len() && a != b implies keys(
        after,
    )[a] != keys(after)[b] by {
        let sa = if a < i { a } else { a + 1 };
        let sb = if b < i { b } else { b + 1 };
        assert(keys(after)[a] == ks[sa]);
        assert(keys(after)[b] == ks[sb]);
    }
    assert forall|j: int| 0 <= j < after.len() implies (#[trigger] after[j]).topic != lists[i].topic by {
        let sj = if j < i { j } else { j + 1 };
        assert(after[j] == lists[sj]);
        assert(ks[sj] == lists[sj].topic);
        assert(ks[i] == lists[i].topic);
    }
    lemma_listing_absent(after, lists[i].topic);
    assert forall|t: Id| t != lists[i].topic implies listing_in(after, t) == listing_in(lists, t) by {
        lemma_listing_found(lists, t);
        let w = position(ks, t);
        if w < lists.len() {
            let v = if w < i { w } else { w - 1 };
            assert(after[v] == lists[w]);
            lemma_listing_at(after, v);
        } else {
            assert forall|j: int| 0 <= j < after.len() implies (#[trigger] after[j]).topic != t by {
                let sj = if j < i { j } else { j + 1 };
                assert(after[j] == lists[sj]);
            }
            lemma_listing_absent(after, t);
        }
    }
    lemma_total_remove(lists, i);
}

/// Adding a topic that was not there leaves the other topics alone.
proof fn lemma_lists_push(lists: Seq<TopicList>, added: TopicList)
    requires
        keys(lists).no_duplicates(),
        forall|j: int| 0 <= j < lists.len() ==> (#[trigger] lists[j]).topic != added.topic,
    ensures
        keys(lists.push(added)).no_duplicates(),
        listing_in(lists.push(added), added.topic) == added.entries@,
        forall|t: Id| t != added.topic ==> listing_in(lists.push(added), t) == listing_in(lists, t),
        total(lists.push(added)) == total(lists) + added.entries@.len(),
{
    let after = lists.push(added);
    let ks = keys(lists);
    assert(keys(after) =~= ks.push(added.topic));
    assert forall|a: int, b: int| 0 <= a < after.len() && 0 <= b < after.len() && a != b implies keys(
        after,
    )[a] != keys(after)[b] by {
        if a < lists.len() {
            assert(keys(after)[a] == ks[a]);
            assert(lists[a].topic == ks[a]);
        }
        if b < lists.len() {
            assert(keys(after)[b] == ks[b]);
            assert(lists[b].topic == ks[b]);
        }
    }
    lemma_listing_at(after, lists.len() as int);
    assert forall|t: Id| t != added.topic implies listing_in(after, t) == listing_in(lists, t) by {
        lemma_listing_found(lists, t);
        let w = position(ks, t);
        if w < lists.len() {
            assert(after[w] == lists[w]);
            lemma_listing_at(after, w);
        } else {
            assert forall|j: int| 0 <= j < after.len() implies (#[trigger] after[j]).topic != t by {
                if j < lists.len() {
                    assert(after[j] == lists[j]);
                }
            }
            lemma_listing_absent(after, t);
        }
    }
    assert(after.drop_last() =~= lists);
}

/// Taking out the one value of a publisher is dropping all values of that
/// publisher, where publishers are distinct.
proof fn lemma_without_at(entries: Seq<TopicEntry>, publisher: Id, pos: int)
    requires
        0 <= pos <= entries.len(),
        forall|a: int, b: int|
            0 <= a < entries.len() && 0 <= b < entries.len() && a != b ==> (#[trigger] entries[a]).publisher
                != (#[trigger] entries[b]).publisher,
        pos < entries.len() ==> entries[pos].publisher == publisher,
        pos == entries.len() ==> forall|a: int|
            0 <= a < entries.len() ==> (#[trigger] entries[a]).publisher != publisher,
    ensures
        without(entries, publisher) == if pos < entries.len() {
            entries.remove(pos)
        } else {
            entries
        },
        has_publisher(entries, publisher) == (pos < entries.len()),
        !has_publisher(without(entries, publisher), publisher),
        forall|q: Id|
            q != publisher ==> has_publisher(without(entries, publisher), q) == has_publisher(
                entries,
                q,
            ),
{
    let f = |e: TopicEntry| e.publisher != publisher;
    let out = without(entries, publisher);
    if pos < entries.len() {
        assert forall|j: int| 0 <= j < entries.len() && j != pos implies f(#[trigger] entries[j]) by {
            assert(entries[j].publisher != entries[pos].publisher);
        }
        lemma_keep_all_but(entries, f, pos);
        assert forall|q: Id| q != publisher implies has_publisher(out, q) == has_publisher(
            entries,
            q,
        ) by {
            if has_publisher(out, q) {
                let w = choose|w: int| 0 <= w < out.len() && (#[trigger] out[w]).publisher == q;
                let v = if w < pos { w } else { w + 1 };
                assert(entries[v].publisher == q);
            }
            if has_publisher(entries, q) {
                let v = choose|v: int| 0 <= v < entries.len() && (#[trigger] entries[v]).publisher == q;
                let w = if v < pos { v } else { v - 1 };
                assert(out[w].publisher == q);
            }
        }
        if has_publisher(out, publisher) {
            let w = choose|w: int| 0 <= w < out.len() && (#[trigger] out[w]).publisher == publisher;
            let v = if w < pos { w } else { w + 1 };
            assert(entries[v].publisher == publisher);
        }
    } else {
        lemma_keep_all(entries, f);
    }
}

/// What dropping the values of a publisher does to the publishers of a
/// topic.
proof fn lemma_without(entries: Seq<TopicEntry>, publisher: Id)
    requires
        forall|a: int, b: int|
            0 <= a < entries.len() && 0 <= b < entries.len() && a != b ==> (#[trigger] entries[a]).publisher
                != (#[trigger] entries[b]).publisher,
    ensures
        !has_publisher(entries, publisher) ==> without(entries, publisher) == entries,
        !has_publisher(without(entries, publisher), publisher),
        forall|q: Id|
            q != publisher ==> has_publisher(without(entries, publisher), q) == has_publisher(
                entries,
                q,
            ),
{
    if has_publisher(entries, publisher) {
        let pos = choose|i: int| 0 <= i < entries.len() && (#[trigger] entries[i]).publisher == publisher;
        lemma_without_at(entries, publisher, pos);
    } else {
        lemma_without_at(entries, publisher, entries.len() as int);
    }
}

fn find_topic(lists: &Vec<TopicList>, topic: Id) -> (r: usize)
    ensures
        r == position(keys(lists@), topic),
        r <= lists@.len(),
        r < lists@.len() ==> lists@[r as int].topic == topic,
        r == lists@.len() ==> forall|j: int| 0 <= j < lists@.len() ==> (#[trigger] lists@[j]).topic != topic,
{
    let mut i: usize = 0;
    while i < lists.len()
        invariant
            i <= lists@.len(),
            forall|j: int| 0 <= j < i ==> (#[trigger] lists@[j]).topic != topic,
        decreases lists@.len() - i,
    {
        if lists[i].topic == topic {
            proof {
                assert forall|j: int| 0 <= j < i implies keys(lists@)[j] != topic by {
                    assert(lists@[j].topic != topic);
                }
                lemma_position(keys(lists@), topic, i as int);
            }
            return i;
        }
        i += 1;
    }
    proof {
        lemma_listing_absent(lists@, topic);
    }
    i
}

fn find_publisher(entries: &Vec<TopicEntry>, publisher: Id) -> (r: usize)
    ensures
        r <= entries@.len(),
        r < entries@.len() ==> entries@[r as int].publisher == publisher,
        forall|j: int| 0 <= j < r ==> (#[trigger] entries@[j]).publisher != publisher,
{
    let mut i: usize = 0;
    while i < entries.len()
        invariant
            i <= entries@.len(),
            forall|j: int| 0 <= j < i ==> (#[trigger] entries@[j]).publisher != publisher,
        decreases entries@.len() - i,
    {
        if entries[i].publisher == publisher {
            return i;
        }
        i += 1;
    }
    i
}

/// Takes the value of `publisher` out of `topic`, and the topic with it if
/// that was its last value. Returns whether there was such a value.
fn drop_entry(lists: &mut Vec<TopicList>, topic: Id, publisher: Id, Ghost(max_size): Ghost<usize>) -> (r:
    bool)
    requires
        lists_wf(old(lists)@, max_size),
    ensures
        lists_wf(final(lists)@, max_size),
        r == has_publisher(listing_in(old(lists)@, topic), publisher),
        listing_in(final(lists)@, topic) == without(listing_in(old(lists)@, topic), publisher),
        forall|t: Id| t != topic ==> listing_in(final(lists)@, t) == listing_in(old(lists)@, t),
        total(final(lists)@) + (if r { 1nat } else { 0nat }) == total(old(lists)@),
{
    let i = find_topic(lists, topic);
    if i >= lists.len() {
        proof {
            lemma_without_at(Seq::<TopicEntry>::empty(), publisher, 0);
        }
        return false;
    }
    let ghost before = lists@;
    let ghost was = before[i as int].entries@;
    proof {
        lemma_listing_at(before, i as int);
        assert(list_wf(was, max_size));
    }
    let pos = find_publisher(&lists[i].entries, publisher);
    proof {
        lemma_without_at(was, publisher, pos as int);
    }
    if pos >= lists[i].entries.len() {
        return false;
    }
    lists[i].entries.remove(pos);
    let ghost mid = lists@;
    proof {
        lemma_lists_update(before, mid, i as int);
        let now = mid[i as int].entries@;
        assert(now == was.remove(pos as int));
        assert forall|a: int, b: int|
            0 <= a < now.len() && 0 <= b < now.len() && a != b implies (#[trigger] now[a]).publisher
            != (#[trigger] now[b]).publisher by {
            let sa = if a < pos { a } else { a + 1 };
            let sb = if b < pos { b } else { b + 1 };
            assert(now[a] == was[sa]);
            assert(now[b] == was[sb]);
        }
        assert forall|a: int| 0 <= a < now.len() implies (#[trigger] now[a]).data@.len() <= max_size by {
            let sa = if a < pos { a } else { a + 1 };
            assert(now[a] == was[sa]);
        }
    }
    if lists[i].entries.len() == 0 {
        lists.remove(i);
        proof {
            lemma_lists_remove(mid, i as int);
            assert(without(was, publisher) =~= Seq::<TopicEntry>::empty());
            assert forall|j: int| 0 <= j < lists@.len() implies list_wf(
                (#[trigger] lists@[j]).entries@,
                max_size,
            ) by {
                let sj = if j < i { j } else { j + 1 };
                assert(lists@[j] == mid[sj]);
                assert(mid[sj] == before[sj]);
            }
        }
    } else {
        proof {
            assert forall|j: int| 0 <= j < lists@.len() implies list_wf(
                (#[trigger] lists@[j]).entries@,
                max_size,
            ) by {
                if j != i {
                    assert(lists@[j] == before[j]);
                }
            }
        }
    }
    true
}

/// The values published under topics, each with the time at which it
/// expires. Time is counted in nanoseconds from the making of the storage.
pub struct Storage {
    config: StorageConfig,
    entry_count: usize,
    topics: Vec<TopicList>,
    deadlines: Deadlines,
    epoch: Instant,
}

impl Storage {
    /// The limits that the storage keeps to.
    pub closed spec fn config(&self) -> StorageConfig {
        self.config
    }

    /// The values of `topic`, in the order they were published; none for a
    /// topic that the storage does not know.
    pub closed spec fn listing(&self, topic: Id) -> Seq<TopicEntry> {
        listing_in(self.topics@, topic)
    }

    /// The time at which each value expires, by topic and publisher.
    pub closed spec fn deadlines(&self) -> Map<(Id, Id), u128> {
        records(self.deadlines)
    }

    /// The number of values that the storage counts.
    pub closed spec fn count(&self) -> nat {
        self.entry_count as nat
    }

    /// The topics that have values.
    pub closed spec fn topics(&self) -> Seq<Id> {
        keys(self.topics@)
    }

    /// The number of values under the first `upto` topics.
    pub open spec fn lengths(&self, upto: int) -> nat
        decreases upto,
    {
        if upto <= 0 {
            0
        } else {
            self.lengths(upto - 1) + self.listing(self.topics()[upto - 1]).len()
        }
    }

    /// Topics are distinct and none is empty; the publishers of a topic are
    /// distinct; no value is larger than allowed; the count is the number
    /// of values and within its limit; and the values that have a deadline
    /// are those that are stored.
    pub closed spec fn wf(&self) -> bool {
        &&& lists_wf(self.topics@, self.config.max_size)
        &&& self.entry_count == total(self.topics@)
        &&& self.entry_count <= self.config.max_entries
        &&& forall|t: Id, p: Id| #[trigger]
            records(self.deadlines).contains_key((t, p)) <==> has_publisher(
                listing_in(self.topics@, t),
                p,
            )
    }

    /// What a well-formed storage guarantees.
    pub proof fn lemma_wf(&self)
        requires
            self.wf(),
        ensures
            self.count() <= self.config().max_entries,
            self.count() == self.lengths(self.topics().len() as int),
            self.topics().no_duplicates(),
            forall|t: Id| self.topics().contains(t) <==> self.listing(t).len() > 0,
            forall|t: Id, p: Id| #[trigger]
                self.deadlines().contains_key((t, p)) <==> has_publisher(self.listing(t), p),
            forall|t: Id, a: int, b: int|
                0 <= a < self.listing(t).len() && 0 <= b < self.listing(t).len() && a != b ==> (
                #[trigger] self.listing(t)[a]).publisher != (#[trigger] self.listing(t)[b]).publisher,
            forall|t: Id, a: int|
                0 <= a < self.listing(t).len() ==> (#[trigger] self.listing(t)[a]).data@.len()
                    <= self.config().max_size,
    {
        let lists = self.topics@;
        self.lemma_lengths(lists.len() as int);
        assert(lists.take(lists.len() as int) =~= lists);
        assert forall|t: Id| self.topics().contains(t) <==> self.listing(t).len() > 0 by {
            lemma_listing_found(lists, t);
            lemma_position_bounds(keys(lists), t);
        }
        assert forall|t: Id, a: int, b: int|
            0 <= a < self.listing(t).len() && 0 <= b < self.listing(t).len() && a != b implies (
        #[trigger] self.listing(t)[a]).publisher != (#[trigger] self.listing(t)[b]).publisher by {
            lemma_listing_found(lists, t);
        }
        assert forall|t: Id, a: int| 0 <= a < self.listing(t).len() implies (
        #[trigger] self.listing(t)[a]).data@.len() <= self.config().max_size by {
            lemma_listing_found(lists, t);
        }
    }

    proof fn lemma_lengths(&self, upto: int)
        requires
            self.wf(),
            0 <= upto <= self.topics@.len(),
        ensures
            self.lengths(upto) == total(self.topics@.take(upto)),
        decreases upto,
    {
        if upto > 0 {
            self.lemma_lengths(upto - 1);
            lemma_listing_at(self.topics@, upto - 1);
            assert(self.topics@.take(upto).drop_last() =~= self.topics@.take(upto - 1));
        }
    }
}

/// What `Storage::insert_at` answers for a value of `size` bytes offered
/// at time `now` for `lifetime` seconds, by a publisher who has (`known`)
/// or has not a value under the topic already, to a storage that counts
/// `count` values.
pub open spec fn insert_answer(
    config: StorageConfig,
    count: nat,
    known: bool,
    now: u128,
    lifetime: u32,
    size: nat,
) -> Result<(), Error> {
    if size > config.max_size {
        Err(Error::InvalidData)
    } else if lifetime > config.max_lifetime || now + lifetime * NANOS_PER_SEC > u128::MAX {
        Err(Error::InvalidLifetime)
    } else if count - (if known { 1int } else { 0int }) >= config.max_entries {
        Err(Error::TooManyEntries)
    } else {
        Ok(())
    }
}

impl Storage {
    /// Whether this storage is `before` after the value `data` of
    /// `publisher` was offered under `topic` at time `now` for `lifetime`
    /// seconds and the answer was `answer`. A value that is taken replaces
    /// the one that the publisher had under the topic, comes last among the
    /// values of the topic, and expires `lifetime` seconds after `now`; a
    /// value that is refused changes nothing.
    pub open spec fn is_insert_of(
        &self,
        before: &Storage,
        now: u128,
        topic: Id,
        publisher: Id,
        lifetime: u32,
        data: Vec<u8>,
        answer: Result<(), Error>,
    ) -> bool {
        &&& self.config() == before.config()
        &&& answer == insert_answer(
            before.config(),
            before.count(),
            has_publisher(before.listing(topic), publisher),
            now,
            lifetime,
            data@.len(),
        )
        &&& forall|t: Id| t != topic ==> self.listing(t) == before.listing(t)
        &&& answer is Err ==> {
            &&& self.listing(topic) == before.listing(topic)
            &&& self.deadlines() == before.deadlines()
            &&& self.count() == before.count()
        }
        &&& answer is Ok ==> {
            &&& self.listing(topic) == without(before.listing(topic), publisher).push(
                TopicEntry { publisher, data },
            )
            &&& self.deadlines() == before.deadlines().insert(
                (topic, publisher),
                (now + lifetime * NANOS_PER_SEC) as u128,
            )
            &&& self.count() == before.count() + 1 - (if has_publisher(
                before.listing(topic),
                publisher,
            ) {
                1int
            } else {
                0int
            })
        }
    }

    /// Whether this storage is `before` after the value of `user` was taken
    /// out of `topic`.
    pub open spec fn is_remove_of(&self, before: &Storage, topic: Id, user: Id) -> bool {
        &&& self.config() == before.config()
        &&& self.listing(topic) == without(before.listing(topic), user)
        &&& forall|t: Id| t != topic ==> self.listing(t) == before.listing(t)
        &&& self.deadlines() == before.deadlines().remove((topic, user))
        &&& self.count() == before.count() - (if has_publisher(before.listing(topic), user) {
            1int
        } else {
            0int
        })
    }

    /// Whether this storage is `before` after the values that expire at
    /// `now` or earlier were dropped: what stays keeps its order and its
    /// deadline.
    pub open spec fn is_expiry_of(&self, before: &Storage, now: u128) -> bool {
        &&& self.config() == before.config()
        &&& forall|t: Id|
            self.listing(t) == keep(
                before.listing(t),
                |e: TopicEntry| before.deadlines()[(t, e.publisher)] > now,
            )
        &&& forall|k: (Id, Id)|
            self.deadlines().contains_key(k) <==> before.deadlines().contains_key(k)
                && before.deadlines()[k] > now
        &&& forall|k: (Id, Id)|
            self.deadlines().contains_key(k) ==> self.deadlines()[k] == before.deadlines()[k]
    }

    /// An empty storage with the given limits; its clock starts now.
    pub fn new(config: StorageConfig) -> (r: Storage)
        ensures
            r.wf(),
            r.config() == config,
            r.count() == 0,
            forall|t: Id| r.listing(t).len() == 0,
            r.deadlines() == no_records(),
    {
        let r = Storage {
            config,
            entry_count: 0,
            topics: Vec::new(),
            deadlines: queue_new(),
            epoch: clock_start(),
        };
        proof {
            assert forall|t: Id| r.listing(t).len() == 0 by {
                lemma_listing_absent(r.topics@, t);
            }
            assert forall|t: Id, p: Id| #[trigger]
                records(r.deadlines).contains_key((t, p)) <==> has_publisher(
                    listing_in(r.topics@, t),
                    p,
                ) by {
                lemma_listing_absent(r.topics@, t);
            }
        }
        r
    }

    /// The time now, in nanoseconds since the storage was made.
    pub fn now(&self) -> u128 {
        clock_nanos_since(&self.epoch)
    }

    /// The number of values stored.
    pub fn entry_count(&self) -> (r: usize)
        ensures
            r == self.count(),
    {
        self.entry_count
    }

    /// The values of a topic, if it has any.
    pub fn get(&self, id: Id) -> (r: Option<&Vec<TopicEntry>>)
        requires
            self.wf(),
        ensures
            r is Some <==> self.listing(id).len() > 0,
            r matches Some(entries) ==> entries@ == self.listing(id),
    {
        let i = find_topic(&self.topics, id);
        if i < self.topics.len() {
            proof {
                lemma_listing_at(self.topics@, i as int);
            }
            Some(&self.topics[i].entries)
        } else {
            None
        }
    }

    /// Whether a value of this size and lifetime can be stored at all.
    pub fn check_entry(config: &StorageConfig, _topic: Id, _sender: Id, lifetime: u32, data: &[u8]) -> (r:
        Result<(), Error>)
        ensures
            r == if data@.len() > config.max_size {
                Err::<(), Error>(Error::InvalidData)
            } else if lifetime > config.max_lifetime {
                Err::<(), Error>(Error::InvalidLifetime)
            } else {
                Ok::<(), Error>(())
            },
    {
        if data.len() > config.max_size {
            Err(Error::InvalidData)
        } else if lifetime > config.max_lifetime {
            Err(Error::InvalidLifetime)
        } else {
            Ok(())
        }
    }

    /// Takes the value of `user` out of `topic`, if there is one.
    pub fn remove(&mut self, topic: Id, user: Id)
        requires
            old(self).wf(),
        ensures
            final(self).wf(),
            final(self).config() == old(self).config(),
            final(self).listing(topic) == without(old(self).listing(topic), user),
            forall|t: Id| t != topic ==> final(self).listing(t) == old(self).listing(t),
            final(self).deadlines() == old(self).deadlines().remove((topic, user)),
            final(self).count() == old(self).count() - (if has_publisher(
                old(self).listing(topic),
                user,
            ) {
                1int
            } else {
                0int
            }),
    {
        let removed = drop_entry(&mut self.topics, topic, user, Ghost(self.config.max_size));
        if removed {
            self.entry_count -= 1;
            queue_remove(&mut self.deadlines, topic, user);
        }
        proof {
            let was = old(self).listing(topic);
            lemma_listing_found(old(self).topics@, topic);
            lemma_without(was, user);
            if !removed {
                assert(!old(self).deadlines().contains_key((topic, user)));
                assert(old(self).deadlines().remove((topic, user)) =~= old(self).deadlines());
            }
            assert forall|t: Id, p: Id| #[trigger]
                records(self.deadlines).contains_key((t, p)) <==> has_publisher(
                    listing_in(self.topics@, t),
                    p,
                ) by {
                assert(records(old(self).deadlines).contains_key((t, p)) <==> has_publisher(
                    listing_in(old(self).topics@, t),
                    p,
                ));
            }
        }
    }

    /// Stores the value `data` of `publisher` under `topic` for `lifetime`
    /// seconds from the time `now`, in place of the value that the
    /// publisher had there.
    pub fn insert_at(&mut self, now: u128, topic: Id, publisher: Id, lifetime: u32, data: Vec<u8>) -> (r:
        Result<(), Error>)
        requires
            old(self).wf(),
        ensures
            final(self).wf(),
            final(self).is_insert_of(old(self), now, topic, publisher, lifetime, data, r),
    {
        proof {
            let was = old(self).listing(topic);
            lemma_listing_found(old(self).topics@, topic);
            lemma_without(was, publisher);
        }
        match Storage::check_entry(&self.config, topic, publisher, lifetime, data.as_slice()) {
            Err(e) => {
                return Err(e);
            },
            Ok(_) => {},
        }
        let span: u128 = (lifetime as u128) * NANOS_PER_SEC;
        let deadline: u128 = match now.checked_add(span) {
            Some(d) => d,
            None => {
                return Err(Error::InvalidLifetime);
            },
        };
        let removed = drop_entry(&mut self.topics, topic, publisher, Ghost(self.config.max_size));
        let left: usize = if removed {
            self.entry_count - 1
        } else {
            self.entry_count
        };
        if left >= self.config.max_entries {
            return Err(Error::TooManyEntries);
        }
        let ghost mid = self.topics@;
        let entry = TopicEntry { publisher, data };
        let i = find_topic(&self.topics, topic);
        if i < self.topics.len() {
            self.topics[i].entries.push(entry);
            proof {
                lemma_listing_at(mid, i as int);
                lemma_lists_update(mid, self.topics@, i as int);
                let was = mid[i as int].entries@;
                let now_list = self.topics@[i as int].entries@;
                assert(!has_publisher(was, publisher));
                assert forall|a: int, b: int|
                    0 <= a < now_list.len() && 0 <= b < now_list.len() && a != b implies (
                #[trigger] now_list[a]).publisher != (#[trigger] now_list[b]).publisher by {
                    if a < was.len() {
                        assert(was[a] == now_list[a]);
                    }
                    if b < was.len() {
                        assert(was[b] == now_list[b]);
                    }
                }
                assert forall|a: int| 0 <= a < now_list.len() implies (#[trigger] now_list[a]).data@.len()
                    <= self.config.max_size by {
                    if a < was.len() {
                        assert(was[a] == now_list[a]);
                    }
                }
                assert forall|j: int| 0 <= j < self.topics@.len() implies list_wf(
                    (#[trigger] self.topics@[j]).entries@,
                    self.config.max_size,
                ) by {
                    if j != i {
                        assert(self.topics@[j] == mid[j]);
                    }
                }
            }
        } else {
            let mut entries: Vec<TopicEntry> = Vec::new();
            entries.push(entry);
            let added = TopicList { topic, entries };
            proof {
                lemma_lists_push(mid, added);
                assert(listing_in(mid, topic) =~= Seq::<TopicEntry>::empty());
                assert(added.entries@ =~= listing_in(mid, topic).push(entry));
            }
            self.topics.push(added);
            proof {
                assert forall|j: int| 0 <= j < self.topics@.len() implies list_wf(
                    (#[trigger] self.topics@[j]).entries@,
                    self.config.max_size,
                ) by {
                    if j < mid.len() {
                        assert(self.topics@[j] == mid[j]);
                    }
                }
            }
        }
        queue_push(&mut self.deadlines, topic, publisher, deadline);
        self.entry_count = left + 1;
        proof {
            let after = self.listing(topic);
            assert(after == listing_in(mid, topic).push(entry));
            assert(after[after.len() - 1].publisher == publisher);
            assert forall|t: Id, p: Id| #[trigger]
                records(self.deadlines).contains_key((t, p)) <==> has_publisher(
                    listing_in(self.topics@, t),
                    p,
                ) by {
                assert(records(old(self).deadlines).contains_key((t, p)) <==> has_publisher(
                    listing_in(old(self).topics@, t),
                    p,
                ));
                if t == topic {
                    let prior = listing_in(mid, topic);
                    if has_publisher(after, p) {
                        let w = choose|w: int| 0 <= w < after.len() && (#[trigger] after[w]).publisher == p;
                        if w < prior.len() {
                            assert(prior[w].publisher == p);
                        }
                    }
                    if has_publisher(prior, p) {
                        let w = choose|w: int| 0 <= w < prior.len() && (#[trigger] prior[w]).publisher == p;
                        assert(after[w].publisher == p);
                    }
                }
            }
        }
        Ok(())
    }

    /// Stores the value `data` of `publisher` under `topic` for `lifetime`
    /// seconds from now, in place of the value that the publisher had
    /// there.
    pub fn insert(&mut self, topic: Id, publisher: Id, lifetime: u32, data: Vec<u8>) -> (r: Result<
        (),
        Error,
    >)
        requires
            old(self).wf(),
        ensures
            final(self).wf(),
            exists|now: u128| final(self).is_insert_of(old(self), now, topic, publisher, lifetime, data, r),
    {
        let now = clock_nanos_since(&self.epoch);
        self.insert_at(now, topic, publisher, lifetime, data)
    }
}

impl Storage {
    /// Drops every value that expires at `now` or earlier.
    pub fn periodic_run_at(&mut self, now: u128)
        requires
            old(self).wf(),
        ensures
            final(self).wf(),
            final(self).is_expiry_of(old(self), now),
    {
        proof {
            assert forall|t: Id|
                self.listing(t) == keep(
                    old(self).listing(t),
                    |e: TopicEntry| self.deadlines().contains_key((t, e.publisher)),
                ) by {
                lemma_listing_found(self.topics@, t);
                let l = self.listing(t);
                assert forall|i: int| 0 <= i < l.len() implies self.deadlines().contains_key(
                    (t, (#[trigger] l[i]).publisher),
                ) by {
                    assert(has_publisher(l, l[i].publisher));
                }
                lemma_keep_all(l, |e: TopicEntry| self.deadlines().contains_key((t, e.publisher)));
            }
        }
        loop
            invariant
                self.wf(),
                old(self).wf(),
                self.config() == old(self).config(),
                forall|k: (Id, Id)|
                    self.deadlines().contains_key(k) ==> old(self).deadlines().contains_key(k)
                        && old(self).deadlines()[k] == self.deadlines()[k],
                forall|k: (Id, Id)|
                    old(self).deadlines().contains_key(k) && !self.deadlines().contains_key(k)
                        ==> old(self).deadlines()[k] <= now,
                forall|t: Id|
                    self.listing(t) == keep(
                        old(self).listing(t),
                        |e: TopicEntry| self.deadlines().contains_key((t, e.publisher)),
                    ),
            ensures
                self.wf(),
                self.config() == old(self).config(),
                forall|k: (Id, Id)|
                    self.deadlines().contains_key(k) ==> old(self).deadlines().contains_key(k)
                        && old(self).deadlines()[k] == self.deadlines()[k] && self.deadlines()[k]
                        > now,
                forall|k: (Id, Id)|
                    old(self).deadlines().contains_key(k) && !self.deadlines().contains_key(k)
                        ==> old(self).deadlines()[k] <= now,
                forall|t: Id|
                    self.listing(t) == keep(
                        old(self).listing(t),
                        |e: TopicEntry| self.deadlines().contains_key((t, e.publisher)),
                    ),
            decreases self.count(),
        {
            match queue_peek_min(&self.deadlines) {
                None => {
                    break ;
                },
                Some((_, _, first)) => {
                    if first > now {
                        break ;
                    }
                },
            }
            let ghost before = *self;
            let popped = queue_pop_min(&mut self.deadlines);
            let (topic, user) = match popped {
                Some((topic, user, _)) => (topic, user),
                None => {
                    break ;
                },
            };
            proof {
                assert(before.deadlines().contains_key((topic, user)));
                assert(has_publisher(before.listing(topic), user));
                lemma_listing_found(before.topics@, topic);
                lemma_without(before.listing(topic), user);
            }
            let removed = drop_entry(&mut self.topics, topic, user, Ghost(self.config.max_size));
            if removed {
                self.entry_count -= 1;
            }
            proof {
                assert forall|t: Id, p: Id| #[trigger]
                    records(self.deadlines).contains_key((t, p)) <==> has_publisher(
                        listing_in(self.topics@, t),
                        p,
                    ) by {
                    assert(records(before.deadlines).contains_key((t, p)) <==> has_publisher(
                        listing_in(before.topics@, t),
                        p,
                    ));
                }
                assert forall|t: Id|
                    self.listing(t) == keep(
                        old(self).listing(t),
                        |e: TopicEntry| self.deadlines().contains_key((t, e.publisher)),
                    ) by {
                    let was = old(self).listing(t);
                    let f = |e: TopicEntry| before.deadlines().contains_key((t, e.publisher));
                    let g = |e: TopicEntry| e.publisher != user;
                    let h = |e: TopicEntry| self.deadlines().contains_key((t, e.publisher));
                    assert(before.listing(t) == keep(was, f));
                    if t == topic {
                        lemma_keep_twice(was, f, g);
                        lemma_keep_agree(was, |x: TopicEntry| f(x) && g(x), h);
                    } else {
                        lemma_keep_agree(was, f, h);
                    }
                }
            }
        }
        proof {
            assert forall|t: Id|
                self.listing(t) == keep(
                    old(self).listing(t),
                    |e: TopicEntry| old(self).deadlines()[(t, e.publisher)] > now,
                ) by {
                let was = old(self).listing(t);
                let h = |e: TopicEntry| self.deadlines().contains_key((t, e.publisher));
                let q = |e: TopicEntry| old(self).deadlines()[(t, e.publisher)] > now;
                lemma_listing_found(old(self).topics@, t);
                assert forall|i: int| 0 <= i < was.len() implies h(#[trigger] was[i]) == q(was[i]) by {
                    assert(has_publisher(was, was[i].publisher));
                    assert(old(self).deadlines().contains_key((t, was[i].publisher)));
                }
                lemma_keep_agree(was, h, q);
            }
        }
    }

    /// Drops every value that has expired by now.
    pub fn periodic_run(&mut self)
        requires
            old(self).wf(),
        ensures
            final(self).wf(),
            exists|now: u128| final(self).is_expiry_of(old(self), now),
    {
        let now = clock_nanos_since(&self.epoch);
        self.periodic_run_at(now);
    }
}

impl Storage {
    /// However often a publisher has stored a value under a topic, the
    /// topic holds one value of that publisher: the last one stored, which
    /// stands last.
    pub proof fn lemma_stored_once(
        before: &Storage,
        after: &Storage,
        now: u128,
        topic: Id,
        publisher: Id,
        lifetime: u32,
        data: Vec<u8>,
    )
        requires
            before.wf(),
            after.is_insert_of(before, now, topic, publisher, lifetime, data, Ok(())),
        ensures
            after.listing(topic).len() > 0,
            after.listing(topic).last() == (TopicEntry { publisher, data }),
            forall|i: int|
                0 <= i < after.listing(topic).len() - 1 ==> (#[trigger] after.listing(topic)[i]).publisher
                    != publisher,
    {
        let was = before.listing(topic);
        let rest = without(was, publisher);
        lemma_listing_found(before.topics@, topic);
        lemma_without(was, publisher);
        assert forall|i: int| 0 <= i < after.listing(topic).len() - 1 implies (
        #[trigger] after.listing(topic)[i]).publisher != publisher by {
            assert(after.listing(topic)[i] == rest[i]);
            if rest[i].publisher == publisher {
                assert(has_publisher(rest, publisher));
            }
        }
    }

    /// A value that was stored for some seconds is gone once the expired
    /// values are dropped at a time that is so many seconds later, or more.
    pub proof fn lemma_expires(
        before: &Storage,
        stored: &Storage,
        after: &Storage,
        now: u128,
        later: u128,
        topic: Id,
        publisher: Id,
        lifetime: u32,
        data: Vec<u8>,
    )
        requires
            before.wf(),
            stored.is_insert_of(before, now, topic, publisher, lifetime, data, Ok(())),
            after.is_expiry_of(stored, later),
            later >= now + lifetime * NANOS_PER_SEC,
        ensures
            !has_publisher(after.listing(topic), publisher),
            !after.deadlines().contains_key((topic, publisher)),
    {
        let f = |e: TopicEntry| stored.deadlines()[(topic, e.publisher)] > later;
        crate::seqs::lemma_keep(stored.listing(topic), f);
        let l = after.listing(topic);
        if has_publisher(l, publisher) {
            let i = choose|i: int| 0 <= i < l.len() && (#[trigger] l[i]).publisher == publisher;
            assert(l.contains(l[i]));
            assert(keep(stored.listing(topic), f).contains(l[i]));
            assert(f(l[i]));
        }
    }
}

} // verus!
