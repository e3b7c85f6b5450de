use vstd::prelude::*;
use crate::id::Id;
use crate::kbucket::lemma_position;
use crate::kbucket::position;
use crate::sort::lemma_stable_sort;
use crate::sort::sort_by_key;
use crate::sort::sorted;
use crate::sort::stable_sort;
use crate::transport::Contact;
use crate::transport::RawResponse;
use crate::transport::Request;
use crate::transport::TopicEntry;
use crate::transport::TransportError;

verus! {

/// How a search is run.
#[derive(Clone, Copy, Debug, PartialEq, Eq, Structural)]
pub struct BasicSearchOptions {
    /// Number of peers asked at the same time (`alpha`).
    pub parallelism: u32,
}

/// How far the search has got with one peer of its window.
#[derive(Clone, Copy, Debug, PartialEq, Eq, Structural)]
pub enum QueryState {
    Waiting,
    Querying,
    Queried,
}

/// What a search looks for.
#[derive(Clone, Copy, Debug, PartialEq, Eq, Structural)]
pub enum SearchType {
    /// The peers closest to the target.
    Nodes,
    /// The values stored under the target, at most so many from each peer.
    Data(u32),
}

/// What a search found.
pub enum SearchResult<C> {
    CloserNodes(Vec<C>),
    DataFound(Vec<TopicEntry>),
}

/// The key by which the window of a search is ordered: the fewer leading
/// bits a peer shares with the target, the larger.
pub open spec fn window_key<C: Contact>(target: Id) -> spec_fn((QueryState, C)) -> int {
    |e: (QueryState, C)| 160 - target.spec_xor(e.1.spec_id()).spec_leading_zeros()
}

/// The identifiers of contacts.
pub open spec fn contact_ids<C: Contact>(contacts: Seq<C>) -> Seq<Id> {
    contacts.map_values(|c: C| c.spec_id())
}

/// The identifiers of the peers of a window.
pub open spec fn window_ids<C: Contact>(window: Seq<(QueryState, C)>) -> Seq<Id> {
    window.map_values(|e: (QueryState, C)| e.1.spec_id())
}

/// The contacts as peers that wait to be asked.
pub open spec fn waiting<C: Contact>(contacts: Seq<C>) -> Seq<(QueryState, C)> {
    contacts.map_values(|c: C| (QueryState::Waiting, c))
}

/// The request that a search of this kind sends.
pub open spec fn request_for(search_type: SearchType, target: Id) -> Request {
    match search_type {
        SearchType::Nodes => Request::FindNodes(target),
        SearchType::Data(limit) => Request::FindData(target, limit),
    }
}

/// The index of the first peer of the window that waits to be asked, or the
/// length of the window.
pub open spec fn first_waiting<C: Contact>(window: Seq<(QueryState, C)>) -> int
    decreases window.len(),
{
    if window.len() == 0 {
        0
    } else if window[0].0 == QueryState::Waiting {
        0
    } else {
        1 + first_waiting(window.drop_first())
    }
}

/// The window once its first waiting peer is being asked.
pub open spec fn started<C: Contact>(window: Seq<(QueryState, C)>) -> Seq<(QueryState, C)> {
    let i = first_waiting(window);
    if i < window.len() {
        window.update(i, (QueryState::Querying, window[i].1))
    } else {
        window
    }
}

/// The window, and the peers asked, once up to `n` waiting peers are being
/// asked, the first of the window first.
pub open spec fn launched<C: Contact>(window: Seq<(QueryState, C)>, n: int) -> (
    Seq<(QueryState, C)>,
    Seq<Id>,
)
    decreases n,
{
    let i = first_waiting(window);
    if n <= 0 || i >= window.len() {
        (window, Seq::empty())
    } else {
        let (w, ids) = launched(started(window), n - 1);
        (w, seq![window[i].1.spec_id()] + ids)
    }
}

/// The window once the peer `id` has answered: the first entry of that
/// peer counts as asked.
pub open spec fn answered<C: Contact>(window: Seq<(QueryState, C)>, id: Id) -> Seq<(QueryState, C)> {
    let i = position(window_ids(window), id);
    if i < window.len() {
        window.update(i, (QueryState::Queried, window[i].1))
    } else {
        window
    }
}

/// The contacts among `nodes` that the search has not met, each once and in
/// their order, and the identifiers met once they are added.
pub open spec fn absorbed<C: Contact>(nodes: Seq<C>, seen: Seq<Id>) -> (Seq<C>, Seq<Id>)
    decreases nodes.len(),
{
    if nodes.len() == 0 {
        (Seq::empty(), seen)
    } else {
        let (kept, met) = absorbed(nodes.drop_last(), seen);
        let id = nodes.last().spec_id();
        if met.contains(id) {
            (kept, met)
        } else {
            (kept.push(nodes.last()), met.push(id))
        }
    }
}

/// The window cut down to `k` peers.
pub open spec fn cut<C: Contact>(window: Seq<(QueryState, C)>, k: int) -> Seq<(QueryState, C)> {
    if k < window.len() {
        window.take(k)
    } else {
        window
    }
}

/// The publishers of values.
pub open spec fn publishers(entries: Seq<TopicEntry>) -> Seq<Id> {
    entries.map_values(|e: TopicEntry| e.publisher)
}

/// The values with `entry` in place of the value of the same publisher, or
/// added if the publisher had none.
pub open spec fn merged(entries: Seq<TopicEntry>, entry: TopicEntry) -> Seq<TopicEntry> {
    let i = position(publishers(entries), entry.publisher);
    if i < entries.len() {
        entries.update(i, entry)
    } else {
        entries.push(entry)
    }
}

/// The values with each of `more` merged in, one after the other.
pub open spec fn merged_all(entries: Seq<TopicEntry>, more: Seq<TopicEntry>) -> Seq<TopicEntry>
    decreases more.len(),
{
    if more.len() == 0 {
        entries
    } else {
        merged(merged_all(entries, more.drop_last()), more.last())
    }
}

/// Whether every peer of the window was asked.
pub open spec fn all_queried<C: Contact>(window: Seq<(QueryState, C)>) -> bool {
    forall|i: int| 0 <= i < window.len() ==> (#[trigger] window[i]).0 == QueryState::Queried
}

proof fn lemma_first_waiting<C: Contact>(window: Seq<(QueryState, C)>, i: int)
    requires
        0 <= i <= window.len(),
        forall|j: int| 0 <= j < i ==> (#[trigger] window[j]).0 != QueryState::Waiting,
        i < window.len() ==> window[i].0 == QueryState::Waiting,
    ensures
        first_waiting(window) == i,
    decreases window.len(),
{
    if window.len() > 0 && i > 0 {
        assert(window[0].0 != QueryState::Waiting);
        let rest = window.drop_first();
        assert forall|j: int| 0 <= j < i - 1 implies (#[trigger] rest[j]).0 != QueryState::Waiting by {
            assert(rest[j] == window[j + 1]);
        }
        lemma_first_waiting(rest, i - 1);
    }
}

/// Changing how far the search has got with a peer moves no peer.
proof fn lemma_same_keys<C: Contact>(
    before: Seq<(QueryState, C)>,
    after: Seq<(QueryState, C)>,
    target: Id,
)
    requires
        before.len() == after.len(),
        forall|i: int| 0 <= i < before.len() ==> (#[trigger] after[i]).1 == before[i].1,
    ensures
        sorted(before, window_key::<C>(target)) ==> sorted(after, window_key::<C>(target)),
        window_ids(after) == window_ids(before),
{
    let key = window_key::<C>(target);
    assert(window_ids(after) =~= window_ids(before));
    if sorted(before, key) {
        assert forall|i: int, j: int| 0 <= i < j < after.len() implies key(after[i]) <= key(
            after[j],
        ) by {
            assert(key(before[i]) <= key(before[j]));
            assert(after[i].1 == before[i].1);
            assert(after[j].1 == before[j].1);
        }
    }
}

/// The first of a sorted sequence is the first of the unsorted one, or has
/// a smaller key.
pub proof fn lemma_sort_head<T>(s: Seq<T>, key: spec_fn(T) -> int)
    requires
        s.len() > 0,
    ensures
        stable_sort(s, key).len() == s.len(),
        stable_sort(s, key)[0] == s[0] || key(stable_sort(s, key)[0]) < key(s[0]),
    decreases s.len(),
{
    lemma_stable_sort(s, key);
    let front = s.drop_last();
    if front.len() > 0 {
        lemma_sort_head(front, key);
        lemma_stable_sort(front, key);
        crate::sort::lemma_upper(stable_sort(front, key), s.last(), key);
    }
}

/// One iterative search for the peers closest to a target, or for the
/// values stored under it. The search keeps a window of the closest peers
/// it knows, asks a few of them at a time, takes in the peers they name,
/// and is over when every peer of the window was asked.
pub struct BasicSearch<C: Contact> {
    options: BasicSearchOptions,
    search_type: SearchType,
    target_id: Id,
    bucket_size: usize,
    to_query: Vec<(QueryState, C)>,
    queried: Vec<Id>,
    data_entries: Vec<TopicEntry>,
    in_flight: u32,
}

impl<C: Contact> BasicSearch<C> {
    pub closed spec fn options(&self) -> BasicSearchOptions {
        self.options
    }

    pub closed spec fn search_type(&self) -> SearchType {
        self.search_type
    }

    pub closed spec fn target(&self) -> Id {
        self.target_id
    }

    /// The number of peers that the window is cut down to.
    pub closed spec fn bucket_size(&self) -> usize {
        self.bucket_size
    }

    /// The window: the closest peers known, closest first.
    pub closed spec fn window(&self) -> Seq<(QueryState, C)> {
        self.to_query@
    }

    /// The identifiers that the search has met.
    pub closed spec fn queried(&self) -> Seq<Id> {
        self.queried@
    }

    /// The values collected, one for each publisher.
    pub closed spec fn data(&self) -> Seq<TopicEntry> {
        self.data_entries@
    }

    /// The number of requests that wait for their answer.
    pub closed spec fn in_flight(&self) -> u32 {
        self.in_flight
    }

    /// The window is in order and no more requests are under way than the
    /// options allow.
    pub open spec fn wf(&self) -> bool {
        &&& sorted(self.window(), window_key::<C>(self.target()))
        &&& self.in_flight() <= self.options().parallelism
    }

    /// Everything but the window and the requests under way is as in
    /// `other`.
    pub open spec fn same_setting(&self, other: &Self) -> bool {
        &&& self.options() == other.options()
        &&& self.search_type() == other.search_type()
        &&& self.target() == other.target()
        &&& self.bucket_size() == other.bucket_size()
    }

    fn sort_bucket(&self, bucket: Vec<(QueryState, C)>) -> (r: Vec<(QueryState, C)>)
        ensures
            r@ == stable_sort(bucket@, window_key::<C>(self.target())),
    {
        let target = self.target_id;
        let leq = |a: &(QueryState, C), b: &(QueryState, C)| -> (le: bool)
            ensures
                le == (window_key::<C>(target)(*a) <= window_key::<C>(target)(*b)),
            {
                let za = (target ^ a.1.id()).leading_zeros();
                let zb = (target ^ b.1.id()).leading_zeros();
                za >= zb
            };
        sort_by_key(bucket, leq, Ghost(window_key::<C>(target)))
    }

    /// A search for `target_id` that starts from the contacts of
    /// `first_bucket` and the node itself, which counts as asked; a search
    /// for values starts with the values in `local`.
    pub fn create(
        options: BasicSearchOptions,
        search_type: SearchType,
        target_id: Id,
        bucket_size: usize,
        first_bucket: Vec<C>,
        self_contact: C,
        local: Vec<TopicEntry>,
    ) -> (r: Self)
        ensures
            r.wf(),
            r.options() == options,
            r.search_type() == search_type,
            r.target() == target_id,
            r.bucket_size() == bucket_size,
            r.in_flight() == 0,
            r.window() == stable_sort(
                waiting(first_bucket@).push((QueryState::Queried, self_contact)),
                window_key::<C>(target_id),
            ),
            r.queried() == contact_ids(first_bucket@).push(self_contact.spec_id()),
            r.data() == if search_type is Data {
                merged_all(Seq::empty(), local@)
            } else {
                Seq::empty()
            },
    {
        let mut queried: Vec<Id> = Vec::new();
        let mut window: Vec<(QueryState, C)> = Vec::new();
        let ghost whole = first_bucket@;
        let mut rest = first_bucket;
        proof {
            assert(contact_ids(whole.take(0)) =~= Seq::<Id>::empty());
            assert(waiting(whole.take(0)) =~= Seq::<(QueryState, C)>::empty());
            assert(whole.skip(0) =~= whole);
        }
        let ghost mut done: int = 0;
        while rest.len() > 0
            invariant
                0 <= done <= whole.len(),
                rest@ == whole.skip(done),
                queried@ == contact_ids(whole.take(done)),
                window@ == waiting(whole.take(done)),
            decreases rest@.len(),
        {
            let c = rest.remove(0);
            queried.push(c.id());
            window.push((QueryState::Waiting, c));
            proof {
                assert(whole.take(done + 1) =~= whole.take(done).push(c));
                assert(contact_ids(whole.take(done + 1)) =~= contact_ids(whole.take(done)).push(
                    c.spec_id(),
                ));
                assert(waiting(whole.take(done + 1)) =~= waiting(whole.take(done)).push(
                    (QueryState::Waiting, c),
                ));
                assert(rest@ =~= whole.skip(done + 1));
                done = done + 1;
            }
        }
        proof {
            assert(whole.take(done) =~= whole);
        }
        queried.push(self_contact.id());
        window.push((QueryState::Queried, self_contact));
        let mut search = BasicSearch {
            options,
            search_type,
            target_id,
            bucket_size,
            to_query: Vec::new(),
            queried,
            data_entries: Vec::new(),
            in_flight: 0,
        };
        let ordered = search.sort_bucket(window);
        proof {
            lemma_stable_sort(window@, window_key::<C>(target_id));
        }
        search.to_query = ordered;
        match search_type {
            SearchType::Data(_) => {
                search.merge_data(local);
            },
            SearchType::Nodes => {},
        }
        search
    }

    /// Merges the values into those collected: a value replaces the one
    /// that its publisher had.
    fn merge_data(&mut self, more: Vec<TopicEntry>)
        ensures
            final(self).data() == merged_all(old(self).data(), more@),
            final(self).window() == old(self).window(),
            final(self).queried() == old(self).queried(),
            final(self).in_flight() == old(self).in_flight(),
            final(self).same_setting(old(self)),
    {
        let ghost whole = more@;
        let mut rest = more;
        let ghost mut done: int = 0;
        proof {
            assert(whole.skip(0) =~= whole);
            assert(whole.take(0) =~= Seq::<TopicEntry>::empty());
        }
        while rest.len() > 0
            invariant
                0 <= done <= whole.len(),
                rest@ == whole.skip(done),
                self.data_entries@ == merged_all(old(self).data_entries@, whole.take(done)),
                self.to_query == old(self).to_query,
                self.queried == old(self).queried,
                self.in_flight == old(self).in_flight,
                self.same_setting(old(self)),
            decreases rest@.len(),
        {
            let entry = rest.remove(0);
            let ghost before = self.data_entries@;
            let mut i: usize = 0;
            while i < self.data_entries.len() && self.data_entries[i].publisher != entry.publisher
                invariant
                    i <= self.data_entries@.len(),
                    self.data_entries@ == before,
                    forall|j: int| 0 <= j < i ==> (#[trigger] before[j]).publisher != entry.publisher,
                decreases self.data_entries@.len() - i,
            {
                i += 1;
            }
            proof {
                assert forall|j: int| 0 <= j < i implies publishers(before)[j] != entry.publisher by {
                    assert(before[j].publisher != entry.publisher);
                }
                lemma_position(publishers(before), entry.publisher, i as int);
                assert(whole.take(done + 1).drop_last() =~= whole.take(done));
                assert(whole.take(done + 1).last() == entry);
            }
            if i < self.data_entries.len() {
                self.data_entries[i] = entry;
            } else {
                self.data_entries.push(entry);
            }
            proof {
                assert(rest@ =~= whole.skip(done + 1));
                done = done + 1;
            }
        }
        proof {
            assert(whole.take(done) =~= whole);
        }
    }

    /// Picks the closest peer that waits to be asked, if there is one, and
    /// gives the request to send to it.
    fn start_query(&mut self) -> (r: Option<(Id, Request)>)
        requires
            old(self).wf(),
            old(self).in_flight() < old(self).options().parallelism,
        ensures
            final(self).wf(),
            final(self).same_setting(old(self)),
            final(self).queried() == old(self).queried(),
            final(self).data() == old(self).data(),
            final(self).window() == started(old(self).window()),
            window_ids(final(self).window()) == window_ids(old(self).window()),
            r is Some <==> first_waiting(old(self).window()) < old(self).window().len(),
            r matches Some((id, request)) ==> id == old(self).window()[first_waiting(
                old(self).window(),
            )].1.spec_id() && request == request_for(old(self).search_type(), old(self).target())
                && final(self).in_flight() == old(self).in_flight() + 1,
            r is None ==> final(self).in_flight() == old(self).in_flight(),
    {
        let mut i: usize = 0;
        while i < self.to_query.len()
            invariant
                i <= self.to_query@.len(),
                self.to_query@ == old(self).to_query@,
                forall|j: int| 0 <= j < i ==> (#[trigger] self.to_query@[j]).0 != QueryState::Waiting,
            ensures
                i < self.to_query@.len() ==> self.to_query@[i as int].0 == QueryState::Waiting,
            decreases self.to_query@.len() - i,
        {
            match self.to_query[i].0 {
                QueryState::Waiting => {
                    break ;
                },
                _ => {},
            }
            i += 1;
        }
        proof {
            lemma_first_waiting(self.to_query@, i as int);
        }
        if i >= self.to_query.len() {
            proof {
                lemma_same_keys(old(self).window(), self.window(), self.target());
            }
            return None;
        }
        self.to_query[i].0 = QueryState::Querying;
        self.in_flight += 1;
        let used_id = self.to_query[i].1.id();
        let message = match self.search_type {
            SearchType::Nodes => Request::FindNodes(self.target_id),
            SearchType::Data(limit) => Request::FindData(self.target_id, limit),
        };
        proof {
            assert(self.to_query@ =~= started(old(self).window()));
            lemma_same_keys(old(self).window(), self.window(), self.target());
        }
        Some((used_id, message))
    }

    /// Asks waiting peers, closest first, until as many requests are under
    /// way as the options allow or no peer waits. Returns the requests to
    /// send, each with the peer to send it to.
    pub fn launch(&mut self) -> (r: Vec<(Id, Request)>)
        requires
            old(self).wf(),
        ensures
            final(self).wf(),
            final(self).same_setting(old(self)),
            final(self).queried() == old(self).queried(),
            final(self).data() == old(self).data(),
            window_ids(final(self).window()) == window_ids(old(self).window()),
            final(self).window() == launched(
                old(self).window(),
                old(self).options().parallelism - old(self).in_flight(),
            ).0,
            r@.map_values(|q: (Id, Request)| q.0) == launched(
                old(self).window(),
                old(self).options().parallelism - old(self).in_flight(),
            ).1,
            forall|i: int|
                0 <= i < r@.len() ==> (#[trigger] r@[i]).1 == request_for(
                    old(self).search_type(),
                    old(self).target(),
                ),
            final(self).in_flight() == old(self).in_flight() + r@.len(),
    {
        let mut out: Vec<(Id, Request)> = Vec::new();
        let ghost first = old(self).window();
        let ghost room = old(self).options().parallelism - old(self).in_flight();
        proof {
            assert(out@.map_values(|q: (Id, Request)| q.0) =~= Seq::<Id>::empty());
        }
        while self.in_flight < self.options.parallelism
            invariant
                self.wf(),
                self.same_setting(old(self)),
                self.queried() == old(self).queried(),
                self.data() == old(self).data(),
                window_ids(self.window()) == window_ids(first),
                self.in_flight() == old(self).in_flight() + out@.len(),
                forall|i: int|
                    0 <= i < out@.len() ==> (#[trigger] out@[i]).1 == request_for(
                        old(self).search_type(),
                        old(self).target(),
                    ),
                room == old(self).options().parallelism - old(self).in_flight(),
                first == old(self).window(),
                launched(first, room).0 == launched(self.window(), room - out@.len()).0,
                launched(first, room).1 == out@.map_values(|q: (Id, Request)| q.0) + launched(
                    self.window(),
                    room - out@.len(),
                ).1,
            ensures
                self.wf(),
                self.same_setting(old(self)),
                self.queried() == old(self).queried(),
                self.data() == old(self).data(),
                window_ids(self.window()) == window_ids(first),
                self.in_flight() == old(self).in_flight() + out@.len(),
                forall|i: int|
                    0 <= i < out@.len() ==> (#[trigger] out@[i]).1 == request_for(
                        old(self).search_type(),
                        old(self).target(),
                    ),
                launched(first, room).0 == self.window(),
                launched(first, room).1 == out@.map_values(|q: (Id, Request)| q.0),
            decreases self.options.parallelism - self.in_flight,
        {
            let ghost before = self.window();
            let ghost sent = out@;
            match self.start_query() {
                None => {
                    proof {
                        assert(sent.map_values(|q: (Id, Request)| q.0) + Seq::<Id>::empty()
                            =~= sent.map_values(|q: (Id, Request)| q.0));
                    }
                    break ;
                },
                Some(query) => {
                    out.push(query);
                    proof {
                        let i = first_waiting(before);
                        assert(out@.map_values(|q: (Id, Request)| q.0) =~= sent.map_values(
                            |q: (Id, Request)| q.0,
                        ).push(query.0));
                        assert(sent.map_values(|q: (Id, Request)| q.0) + (seq![before[i].1.spec_id()]
                            + launched(self.window(), room - out@.len()).1) =~= out@.map_values(
                            |q: (Id, Request)| q.0,
                        ) + launched(self.window(), room - out@.len()).1);
                    }
                },
            }
        }
        proof {
            if self.in_flight >= self.options.parallelism {
                assert(out@.map_values(|q: (Id, Request)| q.0) + Seq::<Id>::empty()
                    =~= out@.map_values(|q: (Id, Request)| q.0));
            }
        }
        out
    }

    /// Whether every peer of the window was asked: the search is over.
    pub fn is_done(&self) -> (r: bool)
        ensures
            r == all_queried(self.window()),
    {
        let mut i: usize = 0;
        while i < self.to_query.len()
            invariant
                i <= self.to_query@.len(),
                forall|j: int| 0 <= j < i ==> (#[trigger] self.to_query@[j]).0 == QueryState::Queried,
            decreases self.to_query@.len() - i,
        {
            match self.to_query[i].0 {
                QueryState::Queried => {},
                _ => {
                    return false;
                },
            }
            i += 1;
        }
        true
    }
}

fn knows(ids: &Vec<Id>, id: Id) -> (r: bool)
    ensures
        r == ids@.contains(id),
{
    let mut i: usize = 0;
    while i < ids.len()
        invariant
            i <= ids@.len(),
            forall|j: int| 0 <= j < i ==> ids@[j] != id,
        decreases ids@.len() - i,
    {
        if ids[i] == id {
            return true;
        }
        i += 1;
    }
    false
}

/// The contacts of the peers of a window.
pub open spec fn contacts<C: Contact>(window: Seq<(QueryState, C)>) -> Seq<C> {
    window.map_values(|e: (QueryState, C)| e.1)
}

/// The window after the peer `id` has named `nodes`: the peer counts as
/// asked, the contacts not met before wait to be asked, and the `k`
/// closest peers stay.
pub open spec fn widened<C: Contact>(
    window: Seq<(QueryState, C)>,
    id: Id,
    nodes: Seq<C>,
    seen: Seq<Id>,
    target: Id,
    k: int,
) -> Seq<(QueryState, C)> {
    cut(
        stable_sort(
            answered(window, id) + waiting(absorbed(nodes, seen).0),
            window_key::<C>(target),
        ),
        k,
    )
}

impl<C: Contact> BasicSearch<C> {
    /// Takes in the answer of the peer `id`, or the failure to get one. The
    /// peer counts as asked. Peers that it names and that the search has
    /// not met join the window, which is put in order and cut down to the
    /// closest; then waiting peers are asked as far as the options allow.
    /// Values that it sends are merged into those collected, in a search
    /// for values. Returns the requests to send, each with the peer to
    /// send it to.
    ///
    /// The peer at the head of the window never gets farther from the
    /// target.
    pub fn on_response(&mut self, id: Id, res: Result<RawResponse<C>, TransportError>) -> (r: Vec<
        (Id, Request),
    >)
        requires
            old(self).wf(),
        ensures
            final(self).wf(),
            final(self).same_setting(old(self)),
            ({
                let flight: int = if old(self).in_flight() > 0 {
                    old(self).in_flight() - 1
                } else {
                    0
                };
                let room = old(self).options().parallelism - flight;
                match res {
                    Ok(RawResponse::FoundNodes(nodes)) => {
                        let next = widened(
                            old(self).window(),
                            id,
                            nodes@,
                            old(self).queried(),
                            old(self).target(),
                            old(self).bucket_size() as int,
                        );
                        &&& final(self).window() == launched(next, room).0
                        &&& r@.map_values(|q: (Id, Request)| q.0) == launched(next, room).1
                        &&& final(self).queried() == absorbed(nodes@, old(self).queried()).1
                        &&& final(self).data() == old(self).data()
                        &&& final(self).in_flight() == flight + r@.len()
                    },
                    Ok(RawResponse::FoundData(entries)) => {
                        &&& final(self).window() == answered(old(self).window(), id)
                        &&& r@.len() == 0
                        &&& final(self).queried() == old(self).queried()
                        &&& final(self).data() == if old(self).search_type() is Data {
                            merged_all(old(self).data(), entries@)
                        } else {
                            old(self).data()
                        }
                        &&& final(self).in_flight() == flight
                    },
                    _ => {
                        &&& final(self).window() == answered(old(self).window(), id)
                        &&& r@.len() == 0
                        &&& final(self).queried() == old(self).queried()
                        &&& final(self).data() == old(self).data()
                        &&& final(self).in_flight() == flight
                    },
                }
            }),
            forall|i: int|
                0 <= i < r@.len() ==> (#[trigger] r@[i]).1 == request_for(
                    old(self).search_type(),
                    old(self).target(),
                ),
            old(self).window().len() > 0 && final(self).window().len() > 0 ==> old(self).target().distance(
                final(self).window()[0].1.spec_id(),
            ) <= old(self).target().distance(old(self).window()[0].1.spec_id()),
    {
        if self.in_flight > 0 {
            self.in_flight -= 1;
        }
        let mut i: usize = 0;
        while i < self.to_query.len() && self.to_query[i].1.id() != id
            invariant
                i <= self.to_query@.len(),
                self.to_query@ == old(self).to_query@,
                forall|j: int| 0 <= j < i ==> (#[trigger] self.to_query@[j]).1.spec_id() != id,
            decreases self.to_query@.len() - i,
        {
            i += 1;
        }
        proof {
            let ids = window_ids(self.to_query@);
            assert forall|j: int| 0 <= j < i implies ids[j] != id by {
                assert(self.to_query@[j].1.spec_id() != id);
            }
            lemma_position(ids, id, i as int);
        }
        if i < self.to_query.len() {
            self.to_query[i].0 = QueryState::Queried;
        }
        let ghost marked = self.to_query@;
        proof {
            assert(marked =~= answered(old(self).window(), id));
            lemma_same_keys(old(self).window(), marked, self.target());
        }
        match res {
            Ok(RawResponse::FoundNodes(nodes)) => {
                let ghost whole = nodes@;
                let ghost seen = old(self).queried();
                let mut rest = nodes;
                let ghost mut done: int = 0;
                proof {
                    assert(whole.skip(0) =~= whole);
                    assert(whole.take(0) =~= Seq::<C>::empty());
                    assert(marked + waiting(Seq::<C>::empty()) =~= marked);
                }
                while rest.len() > 0
                    invariant
                        0 <= done <= whole.len(),
                        rest@ == whole.skip(done),
                        self.to_query@ == marked + waiting(absorbed(whole.take(done), seen).0),
                        self.queried@ == absorbed(whole.take(done), seen).1,
                        self.same_setting(old(self)),
                        self.data() == old(self).data(),
                        self.in_flight() <= self.options().parallelism,
                        self.in_flight() == if old(self).in_flight() > 0 {
                            old(self).in_flight() - 1
                        } else {
                            0
                        },
                    decreases rest@.len(),
                {
                    let c = rest.remove(0);
                    let cid = c.id();
                    proof {
                        assert(whole.take(done + 1).drop_last() =~= whole.take(done));
                        assert(whole.take(done + 1).last() == c);
                    }
                    if !knows(&self.queried, cid) {
                        self.queried.push(cid);
                        proof {
                            let kept = absorbed(whole.take(done), seen).0;
                            assert(waiting(kept.push(c)) =~= waiting(kept).push(
                                (QueryState::Waiting, c),
                            ));
                            assert(marked + waiting(kept.push(c)) =~= (marked + waiting(kept)).push(
                                (QueryState::Waiting, c),
                            ));
                        }
                        self.to_query.push((QueryState::Waiting, c));
                    }
                    proof {
                        assert(rest@ =~= whole.skip(done + 1));
                        done = done + 1;
                    }
                }
                proof {
                    assert(whole.take(done) =~= whole);
                }
                let mut window: Vec<(QueryState, C)> = Vec::new();
                core::mem::swap(&mut window, &mut self.to_query);
                let ghost joined = window@;
                let mut ordered = self.sort_bucket(window);
                ordered.truncate(self.bucket_size);
                self.to_query = ordered;
                proof {
                    let key = window_key::<C>(self.target());
                    let all = stable_sort(joined, key);
                    lemma_stable_sort(joined, key);
                    assert(self.to_query@ =~= cut(all, self.bucket_size as int));
                    assert forall|a: int, b: int| 0 <= a < b < self.to_query@.len() implies key(
                        self.to_query@[a],
                    ) <= key(self.to_query@[b]) by {
                        assert(key(all[a]) <= key(all[b]));
                    }
                }
                let ghost next = self.to_query@;
                let out = self.launch();
                proof {
                    if old(self).window().len() > 0 && self.window().len() > 0 {
                        let key = window_key::<C>(self.target());
                        let all = stable_sort(joined, key);
                        lemma_sort_head(joined, key);
                        let head = self.window()[0].1.spec_id();
                        let was = old(self).window()[0].1.spec_id();
                        assert(window_ids(self.window())[0] == head);
                        assert(window_ids(next)[0] == next[0].1.spec_id());
                        assert(next[0] == all[0]);
                        assert(joined[0] == marked[0]);
                        assert(marked[0].1 == old(self).window()[0].1);
                        if all[0] != joined[0] {
                            Id::lemma_more_zeros_is_smaller(
                                self.target().spec_xor(head),
                                self.target().spec_xor(was),
                            );
                        }
                    }
                }
                out
            },
            Ok(RawResponse::FoundData(entries)) => {
                match self.search_type {
                    SearchType::Data(_) => {
                        self.merge_data(entries);
                    },
                    SearchType::Nodes => {},
                }
                proof {
                    if old(self).window().len() > 0 {
                        assert(marked[0].1 == old(self).window()[0].1);
                    }
                }
                Vec::new()
            },
            _ => {
                proof {
                    if old(self).window().len() > 0 {
                        assert(marked[0].1 == old(self).window()[0].1);
                    }
                }
                Vec::new()
            },
        }
    }

    /// What the search found: in a search for values, the values collected
    /// if there are any; else the peers of the window, closest first.
    pub fn finish(self) -> (r: SearchResult<C>)
        ensures
            match r {
                SearchResult::DataFound(entries) => self.search_type() is Data && self.data().len() > 0
                    && entries@ == self.data(),
                SearchResult::CloserNodes(nodes) => !(self.search_type() is Data && self.data().len()
                    > 0) && nodes@ == contacts(self.window()),
            },
    {
        let has_data = self.data_entries.len() > 0;
        match self.search_type {
            SearchType::Data(_) => {
                if has_data {
                    return SearchResult::DataFound(self.data_entries);
                }
            },
            SearchType::Nodes => {},
        }
        let ghost whole = self.to_query@;
        let mut rest = self.to_query;
        let mut nodes: Vec<C> = Vec::new();
        let ghost mut done: int = 0;
        proof {
            assert(whole.skip(0) =~= whole);
            assert(contacts(whole.take(0)) =~= Seq::<C>::empty());
        }
        while rest.len() > 0
            invariant
                0 <= done <= whole.len(),
                rest@ == whole.skip(done),
                nodes@ == contacts(whole.take(done)),
            decreases rest@.len(),
        {
            let entry = rest.remove(0);
            nodes.push(entry.1);
            proof {
                assert(whole.take(done + 1) =~= whole.take(done).push(entry));
                assert(contacts(whole.take(done + 1)) =~= contacts(whole.take(done)).push(entry.1));
                assert(rest@ =~= whole.skip(done + 1));
                done = done + 1;
            }
        }
        proof {
            assert(whole.take(done) =~= whole);
        }
        SearchResult::CloserNodes(nodes)
    }
}

} // verus!
