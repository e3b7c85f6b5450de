use vstd::prelude::*;
use crate::config::SystemConfig;
use crate::id::Id;
use crate::ktree::closest;
use crate::ktree::KTree;
use crate::search::BasicSearch;
use crate::search::BasicSearchOptions;
use crate::search::SearchResult;
use crate::search::SearchType;
use crate::seqs::keep;
use crate::storage::Error;
use crate::storage::Storage;
use crate::transport::Contact;
use crate::transport::RawResponse;
use crate::transport::Request;
use crate::transport::Response;
use crate::transport::TopicEntry;
use crate::transport::TransportError;
use crate::transport::TransportListener;
use crate::transport::TransportSender;

verus! {

/// Whether two runs of values have the same publishers and the same bytes,
/// value by value.
pub open spec fn same_entries(a: Seq<TopicEntry>, b: Seq<TopicEntry>) -> bool {
    &&& a.len() == b.len()
    &&& forall|i: int|
        0 <= i < a.len() ==> (#[trigger] a[i]).publisher == b[i].publisher && a[i].data@ == b[i].data@
}

/// The last `limit` of `entries`, or all of them if they are fewer.
pub open spec fn latest(entries: Seq<TopicEntry>, limit: int) -> Seq<TopicEntry> {
    if limit < entries.len() {
        entries.skip(entries.len() - limit)
    } else {
        entries
    }
}

/// `ids` but for `id`.
pub open spec fn others(ids: Seq<Id>, id: Id) -> Seq<Id> {
    keep(ids, |x: Id| x != id)
}

/// A copy of the values from index `from` on.
pub fn copy_entries(entries: &Vec<TopicEntry>, from: usize) -> (r: Vec<TopicEntry>)
    requires
        from <= entries@.len(),
    ensures
        same_entries(r@, entries@.skip(from as int)),
{
    let mut out: Vec<TopicEntry> = Vec::new();
    let mut i: usize = from;
    while i < entries.len()
        invariant
            from <= i <= entries@.len(),
            same_entries(out@, entries@.subrange(from as int, i as int)),
        decreases entries@.len() - i,
    {
        let source = &entries[i];
        let mut data: Vec<u8> = Vec::new();
        let mut j: usize = 0;
        while j < source.data.len()
            invariant
                j <= source.data@.len(),
                data@ == source.data@.take(j as int),
            decreases source.data@.len() - j,
        {
            data.push(source.data[j]);
            proof {
                assert(data@ =~= source.data@.take(j + 1));
            }
            j += 1;
        }
        proof {
            assert(source.data@.take(j as int) =~= source.data@);
        }
        out.push(TopicEntry { publisher: source.publisher, data });
        i += 1;
    }
    proof {
        assert(entries@.subrange(from as int, i as int) =~= entries@.skip(from as int));
    }
    out
}

/// The identifiers but for `id`, in their order.
pub fn without_id(ids: Vec<Id>, id: Id) -> (r: Vec<Id>)
    ensures
        r@ == others(ids@, id),
{
    let mut out: Vec<Id> = Vec::new();
    let mut i: usize = 0;
    while i < ids.len()
        invariant
            i <= ids@.len(),
            out@ == others(ids@.take(i as int), id),
        decreases ids@.len() - i,
    {
        proof {
            assert(ids@.take(i + 1).drop_last() =~= ids@.take(i as int));
        }
        if ids[i] != id {
            out.push(ids[i]);
        }
        i += 1;
    }
    proof {
        assert(ids@.take(i as int) =~= ids@);
    }
    out
}

/// How a lookup of values starts.
pub enum ValueQuery<C: Contact> {
    /// The node stores values under the topic: these are the answer.
    Local(Vec<TopicEntry>),
    /// The node stores none: the search to run.
    Search(BasicSearch<C>),
}

/// One node of the hash table: its routing table and its storage, and
/// what it decides on the requests of its peers and of its user.
pub struct KademliaDht<T: TransportSender> {
    config: SystemConfig,
    id: Id,
    transport: T,
    tree: KTree,
    storage: Storage,
}

impl<T: TransportSender> KademliaDht<T> {
    /// The settings of the node.
    pub closed spec fn settings(&self) -> SystemConfig {
        self.config
    }

    /// The identifier of the node.
    pub closed spec fn own_id(&self) -> Id {
        self.id
    }

    /// The routing table of the node.
    pub closed spec fn routing(&self) -> KTree {
        self.tree
    }

    /// The storage of the node.
    pub closed spec fn stored(&self) -> Storage {
        self.storage
    }

    /// The transport that the node was made with.
    pub closed spec fn sender(&self) -> T {
        self.transport
    }

    /// The routing table and the storage are well formed and belong to
    /// this node and its settings.
    pub open spec fn wf(&self) -> bool {
        &&& self.routing().wf()
        &&& self.stored().wf()
        &&& self.routing().own_id() == self.own_id()
        &&& self.routing().config() == self.settings().routing
        &&& self.stored().config() == self.settings().storage
    }

    /// Whether `search` starts from the contacts `bucket` of the routed
    /// peers closest to its target and from the contact `me` of the node
    /// itself: these are its window, in order, the peers waiting to be
    /// asked and the node counted as asked; and they are all it has met.
    pub open spec fn seeds_with(
        &self,
        search: BasicSearch<T::Contact>,
        bucket: Seq<T::Contact>,
        me: T::Contact,
    ) -> bool {
        &&& crate::search::contact_ids(bucket) == closest(
            self.routing().gather(search.target(), self.settings().routing.bucket_size as int),
            search.target(),
            self.settings().routing.bucket_size as int,
        )
        &&& me.spec_id() == self.own_id()
        &&& search.window() == crate::sort::stable_sort(
            crate::search::waiting(bucket).push((crate::search::QueryState::Queried, me)),
            crate::search::window_key::<T::Contact>(search.target()),
        )
        &&& search.queried() == crate::search::contact_ids(bucket).push(self.own_id())
    }

    /// Whether `search` starts from the routed peers closest to its target
    /// and from the node itself.
    pub open spec fn seeds(&self, search: BasicSearch<T::Contact>) -> bool {
        exists|bucket: Seq<T::Contact>, me: T::Contact| self.seeds_with(search, bucket, me)
    }

    /// A node with an empty routing table and an empty storage.
    pub fn new(config: SystemConfig, id: Id, transport: T) -> (r: Self)
        requires
            config.routing.valid(),
        ensures
            r.wf(),
            r.settings() == config,
            r.own_id() == id,
            r.sender() == transport,
            r.routing().count() == 0,
            r.stored().count() == 0,
    {
        KademliaDht {
            config,
            id,
            transport,
            tree: KTree::new(id, config.routing),
            storage: Storage::new(config.storage),
        }
    }

    pub fn config(&self) -> (r: &SystemConfig)
        ensures
            *r == self.settings(),
    {
        &self.config
    }

    pub fn id(&self) -> (r: Id)
        ensures
            r == self.own_id(),
    {
        self.id
    }

    /// The transport that the node was made with.
    pub fn transport(&self) -> (r: &T)
        ensures
            *r == self.sender(),
    {
        &self.transport
    }

    /// The routing table of the node.
    pub fn tree(&self) -> (r: &KTree)
        ensures
            *r == self.routing(),
    {
        &self.tree
    }

    /// The storage of the node.
    pub fn storage(&self) -> (r: &Storage)
        ensures
            *r == self.stored(),
    {
        &self.storage
    }

    /// Drops the values that have expired by now.
    pub fn periodic_run(&mut self)
        requires
            old(self).wf(),
        ensures
            final(self).wf(),
            final(self).settings() == old(self).settings(),
            final(self).own_id() == old(self).own_id(),
            final(self).sender() == old(self).sender(),
            final(self).routing() == old(self).routing(),
            exists|now: u128| final(self).stored().is_expiry_of(&old(self).stored(), now),
    {
        self.storage.periodic_run();
    }

    /// The contacts of the routed peers closest to `key`, closest first, as
    /// many as a bucket holds.
    pub fn get_closer_bucket(&self, key: Id) -> (r: Vec<T::Contact>)
        requires
            self.wf(),
        ensures
            crate::search::contact_ids(r@) == closest(
                self.routing().gather(key, self.settings().routing.bucket_size as int),
                key,
                self.settings().routing.bucket_size as int,
            ),
    {
        let ids = self.tree.get_closer_n(key, self.config.routing.bucket_size);
        let mut out: Vec<T::Contact> = Vec::new();
        let mut i: usize = 0;
        while i < ids.len()
            invariant
                i <= ids@.len(),
                out@.len() == i,
                crate::search::contact_ids(out@) == ids@.take(i as int),
            decreases ids@.len() - i,
        {
            let c = self.transport.wrap_contact(ids[i]);
            proof {
                let grown = crate::search::contact_ids(out@.push(c));
                assert forall|j: int| 0 <= j < i + 1 implies grown[j] == ids@.take(i + 1)[j] by {
                    if j < i {
                        assert(crate::search::contact_ids(out@)[j] == ids@.take(i as int)[j]);
                    }
                }
                assert(grown =~= ids@.take(i + 1));
            }
            out.push(c);
            i += 1;
        }
        proof {
            assert(ids@.take(i as int) =~= ids@);
        }
        out
    }

    /// Starts a search for the peers closest to `key`: from the closest
    /// peers routed through, with the node itself counted as asked.
    pub fn begin_query_nodes(&self, key: Id, options: BasicSearchOptions) -> (r: BasicSearch<T::Contact>)
        requires
            self.wf(),
        ensures
            r.wf(),
            r.options() == options,
            r.search_type() == SearchType::Nodes,
            r.target() == key,
            r.bucket_size() == self.settings().routing.bucket_size,
            r.in_flight() == 0,
            r.data().len() == 0,
            self.seeds(r),
    {
        let bucket = self.get_closer_bucket(key);
        let me = self.transport.wrap_contact(self.id);
        let r = BasicSearch::create(
            options,
            SearchType::Nodes,
            key,
            self.config.routing.bucket_size,
            bucket,
            me,
            Vec::new(),
        );
        proof {
            assert(self.seeds_with(r, bucket@, me));
        }
        r
    }

    /// Starts a lookup of the values under `key`: those that the node
    /// stores are the answer; if it stores none, a search for values, at
    /// most `max_entry_count` from each peer.
    pub fn begin_query_value(&self, key: Id, max_entry_count: u32, options: BasicSearchOptions) -> (r:
        ValueQuery<T::Contact>)
        requires
            self.wf(),
        ensures
            match r {
                ValueQuery::Local(entries) => self.stored().listing(key).len() > 0 && same_entries(
                    entries@,
                    self.stored().listing(key),
                ),
                ValueQuery::Search(search) => {
                    &&& self.stored().listing(key).len() == 0
                    &&& search.wf()
                    &&& search.options() == options
                    &&& search.search_type() == SearchType::Data(max_entry_count)
                    &&& search.target() == key
                    &&& search.bucket_size() == self.settings().routing.bucket_size
                    &&& search.in_flight() == 0
                    &&& search.data().len() == 0
                    &&& self.seeds(search)
                },
            },
    {
        match self.storage.get(key) {
            Some(entries) => {
                let copy = copy_entries(entries, 0);
                proof {
                    assert(entries@.skip(0) =~= entries@);
                }
                return ValueQuery::Local(copy);
            },
            None => {},
        }
        let bucket = self.get_closer_bucket(key);
        let me = self.transport.wrap_contact(self.id);
        let search = BasicSearch::create(
            options,
            SearchType::Data(max_entry_count),
            key,
            self.config.routing.bucket_size,
            bucket,
            me,
            Vec::new(),
        );
        proof {
            assert(self.seeds_with(search, bucket@, me));
        }
        ValueQuery::Search(search)
    }

    /// The peers that a search for peers found.
    pub fn end_query_nodes(result: SearchResult<T::Contact>) -> (r: Vec<T::Contact>)
        ensures
            r@ == match result {
                SearchResult::CloserNodes(nodes) => nodes@,
                SearchResult::DataFound(_) => Seq::empty(),
            },
    {
        match result {
            SearchResult::CloserNodes(nodes) => nodes,
            SearchResult::DataFound(_) => Vec::new(),
        }
    }

    /// The values that a search for values found, if it found any.
    pub fn end_query_value(result: SearchResult<T::Contact>) -> (r: Option<Vec<TopicEntry>>)
        ensures
            r == match result {
                SearchResult::CloserNodes(_) => None::<Vec<TopicEntry>>,
                SearchResult::DataFound(entries) => Some(entries),
            },
    {
        match result {
            SearchResult::CloserNodes(_) => None,
            SearchResult::DataFound(entries) => Some(entries),
        }
    }
}

/// What is left to do once a value was published or withdrawn at the
/// node itself: the request to send, and the peers to send it to.
pub struct Dispatch {
    /// One if the node itself took the request, else zero.
    pub local: usize,
    /// The peers to send the request to.
    pub recipients: Vec<Id>,
    pub request: Request,
}

/// What a node answers when asked for the peers closest to `topic` by
/// `sender`: the closest it routes through, but for the sender.
pub open spec fn found_nodes(tree: KTree, topic: Id, sender: Id) -> Seq<Id> {
    others(
        closest(tree.gather(topic, tree.config().bucket_size as int), topic, tree.config().bucket_size as int),
        sender,
    )
}

/// The number of answers that say the request was carried out.
pub open spec fn done_count(answers: Seq<Result<Response, TransportError>>) -> nat
    decreases answers.len(),
{
    if answers.len() == 0 {
        0
    } else {
        done_count(answers.drop_last()) + if answers.last() matches Ok(RawResponse::Done) {
            1nat
        } else {
            0nat
        }
    }
}

/// Counts the answers that say the request was carried out.
pub fn count_done(answers: &Vec<Result<Response, TransportError>>) -> (r: usize)
    ensures
        r == done_count(answers@),
{
    let mut count: usize = 0;
    let mut i: usize = 0;
    while i < answers.len()
        invariant
            i <= answers@.len(),
            count <= i,
            count == done_count(answers@.take(i as int)),
        decreases answers@.len() - i,
    {
        proof {
            assert(answers@.take(i + 1).drop_last() =~= answers@.take(i as int));
        }
        match &answers[i] {
            Ok(RawResponse::Done) => {
                count += 1;
            },
            _ => {},
        }
        i += 1;
    }
    proof {
        assert(answers@.take(i as int) =~= answers@);
    }
    count
}

fn copy_bytes(data: &Vec<u8>) -> (r: Vec<u8>)
    ensures
        r@ == data@,
{
    let mut out: Vec<u8> = Vec::new();
    let mut j: usize = 0;
    while j < data.len()
        invariant
            j <= data@.len(),
            out@ == data@.take(j as int),
        decreases data@.len() - j,
    {
        out.push(data[j]);
        proof {
            assert(out@ =~= data@.take(j + 1));
        }
        j += 1;
    }
    proof {
        assert(data@.take(j as int) =~= data@);
    }
    out
}

impl<T: TransportSender> KademliaDht<T> {
    fn recipients_of(&self, nodes: &Vec<T::Contact>) -> (r: (bool, Vec<Id>))
        ensures
            r.0 == crate::search::contact_ids(nodes@).contains(self.own_id()),
            r.1@ == others(crate::search::contact_ids(nodes@), self.own_id()),
    {
        let mut ids: Vec<Id> = Vec::new();
        let mut mine = false;
        let mut i: usize = 0;
        while i < nodes.len()
            invariant
                i <= nodes@.len(),
                ids@ == crate::search::contact_ids(nodes@).take(i as int),
                mine == ids@.contains(self.own_id()),
            decreases nodes@.len() - i,
        {
            let x = nodes[i].id();
            proof {
                let all = crate::search::contact_ids(nodes@);
                assert(all.take(i + 1) =~= all.take(i as int).push(x));
                if ids@.push(x).contains(self.own_id()) {
                    let w = choose|w: int| 0 <= w < i + 1 && ids@.push(x)[w] == self.own_id();
                    if w < i {
                        assert(ids@[w] == self.own_id());
                    }
                }
                if ids@.contains(self.own_id()) {
                    let w = choose|w: int| 0 <= w < i && ids@[w] == self.own_id();
                    assert(ids@.push(x)[w] == self.own_id());
                }
                if x == self.own_id() {
                    assert(ids@.push(x)[i as int] == self.own_id());
                }
            }
            if x == self.id {
                mine = true;
            }
            ids.push(x);
            i += 1;
        }
        proof {
            let all = crate::search::contact_ids(nodes@);
            assert(all.take(i as int) =~= all);
        }
        (mine, without_id(ids, self.id))
    }

    /// Whether a value of this size can be published for this lifetime at
    /// all, by the limits of this node.
    pub fn check_insert(&self, key: Id, lifetime: u32, value: &[u8]) -> (r: Result<(), Error>)
        ensures
            r == if value@.len() > self.settings().storage.max_size {
                Err::<(), Error>(Error::InvalidData)
            } else if lifetime > self.settings().storage.max_lifetime {
                Err::<(), Error>(Error::InvalidLifetime)
            } else {
                Ok::<(), Error>(())
            },
    {
        Storage::check_entry(&self.config.storage, key, self.id, lifetime, value)
    }

    /// Publishes `value` under `key` for `lifetime` seconds from the time
    /// `now`, once the closest peers `nodes` are found: the node stores
    /// the value itself if it is among them, and the others are to be sent
    /// the request.
    pub fn insert_at(&mut self, now: u128, key: Id, lifetime: u32, value: Vec<u8>, nodes: &Vec<T::Contact>) -> (r:
        Dispatch)
        requires
            old(self).wf(),
        ensures
            final(self).wf(),
            final(self).settings() == old(self).settings(),
            final(self).own_id() == old(self).own_id(),
            final(self).sender() == old(self).sender(),
            final(self).routing() == old(self).routing(),
            r.recipients@ == others(crate::search::contact_ids(nodes@), old(self).own_id()),
            r.request matches Request::Insert(topic, seconds, data) && topic == key && seconds == lifetime
                && data@ == value@,
            if crate::search::contact_ids(nodes@).contains(old(self).own_id()) {
                exists|answer: Result<(), Error>|
                    final(self).stored().is_insert_of(
                        &old(self).stored(),
                        now,
                        key,
                        old(self).own_id(),
                        lifetime,
                        value,
                        answer,
                    ) && r.local == if answer is Ok {
                        1usize
                    } else {
                        0usize
                    }
            } else {
                final(self).stored() == old(self).stored() && r.local == 0
            },
    {
        let (mine, recipients) = self.recipients_of(nodes);
        let copy = copy_bytes(&value);
        let mut local: usize = 0;
        if mine {
            let answer = self.storage.insert_at(now, key, self.id, lifetime, value);
            match answer {
                Ok(_) => {
                    local = 1;
                },
                Err(_) => {},
            }
        }
        Dispatch { local, recipients, request: Request::Insert(key, lifetime, copy) }
    }

    /// Publishes `value` under `key` for `lifetime` seconds from now, once
    /// the closest peers `nodes` are found.
    pub fn insert(&mut self, key: Id, lifetime: u32, value: Vec<u8>, nodes: &Vec<T::Contact>) -> (r:
        Dispatch)
        requires
            old(self).wf(),
        ensures
            final(self).wf(),
            final(self).settings() == old(self).settings(),
            final(self).own_id() == old(self).own_id(),
            final(self).sender() == old(self).sender(),
            final(self).routing() == old(self).routing(),
            r.recipients@ == others(crate::search::contact_ids(nodes@), old(self).own_id()),
            r.request matches Request::Insert(topic, seconds, data) && topic == key && seconds == lifetime
                && data@ == value@,
            !crate::search::contact_ids(nodes@).contains(old(self).own_id()) ==> final(self).stored()
                == old(self).stored() && r.local == 0,
            crate::search::contact_ids(nodes@).contains(old(self).own_id()) ==> exists|
                now: u128,
                answer: Result<(), Error>,
            |
                final(self).stored().is_insert_of(
                    &old(self).stored(),
                    now,
                    key,
                    old(self).own_id(),
                    lifetime,
                    value,
                    answer,
                ) && r.local == if answer is Ok {
                    1usize
                } else {
                    0usize
                },
    {
        let now = self.storage.now();
        self.insert_at(now, key, lifetime, value, nodes)
    }

    /// Withdraws the node's value from `key`, once the closest peers
    /// `nodes` are found: at the node itself if it is among them, and the
    /// others are to be sent the request.
    pub fn remove(&mut self, key: Id, nodes: &Vec<T::Contact>) -> (r: Dispatch)
        requires
            old(self).wf(),
        ensures
            final(self).wf(),
            final(self).settings() == old(self).settings(),
            final(self).own_id() == old(self).own_id(),
            final(self).sender() == old(self).sender(),
            final(self).routing() == old(self).routing(),
            r.recipients@ == others(crate::search::contact_ids(nodes@), old(self).own_id()),
            r.request == Request::Remove(key),
            if crate::search::contact_ids(nodes@).contains(old(self).own_id()) {
                final(self).stored().is_remove_of(&old(self).stored(), key, old(self).own_id())
                    && r.local == 1
            } else {
                final(self).stored() == old(self).stored() && r.local == 0
            },
    {
        let (mine, recipients) = self.recipients_of(nodes);
        let mut local: usize = 0;
        if mine {
            self.storage.remove(key, self.id);
            local = 1;
        }
        Dispatch { local, recipients, request: Request::Remove(key) }
    }

    /// The targets of the searches by which a node that has found its
    /// closest peers makes itself known: none if `nodes` names no peer
    /// besides the node; else, for each bit before the first in which the
    /// node differs from its closest peer, from the last one down, an
    /// identifier that agrees with the node's before that bit, differs
    /// in it, and is random behind it.
    pub fn bootstrap_targets(&self, nodes: &Vec<T::Contact>) -> (r: Vec<Id>)
        ensures
            nodes@.len() < 2 ==> r@.len() == 0,
            nodes@.len() >= 2 ==> {
                let shared = self.own_id().spec_xor(nodes@[1].spec_id()).spec_leading_zeros() as int;
                &&& r@.len() == shared
                &&& forall|n: int, i: int|
                    #![trigger r@[n].bit(i)]
                    0 <= n < shared && 0 <= i <= shared - 1 - n ==> r@[n].bit(i) == if i < shared - 1
                        - n {
                        self.own_id().bit(i)
                    } else {
                        !self.own_id().bit(i)
                    }
            },
    {
        let mut out: Vec<Id> = Vec::new();
        if nodes.len() < 2 {
            return out;
        }
        let sibling = nodes[1].id();
        let shared: u8 = (self.id ^ sibling).leading_zeros();
        proof {
            self.id.spec_xor(sibling).lemma_leading_zeros();
        }
        let mut bucket: u8 = shared;
        while bucket > 0
            invariant
                bucket <= shared <= 160,
                out@.len() == shared - bucket,
                forall|n: int, i: int|
                    #![trigger out@[n].bit(i)]
                    0 <= n < out@.len() && 0 <= i <= shared - 1 - n ==> out@[n].bit(i) == if i < shared
                        - 1 - n {
                        self.id.bit(i)
                    } else {
                        !self.id.bit(i)
                    },
            decreases bucket,
        {
            bucket -= 1;
            let target = Id::bootstrap_target(self.id, bucket, Id::random());
            out.push(target);
        }
        out
    }
}

impl<T: TransportSender> KademliaDht<T> {
    /// Whether this node is `before` after it has answered `r` to the
    /// request `message` of the peer `sender` at the time `now`. The
    /// sender counts as seen. Asked for peers, the node names the closest
    /// it routes through, but for the sender; asked for values, the latest
    /// it stores under the topic, or else peers as before; a value is
    /// stored for the sender if the limits allow; the sender's value is
    /// withdrawn.
    pub open spec fn is_answer_of(
        &self,
        before: &Self,
        now: u128,
        sender: Id,
        message: Request,
        r: Response,
    ) -> bool {
        &&& self.settings() == before.settings()
        &&& self.own_id() == before.own_id()
        &&& self.sender() == before.sender()
        &&& self.routing().is_refresh_of(&before.routing(), sender)
        &&& match message {
            Request::FindNodes(topic) => {
                &&& self.stored() == before.stored()
                &&& r matches RawResponse::FoundNodes(found)
                &&& found@ == found_nodes(self.routing(), topic, sender)
            },
            Request::FindData(topic, limit) => {
                &&& self.stored() == before.stored()
                &&& before.stored().listing(topic).len() > 0 ==> (r matches RawResponse::FoundData(
                    entries,
                ) && same_entries(entries@, latest(before.stored().listing(topic), limit as int)))
                &&& before.stored().listing(topic).len() == 0 ==> (r matches RawResponse::FoundNodes(
                    found,
                ) && found@ == found_nodes(self.routing(), topic, sender))
            },
            Request::Insert(topic, lifetime, data) => {
                exists|answer: Result<(), Error>|
                    self.stored().is_insert_of(
                        &before.stored(),
                        now,
                        topic,
                        sender,
                        lifetime,
                        data,
                        answer,
                    ) && if answer is Ok {
                        r is Done
                    } else {
                        r is Error
                    }
            },
            Request::Remove(topic) => {
                &&& self.stored().is_remove_of(&before.stored(), topic, sender)
                &&& r is Done
            },
        }
    }

    /// Answers the request of the peer `sender` at the time `now`. The
    /// sender counts as seen. Asked for peers, the node names the closest
    /// it routes through, but for the sender; asked for values, the latest
    /// it stores under the topic, or else peers as before; a value is
    /// stored for the sender if the limits allow; the sender's value is
    /// withdrawn.
    pub fn on_request_at(&mut self, now: u128, sender: Id, message: Request) -> (r: Response)
        requires
            old(self).wf(),
        ensures
            final(self).wf(),
            final(self).is_answer_of(old(self), now, sender, message, r),
    {
        self.tree.refresh(sender);
        match message {
            Request::FindNodes(topic) => {
                let found = self.tree.get_closer_n(topic, self.config.routing.bucket_size);
                RawResponse::FoundNodes(without_id(found, sender))
            },
            Request::FindData(topic, limit) => {
                match self.storage.get(topic) {
                    Some(entries) => {
                        let skip: usize = if (limit as usize) < entries.len() {
                            entries.len() - limit as usize
                        } else {
                            0
                        };
                        proof {
                            assert(entries@.skip(0) =~= entries@);
                        }
                        RawResponse::FoundData(copy_entries(entries, skip))
                    },
                    None => {
                        let found = self.tree.get_closer_n(topic, self.config.routing.bucket_size);
                        RawResponse::FoundNodes(without_id(found, sender))
                    },
                }
            },
            Request::Insert(topic, lifetime, data) => {
                match self.storage.insert_at(now, topic, sender, lifetime, data) {
                    Ok(_) => RawResponse::Done,
                    Err(_) => RawResponse::Error,
                }
            },
            Request::Remove(topic) => {
                self.storage.remove(topic, sender);
                RawResponse::Done
            },
        }
    }
}

impl<T: TransportSender> TransportListener for KademliaDht<T> {
    open spec fn listening(&self) -> bool {
        self.wf()
    }

    /// A peer has connected: it is offered to the routing table.
    fn on_connect(&mut self, id: Id) -> (r: bool)
        ensures
            final(self).settings() == old(self).settings(),
            final(self).own_id() == old(self).own_id(),
            final(self).sender() == old(self).sender(),
            final(self).stored() == old(self).stored(),
            final(self).routing().is_insert_of(&old(self).routing(), id, r),
    {
        self.tree.insert(id, &self.transport)
    }

    /// A peer has gone: it leaves the routing table.
    fn on_disconnect(&mut self, id: Id)
        ensures
            final(self).settings() == old(self).settings(),
            final(self).own_id() == old(self).own_id(),
            final(self).sender() == old(self).sender(),
            final(self).stored() == old(self).stored(),
            final(self).routing().is_remove_of(&old(self).routing(), id),
    {
        self.tree.remove(id);
    }

    /// Answers the request of the peer `sender`, as `on_request_at` does at
    /// the time now.
    fn on_request(&mut self, sender: Id, request: Request) -> (r: Response)
        ensures
            exists|now: u128| final(self).is_answer_of(old(self), now, sender, request, r),
    {
        let now = self.storage.now();
        self.on_request_at(now, sender, request)
    }
}

} // verus!
