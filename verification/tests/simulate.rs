use std::collections::VecDeque;

use wdht::config::SystemConfig;
use wdht::dht::{count_done, KademliaDht, ValueQuery};
use wdht::id::Id;
use wdht::search::{BasicSearch, BasicSearchOptions, SearchResult};
use wdht::transport::{
    RawResponse, Request, Response, TopicEntry, TransportError, TransportListener, TransportSender,
};

/// A transport whose contacts are bare identifiers and which never pings.
#[derive(Clone)]
struct Wire;

impl TransportSender for Wire {
    type Contact = Id;

    fn ping(&self, _id: &Id) {}

    fn wrap_contact(&self, id: Id) -> Id {
        id
    }
}

struct Net {
    nodes: Vec<KademliaDht<Wire>>,
}

impl Net {
    fn new(ids: &[Id], config: SystemConfig) -> Net {
        Net { nodes: ids.iter().map(|id| KademliaDht::new(config, *id, Wire)).collect() }
    }

    fn index(&self, id: Id) -> usize {
        self.nodes.iter().position(|n| n.id() == id).unwrap()
    }

    fn connect(&mut self, a: usize, b: usize) {
        let (ia, ib) = (self.nodes[a].id(), self.nodes[b].id());
        self.nodes[a].on_connect(ib);
        self.nodes[b].on_connect(ia);
    }

    fn send(&mut self, from: usize, to: Id, request: Request) -> Result<Response, TransportError> {
        let sender = self.nodes[from].id();
        let target = self.index(to);
        let response = self.nodes[target].on_request(sender, request);
        if let RawResponse::FoundNodes(ids) = &response {
            for id in ids {
                let named = self.index(*id);
                if named != from {
                    self.connect(from, named);
                }
            }
        }
        Ok(response)
    }

    fn run(&mut self, from: usize, mut search: BasicSearch<Id>) -> SearchResult<Id> {
        let mut pending: VecDeque<(Id, Request)> = search.launch().into();
        while let Some((to, request)) = pending.pop_front() {
            let response = self.send(from, to, request);
            pending.extend(search.on_response(to, response));
            if search.is_done() {
                break;
            }
        }
        search.finish()
    }

    fn query_nodes(&mut self, from: usize, key: Id, options: BasicSearchOptions) -> Vec<Id> {
        let search = self.nodes[from].begin_query_nodes(key, options);
        KademliaDht::<Wire>::end_query_nodes(self.run(from, search))
    }

    fn query_value(&mut self, from: usize, key: Id, options: BasicSearchOptions) -> Option<Vec<TopicEntry>> {
        match self.nodes[from].begin_query_value(key, 16, options) {
            ValueQuery::Local(entries) => Some(entries),
            ValueQuery::Search(search) => KademliaDht::<Wire>::end_query_value(self.run(from, search)),
        }
    }

    fn insert(&mut self, from: usize, key: Id, lifetime: u32, value: Vec<u8>) -> usize {
        self.nodes[from].check_insert(key, lifetime, &value).unwrap();
        let nodes = self.query_nodes(from, key, BasicSearchOptions { parallelism: 2 });
        let dispatch = self.nodes[from].insert(key, lifetime, value, &nodes);
        let mut answers = Vec::new();
        for to in dispatch.recipients.iter() {
            answers.push(self.send(from, *to, dispatch.request.clone()));
        }
        dispatch.local + count_done(&answers)
    }

    fn remove(&mut self, from: usize, key: Id) -> usize {
        let nodes = self.query_nodes(from, key, BasicSearchOptions { parallelism: 2 });
        let dispatch = self.nodes[from].remove(key, &nodes);
        let mut answers = Vec::new();
        for to in dispatch.recipients.iter() {
            answers.push(self.send(from, *to, dispatch.request.clone()));
        }
        dispatch.local + count_done(&answers)
    }
}

#[test]
fn simulate_simple() {
    let config: SystemConfig = Default::default();
    let aid = Id::from_hex("aa");
    let bid = Id::from_hex("ba");
    let mut net = Net::new(&[aid, bid], config);
    // Connect b to a (and vice-versa)
    net.connect(1, 0);
    // Ask a to find b
    let res = net.query_nodes(0, bid, BasicSearchOptions { parallelism: 1 });
    assert_eq!(res, vec![bid, aid]);
}

#[test]
fn simulate_10() {
    let config: SystemConfig = Default::default();
    let search_options = BasicSearchOptions { parallelism: 2 };
    let ids = [
        "aaaaaaaa", "aaaabbbb", "aaaa0000", "aaaa4444", "4444aaaa", "44441234", "cafebabe",
        "89abcdef", "12345678", "31415fab",
    ]
    .into_iter()
    .map(|x| Id::from_hex(x))
    .collect::<Vec<_>>();
    let mut net = Net::new(&ids, config);

    // "aaaaaaaa" is the rendezvous node
    for i in 1..ids.len() {
        net.connect(i, 0);
        net.query_nodes(i, ids[i], search_options);
    }

    // Node-querying test
    let target = Id::from_hex("123456ff"); // Note: this node does not exist
    let found = net.query_nodes(4, target, search_options);
    let mut expected = ids.iter().map(|x| (*x ^ target).leading_zeros()).collect::<Vec<_>>();
    expected.sort_by_key(|x| std::cmp::Reverse(*x));
    expected.truncate(config.routing.bucket_size);
    assert_eq!(
        found.iter().map(|x| (*x ^ target).leading_zeros()).collect::<Vec<_>>(),
        expected
    );

    // Insertion test
    let data = vec![3u8, 1, 4, 1, 5];
    let d = net.insert(4, target, 4, data.clone());
    assert_eq!(d, config.routing.bucket_size); // There should be no insertion errors
    let found = net.query_value(9, target, search_options);
    assert_eq!(found, Some(vec![TopicEntry { publisher: ids[4], data: data.clone() }]));

    // Withdrawing reaches the same nodes
    assert_eq!(net.remove(4, target), config.routing.bucket_size);
    assert_eq!(net.query_value(9, target, search_options), None);
}

#[test]
fn requests_are_answered() {
    let config: SystemConfig = Default::default();
    let ids = ["a0", "a1", "a2", "b0"].into_iter().map(|x| Id::from_hex(x)).collect::<Vec<_>>();
    let mut node = KademliaDht::new(config, ids[0], Wire);
    assert!(node.on_connect(ids[1]));
    assert!(node.on_connect(ids[2]));
    assert!(!node.on_connect(ids[2]));
    assert!(!node.on_connect(ids[0]));
    // peers closest to a1, but for the sender
    assert_eq!(
        node.on_request(ids[2], Request::FindNodes(ids[1])),
        RawResponse::FoundNodes(vec![ids[1]])
    );
    assert_eq!(
        node.on_request(ids[1], Request::FindData(ids[3], 1)),
        RawResponse::FoundNodes(vec![ids[2]])
    );
    assert_eq!(node.on_request_at(0, ids[1], Request::Insert(ids[3], 10, vec![1])), RawResponse::Done);
    assert_eq!(node.on_request_at(0, ids[2], Request::Insert(ids[3], 10, vec![2])), RawResponse::Done);
    assert_eq!(
        node.on_request_at(0, ids[2], Request::Insert(ids[3], 3601, vec![2])),
        RawResponse::Error
    );
    // the latest values only
    assert_eq!(
        node.on_request(ids[1], Request::FindData(ids[3], 1)),
        RawResponse::FoundData(vec![TopicEntry { publisher: ids[2], data: vec![2] }])
    );
    assert_eq!(
        node.on_request(ids[1], Request::FindData(ids[3], 5)),
        RawResponse::FoundData(vec![
            TopicEntry { publisher: ids[1], data: vec![1] },
            TopicEntry { publisher: ids[2], data: vec![2] },
        ])
    );
    assert_eq!(node.on_request(ids[1], Request::Remove(ids[3])), RawResponse::Done);
    assert_eq!(node.storage().entry_count(), 1);
    node.on_disconnect(ids[1]);
    assert!(!node.tree().has(ids[1]));
    node.periodic_run();
    assert_eq!(node.storage().entry_count(), 1);
}

#[test]
fn bootstrap_targets_walk_the_buckets() {
    let config: SystemConfig = Default::default();
    let own = Id::from_hex("ff00000000000000000000000000000000000000");
    let sibling = Id::from_hex("ff10000000000000000000000000000000000000");
    let node = KademliaDht::new(config, own, Wire);
    assert_eq!(node.bootstrap_targets(&vec![own]), Vec::<Id>::new());
    let targets = node.bootstrap_targets(&vec![own, sibling]);
    assert_eq!(targets.len(), 11);
    for (n, target) in targets.iter().enumerate() {
        assert_eq!((own ^ *target).leading_zeros() as usize, 10 - n);
    }
}

#[test]
fn search_window_never_recedes() {
    let target = Id::from_hex("0f");
    let far = Id::from_hex("f000");
    let near = Id::from_hex("0e");
    let own = Id::from_hex("ff0000");
    let mut search = BasicSearch::create(
        BasicSearchOptions { parallelism: 1 },
        wdht::search::SearchType::Nodes,
        target,
        2,
        vec![far],
        own,
        Vec::new(),
    );
    assert_eq!(search.launch(), vec![(far, Request::FindNodes(target))]);
    assert!(!search.is_done());
    // the answer names a closer peer, which is asked next; the window is cut to two
    assert_eq!(
        search.on_response(far, Ok(RawResponse::FoundNodes(vec![near, far, near]))),
        vec![(near, Request::FindNodes(target))]
    );
    assert_eq!(search.on_response(near, Err(TransportError::ContactLost)), vec![]);
    assert!(search.is_done());
    match search.finish() {
        SearchResult::CloserNodes(nodes) => assert_eq!(nodes, vec![near, far]),
        SearchResult::DataFound(_) => panic!("a search for peers finds no values"),
    }
}

#[test]
fn search_for_values_merges_by_publisher() {
    let target = Id::from_hex("0f");
    let (a, b) = (Id::from_hex("01"), Id::from_hex("02"));
    let own = Id::from_hex("ff0000");
    let mut search = BasicSearch::create(
        BasicSearchOptions { parallelism: 2 },
        wdht::search::SearchType::Data(3),
        target,
        4,
        vec![a, b],
        own,
        Vec::new(),
    );
    let asked = search.launch();
    assert_eq!(asked.len(), 2);
    assert_eq!(asked[0].1, Request::FindData(target, 3));
    let first = vec![
        TopicEntry { publisher: a, data: vec![1] },
        TopicEntry { publisher: b, data: vec![2] },
    ];
    assert_eq!(search.on_response(asked[0].0, Ok(RawResponse::FoundData(first))), vec![]);
    let second = vec![TopicEntry { publisher: a, data: vec![3] }];
    assert_eq!(search.on_response(asked[1].0, Ok(RawResponse::FoundData(second))), vec![]);
    assert!(search.is_done());
    match search.finish() {
        SearchResult::DataFound(entries) => assert_eq!(
            entries,
            vec![
                TopicEntry { publisher: a, data: vec![3] },
                TopicEntry { publisher: b, data: vec![2] },
            ]
        ),
        SearchResult::CloserNodes(_) => panic!("values were found"),
    }
}
