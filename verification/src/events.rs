use vstd::prelude::*;
use crate::id::Id;

verus! {

/// Why a connection ended.
#[derive(Clone, Copy, Debug, PartialEq, Eq, Structural)]
pub enum DisconnectReason {
    ConnectionLost,
    /// The connection was half closed and made room for a new one.
    HalfCloseReplace,
    /// Both ends had half closed.
    HalfCloseBoth,
    BadBehavior,
    TimeoutExpired,
    SendFail,
    ProtocolVersionMismatch,
    /// The node is shutting down.
    ShuttingDown,
}

impl DisconnectReason {
    /// The words that describe the reason.
    pub fn message(&self) -> (r: &'static str)
        ensures
            r@ == match self {
                DisconnectReason::ConnectionLost => "connection lost"@,
                DisconnectReason::HalfCloseReplace => "half closen replaced"@,
                DisconnectReason::HalfCloseBoth => "both half closen"@,
                DisconnectReason::BadBehavior => "bad behavior"@,
                DisconnectReason::TimeoutExpired => "timeout expired"@,
                DisconnectReason::SendFail => "message sending failed"@,
                DisconnectReason::ProtocolVersionMismatch => "protocol version mismatch"@,
                DisconnectReason::ShuttingDown => "DHT is shutting down"@,
            },
    {
        match self {
            DisconnectReason::ConnectionLost => "connection lost",
            DisconnectReason::HalfCloseReplace => "half closen replaced",
            DisconnectReason::HalfCloseBoth => "both half closen",
            DisconnectReason::BadBehavior => "bad behavior",
            DisconnectReason::TimeoutExpired => "timeout expired",
            DisconnectReason::SendFail => "message sending failed",
            DisconnectReason::ProtocolVersionMismatch => "protocol version mismatch",
            DisconnectReason::ShuttingDown => "DHT is shutting down",
        }
    }

    /// Whether a bootstrap peer that was lost for this reason is to be
    /// reached again: the connection broke, it was not given up.
    pub open spec fn calls_for_retry(self) -> bool {
        self is ConnectionLost || self is SendFail || self is TimeoutExpired
    }

    /// Whether a bootstrap peer that was lost for this reason is to be
    /// reached again.
    pub fn should_reconnect(&self) -> (r: bool)
        ensures
            r == self.calls_for_retry(),
    {
        match self {
            DisconnectReason::ConnectionLost => true,
            DisconnectReason::SendFail => true,
            DisconnectReason::TimeoutExpired => true,
            _ => false,
        }
    }
}

/// What the transport reports to those who listen, but for the channels
/// that peers open.
#[derive(Clone, Copy, Debug, PartialEq, Eq)]
pub enum TransportEvent {
    Connect(Id),
    Disconnect(Id, DisconnectReason),
    Shutdown,
}

/// The longest wait between two attempts to reach a bootstrap address, in
/// seconds.
pub const MAX_EXPONENTIAL_BACKOFF_SECS: u64 = 300;

/// Nanoseconds in a second.
pub const NANOS_PER_SEC: u32 = 1_000_000_000;

/// The wait that follows a wait of `wait_secs` seconds: twice as long, but
/// five minutes at most.
pub open spec fn spec_next_wait(wait_secs: u64) -> u64 {
    if wait_secs >= 150 {
        300
    } else {
        (2 * wait_secs) as u64
    }
}

/// The wait that follows a wait of `wait_secs` seconds.
pub fn next_wait(wait_secs: u64) -> (r: u64)
    ensures
        r == spec_next_wait(wait_secs),
        r <= MAX_EXPONENTIAL_BACKOFF_SECS,
{
    if wait_secs >= MAX_EXPONENTIAL_BACKOFF_SECS / 2 {
        MAX_EXPONENTIAL_BACKOFF_SECS
    } else {
        wait_secs * 2
    }
}

/// `Rng::gen_range` of the `rand` crate, on the generator of the thread: a
/// number below `bound`.
#[verifier::external_body]
fn random_below(bound: u32) -> (r: u32)
    requires
        bound > 0,
    ensures
        r < bound,
{
    rand::Rng::gen_range(&mut rand::thread_rng(), 0..bound)
}

/// How long to sleep before the next attempt after a wait of `wait_secs`
/// seconds: the next wait in seconds, and less than a second more, in
/// nanoseconds, drawn at random.
pub fn backoff_delay(wait_secs: u64) -> (r: (u64, u32))
    ensures
        r.0 == spec_next_wait(wait_secs),
        r.1 < NANOS_PER_SEC,
{
    (next_wait(wait_secs), random_below(NANOS_PER_SEC))
}

/// Which bootstrap address each bootstrap peer was reached at, so that a
/// peer that is lost can be reached again.
pub struct Reconnector {
    id_to_index: Vec<(Id, usize)>,
}

/// The address index recorded for `id`, if any: the first among
/// `entries`.
pub open spec fn index_of(entries: Seq<(Id, usize)>, id: Id) -> Option<usize>
    decreases entries.len(),
{
    if entries.len() == 0 {
        None
    } else if entries[0].0 == id {
        Some(entries[0].1)
    } else {
        index_of(entries.drop_first(), id)
    }
}

impl Reconnector {
    /// The address index recorded for each peer, where a peer occurs once.
    pub closed spec fn entries(&self) -> Seq<(Id, usize)> {
        self.id_to_index@
    }

    /// The address index recorded for the peer `id`, if any.
    pub open spec fn recorded(&self, id: Id) -> Option<usize> {
        index_of(self.entries(), id)
    }

    /// A reconnector that knows no peer.
    pub fn new() -> (r: Reconnector)
        ensures
            forall|id: Id| r.recorded(id) is None,
    {
        Reconnector { id_to_index: Vec::new() }
    }

    fn find(&self, id: Id) -> (r: usize)
        ensures
            r <= self.id_to_index@.len(),
            r < self.id_to_index@.len() ==> self.id_to_index@[r as int].0 == id && index_of(
                self.id_to_index@,
                id,
            ) == Some(self.id_to_index@[r as int].1),
            r == self.id_to_index@.len() ==> index_of(self.id_to_index@, id) is None,
            forall|j: int| 0 <= j < r ==> (#[trigger] self.id_to_index@[j]).0 != id,
    {
        let mut i: usize = 0;
        while i < self.id_to_index.len()
            invariant
                i <= self.id_to_index@.len(),
                forall|j: int| 0 <= j < i ==> (#[trigger] self.id_to_index@[j]).0 != id,
            decreases self.id_to_index@.len() - i,
        {
            if self.id_to_index[i].0 == id {
                proof {
                    lemma_index_of(self.id_to_index@, id, i as int);
                }
                return i;
            }
            i += 1;
        }
        proof {
            lemma_index_of(self.id_to_index@, id, i as int);
        }
        i
    }

    /// Notes that the bootstrap address `index` led to the peer `id`.
    pub fn on_connected(&mut self, id: Id, index: usize)
        ensures
            final(self).recorded(id) == Some(index),
            forall|other: Id| other != id ==> final(self).recorded(other) == old(self).recorded(other),
    {
        let i = self.find(id);
        if i < self.id_to_index.len() {
            self.id_to_index[i] = (id, index);
        } else {
            self.id_to_index.push((id, index));
        }
        proof {
            let before = old(self).id_to_index@;
            let after = self.id_to_index@;
            lemma_index_of(after, id, i as int);
            assert forall|other: Id| other != id implies index_of(after, other) == index_of(
                before,
                other,
            ) by {
                lemma_index_of_elsewhere(before, after, id, other);
            }
        }
    }

    /// The bootstrap address to reach again when the peer `id` was lost
    /// for `reason`, if it is a bootstrap peer and the connection broke.
    pub fn on_disconnect(&self, id: Id, reason: DisconnectReason) -> (r: Option<usize>)
        ensures
            r == if reason.calls_for_retry() {
                self.recorded(id)
            } else {
                None
            },
    {
        if !reason.should_reconnect() {
            return None;
        }
        let i = self.find(id);
        if i < self.id_to_index.len() {
            Some(self.id_to_index[i].1)
        } else {
            None
        }
    }

    /// The bootstrap address to reach again after the event, if any.
    pub fn on_event(&self, event: TransportEvent) -> (r: Option<usize>)
        ensures
            r == match event {
                TransportEvent::Disconnect(id, reason) => if reason.calls_for_retry() {
                    self.recorded(id)
                } else {
                    None
                },
                _ => None,
            },
    {
        match event {
            TransportEvent::Disconnect(id, reason) => self.on_disconnect(id, reason),
            _ => None,
        }
    }
}

proof fn lemma_index_of(entries: Seq<(Id, usize)>, id: Id, i: int)
    requires
        0 <= i <= entries.len(),
        forall|j: int| 0 <= j < i ==> (#[trigger] entries[j]).0 != id,
        i < entries.len() ==> entries[i].0 == id,
    ensures
        index_of(entries, id) == if i < entries.len() {
            Some(entries[i].1)
        } else {
            None
        },
    decreases entries.len(),
{
    if entries.len() > 0 && i > 0 {
        assert(entries[0].0 != id);
        let rest = entries.drop_first();
        assert forall|j: int| 0 <= j < i - 1 implies (#[trigger] rest[j]).0 != id by {
            assert(rest[j] == entries[j + 1]);
        }
        lemma_index_of(rest, id, i - 1);
    }
}

proof fn lemma_index_of_elsewhere(before: Seq<(Id, usize)>, after: Seq<(Id, usize)>, id: Id, other: Id)
    requires
        other != id,
        after.len() >= before.len(),
        forall|j: int| 0 <= j < before.len() ==> (#[trigger] after[j]) == before[j] || (after[j].0 == id
            && before[j].0 == id),
        forall|j: int| before.len() <= j < after.len() ==> (#[trigger] after[j]).0 == id,
    ensures
        index_of(after, other) == index_of(before, other),
    decreases after.len(),
{
    if before.len() == 0 {
        if after.len() > 0 {
            assert(after[0].0 == id);
            let rest = after.drop_first();
            assert forall|j: int| 0 <= j < rest.len() implies (#[trigger] rest[j]).0 == id by {
                assert(rest[j] == after[j + 1]);
            }
            lemma_index_of_elsewhere(before, rest, id, other);
        }
    } else {
        let b = before.drop_first();
        let a = after.drop_first();
        assert(after[0] == before[0] || (after[0].0 == id && before[0].0 == id));
        assert forall|j: int| 0 <= j < b.len() implies (#[trigger] a[j]) == b[j] || (a[j].0 == id
            && b[j].0 == id) by {
            assert(a[j] == after[j + 1]);
            assert(b[j] == before[j + 1]);
        }
        assert forall|j: int| b.len() <= j < a.len() implies (#[trigger] a[j]).0 == id by {
            assert(a[j] == after[j + 1]);
        }
        lemma_index_of_elsewhere(b, a, id, other);
    }
}

} // verus!
