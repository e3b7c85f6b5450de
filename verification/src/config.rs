use vstd::prelude::*;

verus! {

/// Settings of the routing table.
#[derive(Clone, Copy, PartialEq, Eq, Debug)]
pub struct RoutingConfig {
    /// Number of identifiers that a bucket routes through (`k`).
    pub bucket_size: usize,
    /// Number of identifiers that a bucket keeps aside as replacements.
    pub bucket_replacement_size: usize,
    /// Number of leading bits by which a distance class is split into
    /// buckets; the table grows exponentially with it.
    pub buckets_per_bit: usize,
    /// Largest number of identifiers in the whole table, if limited.
    pub max_routing_count: Option<u64>,
}

impl RoutingConfig {
    /// The settings that a routing table can be built from: a distance
    /// class is split by at least one and at most nine bits.
    pub open spec fn valid(&self) -> bool {
        1 <= self.buckets_per_bit <= 9
    }

    /// Whether a routing table can be built from these settings.
    pub fn is_valid(&self) -> (r: bool)
        ensures
            r == self.valid(),
    {
        1 <= self.buckets_per_bit && self.buckets_per_bit <= 9
    }
}

impl Default for RoutingConfig {
    fn default() -> (r: Self)
        ensures
            r.bucket_size == 4,
            r.bucket_replacement_size == 2,
            r.buckets_per_bit == 1,
            r.max_routing_count is None,
    {
        RoutingConfig {
            bucket_size: 4,
            bucket_replacement_size: 2,
            buckets_per_bit: 1,
            max_routing_count: None,
        }
    }
}

/// Limits of the topic storage.
#[derive(Clone, Copy, PartialEq, Eq, Debug)]
pub struct StorageConfig {
    /// Largest size of one stored value, in bytes.
    pub max_size: usize,
    /// Longest lifetime of one stored value, in seconds.
    pub max_lifetime: u32,
    /// Largest number of stored values.
    pub max_entries: usize,
}

impl Default for StorageConfig {
    fn default() -> (r: Self)
        ensures
            r.max_size == 128 * 1024,
            r.max_lifetime == 3600,
            r.max_entries == 1024,
    {
        StorageConfig { max_size: 128 * 1024, max_lifetime: 60 * 60, max_entries: 1024 }
    }
}

/// Settings of routing and storage together.
#[derive(Clone, Copy, PartialEq, Eq, Debug)]
pub struct SystemConfig {
    pub routing: RoutingConfig,
    pub storage: StorageConfig,
}

impl Default for SystemConfig {
    fn default() -> (r: Self)
        ensures
            r.routing.bucket_size == 4,
            r.routing.bucket_replacement_size == 2,
            r.routing.buckets_per_bit == 1,
            r.routing.max_routing_count is None,
            r.storage.max_size == 128 * 1024,
            r.storage.max_lifetime == 3600,
            r.storage.max_entries == 1024,
    {
        SystemConfig { routing: RoutingConfig::default(), storage: StorageConfig::default() }
    }
}

/// Settings of the transport overlay.
#[derive(Clone, PartialEq, Eq, Debug)]
pub struct TransportConfig {
    /// Addresses of the STUN servers handed to the channel primitive.
    pub stun_servers: Vec<String>,
    /// Largest number of connections, if limited.
    pub max_connections: Option<u64>,
}

impl Default for TransportConfig {
    fn default() -> (r: Self)
        ensures
            r.stun_servers@.len() == 0,
            r.max_connections is None,
    {
        TransportConfig { stun_servers: Vec::new(), max_connections: None }
    }
}

/// Settings of the channel primitive.
#[derive(Clone, Debug)]
pub struct RtcConfig {
    ice_servers: Vec<String>,
}

impl RtcConfig {
    /// The addresses of the servers that help two ends find each other.
    pub closed spec fn servers(&self) -> Seq<String> {
        self.ice_servers@
    }

    /// Settings with the servers at these addresses.
    pub fn new(ice_servers: &[String]) -> (r: RtcConfig)
        ensures
            r.servers().len() == ice_servers@.len(),
            forall|i: int| 0 <= i < ice_servers@.len() ==> (#[trigger] r.servers()[i])@ == ice_servers@[i]@,
    {
        let mut copy: Vec<String> = Vec::new();
        let mut i: usize = 0;
        while i < ice_servers.len()
            invariant
                i <= ice_servers@.len(),
                copy@.len() == i,
                forall|j: int| 0 <= j < i ==> (#[trigger] copy@[j])@ == ice_servers@[j]@,
            decreases ice_servers@.len() - i,
        {
            copy.push(ice_servers[i].clone());
            i += 1;
        }
        RtcConfig { ice_servers: copy }
    }

    /// The addresses of the servers.
    pub fn ice_servers(&self) -> (r: &Vec<String>)
        ensures
            r@ == self.servers(),
    {
        &self.ice_servers
    }
}

} // verus!
