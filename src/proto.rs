//! The messages exchanged with clients and between nodes.
use vstd::prelude::*;

verus! {

/// The replication and quorum parameters shared by every node of a cluster.
#[derive(Debug, Clone, PartialEq, Eq)]
pub struct ClusterConfig {
    pub name: String,
    /// How many distinct nodes store each key.
    pub replication_factor: i32,
    /// How many replicas must agree on a read.
    pub read_replicas: i32,
    /// How many replicas must acknowledge a write.
    pub write_replicas: i32,
    /// How many virtual points each node occupies on the ring.
    pub ring_replicas: i32,
}

impl ClusterConfig {
    /// The parameters are consistent with each other.
    pub open spec fn valid(&self) -> bool {
        &&& self.ring_replicas > 0
        &&& 1 <= self.write_replicas <= self.replication_factor
        &&& 1 <= self.read_replicas <= self.replication_factor
    }
}

#[derive(Debug, Clone, PartialEq, Eq)]
pub struct DescribeClusterRequest {}

#[derive(Debug, Clone, PartialEq, Eq)]
pub struct DescribeClusterResponse {
    pub cluster_config: Option<ClusterConfig>,
}

/// A write; a negative version asks the coordinator to assign one.
#[derive(Debug, Clone, PartialEq, Eq)]
pub struct PutRequest {
    pub key: Vec<u8>,
    pub value: Vec<u8>,
    pub version: i64,
}

#[derive(Debug, Clone, PartialEq, Eq)]
pub struct PutResponse {
    pub version: i64,
}

#[derive(Debug, Clone, PartialEq, Eq)]
pub struct GetRequest {
    pub key: Vec<u8>,
}

/// A read's answer; version `-1` with an empty value means the key is absent.
#[derive(Debug, Clone, PartialEq, Eq)]
pub struct GetResponse {
    pub value: Vec<u8>,
    pub version: i64,
}

#[derive(Debug, Clone, PartialEq, Eq)]
pub struct DeleteRequest {
    pub key: Vec<u8>,
}

/// A delete's answer: the value that was removed, empty if there was none.
#[derive(Debug, Clone, PartialEq, Eq)]
pub struct DeleteResponse {
    pub value: Vec<u8>,
}

#[derive(Debug, Clone, PartialEq, Eq)]
pub struct HeartbeatRequest {}

#[derive(Debug, Clone, PartialEq, Eq)]
pub struct HeartbeatResponse {}

} // verus!
