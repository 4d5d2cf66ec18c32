use rkv::error::Error;
use rkv::proto::{
    ClusterConfig, DeleteRequest, DeleteResponse, DescribeClusterRequest, GetRequest, GetResponse,
    HeartbeatRequest, PutRequest, PutResponse,
};
use rkv::server::{
    check_key, default_cluster_config, delete_outcome, read_outcome, write_outcome, Config, Server,
};

fn config(address: &str, seeds: &[&str], rf: i32, read: i32, write: i32) -> Config {
    Config {
        folder: String::new(),
        address: address.to_string(),
        seed_nodes: seeds.iter().map(|s| s.to_string()).collect(),
        cluster_config: ClusterConfig {
            name: "test".to_string(),
            replication_factor: rf,
            read_replicas: read,
            write_replicas: write,
            ring_replicas: 8,
        },
    }
}

fn get_ok(value: &str, version: i64) -> Result<GetResponse, Error> {
    Ok(GetResponse { value: value.as_bytes().to_vec(), version })
}

#[test]
fn default_config_values() {
    let c = default_cluster_config();
    assert_eq!(c.name, "default");
    assert_eq!((c.replication_factor, c.read_replicas, c.write_replicas, c.ring_replicas), (3, 2, 2, 8));
    let a = Config::from_args().unwrap();
    assert_eq!(a.address, "127.0.0.1:8080");
    assert!(a.seed_nodes.is_empty());
    assert_eq!(a.cluster_config, c);
}

#[test]
fn quorum_write_two_of_three() {
    let two = vec![Ok(PutResponse { version: 7 }), Err(Error::Transport("down".to_string())), Ok(PutResponse { version: 7 })];
    assert_eq!(write_outcome(&two, 2, 7), Ok(PutResponse { version: 7 }));
    let one = vec![Err(Error::Rpc("no".to_string())), Ok(PutResponse { version: 7 }), Err(Error::Transport("down".to_string()))];
    assert_eq!(write_outcome(&one, 2, 7), Err(Error::TooFewReplicas));
}

#[test]
fn quorum_read_tie_break() {
    let rs = vec![get_ok("new", 5), get_ok("new", 5), get_ok("old", 4)];
    assert_eq!(read_outcome(&rs, 2), Ok(GetResponse { value: b"new".to_vec(), version: 5 }));
    // Equal counts go to the higher version.
    let tie = vec![get_ok("a", 3), get_ok("b", 9), Err(Error::Io("disk".to_string()))];
    assert_eq!(read_outcome(&tie, 1), Ok(GetResponse { value: b"b".to_vec(), version: 9 }));
    assert_eq!(read_outcome(&tie, 2), Err(Error::TooFewReplicas));
    let none: Vec<Result<GetResponse, Error>> = vec![Err(Error::Other("x".to_string()))];
    assert_eq!(read_outcome(&none, 1), Err(Error::TooFewReplicas));
}

#[test]
fn quorum_delete_value() {
    let rs = vec![
        Ok(DeleteResponse { value: Vec::new() }),
        Ok(DeleteResponse { value: b"v".to_vec() }),
        Err(Error::Transport("down".to_string())),
    ];
    assert_eq!(delete_outcome(&rs, 2), Ok(DeleteResponse { value: b"v".to_vec() }));
    assert_eq!(delete_outcome(&rs, 3), Err(Error::TooFewReplicas));
}

#[test]
fn empty_key_is_refused() {
    assert!(matches!(check_key(&Vec::new()), Err(Error::InvalidArgument(_))));
    assert_eq!(check_key(&b"k".to_vec()), Ok(()));
    let mut s = Server::new(config("127.0.0.1:1", &[], 1, 1, 1));
    let put = PutRequest { key: Vec::new(), value: b"v".to_vec(), version: -1 };
    assert!(matches!(s.prepare_put(&put), Err(Error::InvalidArgument(_))));
    assert!(matches!(s.replicas_for(&Vec::new()), Err(Error::InvalidArgument(_))));
    assert!(matches!(s.direct_put(put), Err(Error::InvalidArgument(_))));
    assert!(matches!(s.direct_get(GetRequest { key: Vec::new() }), Err(Error::InvalidArgument(_))));
    assert!(matches!(s.direct_delete(DeleteRequest { key: Vec::new() }), Err(Error::InvalidArgument(_))));
}

#[test]
fn replicas_are_distinct_nodes() {
    let s = Server::new(config("n0:1", &["n1:1", "n2:1", "n3:1"], 3, 2, 2));
    let r = s.find_replicas(&b"some key".to_vec()).unwrap();
    assert_eq!(r.len(), 3);
    assert!(r[0] != r[1] && r[0] != r[2] && r[1] != r[2]);
    let t = Server::new(config("n0:1", &["n1:1"], 3, 2, 2));
    assert_eq!(t.find_replicas(&b"some key".to_vec()), Err(Error::TooFewReplicas));
    assert_eq!(t.replicas_for(&b"k".to_vec()), Err(Error::TooFewReplicas));
}

#[test]
fn single_node_end_to_end() {
    let mut s = Server::new(config("127.0.0.1:8080", &[], 1, 1, 1));
    assert_eq!(s.describe_cluster(DescribeClusterRequest {}).unwrap().cluster_config.unwrap().name, "test");
    assert!(s.heartbeat(HeartbeatRequest {}).is_ok());
    let wr = s.config_ref().cluster_config.write_replicas;
    let rd = s.config_ref().cluster_config.read_replicas;

    // put
    let req = PutRequest { key: b"k0".to_vec(), value: b"v0".to_vec(), version: -1 };
    let (targets, fixed) = s.prepare_put(&req).unwrap();
    assert_eq!(targets, vec!["127.0.0.1:8080".to_string()]);
    let version = fixed.version;
    let mut results = Vec::new();
    for t in &targets {
        assert!(s.is_local(t));
        results.push(s.direct_put(fixed.clone()));
    }
    assert_eq!(write_outcome(&results, wr, version), Ok(PutResponse { version }));

    // get
    let targets = s.replicas_for(&b"k0".to_vec()).unwrap();
    let results: Vec<_> = targets.iter().map(|_| s.direct_get(GetRequest { key: b"k0".to_vec() })).collect();
    assert_eq!(read_outcome(&results, rd), Ok(GetResponse { value: b"v0".to_vec(), version }));

    // delete
    let targets = s.replicas_for(&b"k0".to_vec()).unwrap();
    let mut results = Vec::new();
    for _ in &targets {
        results.push(s.direct_delete(DeleteRequest { key: b"k0".to_vec() }));
    }
    assert_eq!(delete_outcome(&results, wr), Ok(DeleteResponse { value: b"v0".to_vec() }));

    // get after delete: absent, not a quorum failure
    let results = vec![s.direct_get(GetRequest { key: b"k0".to_vec() })];
    assert_eq!(read_outcome(&results, rd), Ok(GetResponse { value: Vec::new(), version: -1 }));
}

#[test]
fn versions_assigned_by_coordinator() {
    let mut s = Server::new(config("a:1", &[], 1, 1, 1));
    let req = |v: i64| PutRequest { key: b"k".to_vec(), value: b"v".to_vec(), version: v };
    assert_eq!(s.prepare_put(&req(-1)).unwrap().1.version, 0);
    assert_eq!(s.prepare_put(&req(-1)).unwrap().1.version, 1);
    assert_eq!(s.prepare_put(&req(40)).unwrap().1.version, 40);
    assert_eq!(s.prepare_put(&req(-1)).unwrap().1.version, 2);
    assert_eq!(s.direct_put(req(40)), Ok(PutResponse { version: 40 }));
    assert_eq!(s.direct_get(GetRequest { key: b"k".to_vec() }), Ok(GetResponse { value: b"v".to_vec(), version: 40 }));
}
