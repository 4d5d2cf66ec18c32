//! The coordinator: it picks the replicas of a key on the ring, serves the
//! direct operations from the local store, and decides the outcome of a
//! replicated operation from the answers of its replicas.
use vstd::prelude::*;
use crate::error::{Error, Result};
use crate::proto::{
    ClusterConfig, DeleteRequest, DeleteResponse, DescribeClusterRequest, DescribeClusterResponse,
    GetRequest, GetResponse, HeartbeatRequest, HeartbeatResponse, PutRequest, PutResponse,
};
use crate::ring::{
    buckets_of, clockwise, copy_bytes, lemma_clockwise_entries, lemma_put_buckets_entries, point_of,
    points_distinct, put_buckets, put_replicas, replica_point, HashRing, RingItem,
};
use crate::store::{Contents, MemStore, Store};
use crate::Key;

verus! {

/// The address of a node: `host:port`.
pub type NodeAddr = String;

/// The settings of one node.
#[derive(Debug, Clone)]
pub struct Config {
    pub folder: String,
    pub address: NodeAddr,
    pub seed_nodes: Vec<NodeAddr>,
    pub cluster_config: ClusterConfig,
}

/// The cluster parameters used when none are given.
pub fn default_cluster_config() -> (r: ClusterConfig)
    ensures
        r.name@ == "default"@,
        r.replication_factor == 3,
        r.read_replicas == 2,
        r.write_replicas == 2,
        r.ring_replicas == 8,
        r.valid(),
{
    ClusterConfig {
        name: "default".to_string(),
        replication_factor: 3,
        read_replicas: 2,
        write_replicas: 2,
        ring_replicas: 8,
    }
}

impl Config {
    /// The settings of a node that runs alone at `127.0.0.1:8080` with the
    /// default cluster parameters.
    pub fn from_args() -> (r: Result<Config>)
        ensures
            r is Ok,
            r->Ok_0.folder@ == ""@,
            r->Ok_0.address@ == "127.0.0.1:8080"@,
            r->Ok_0.seed_nodes@.len() == 0,
            r->Ok_0.cluster_config.name@ == "default"@,
            r->Ok_0.cluster_config.replication_factor == 3,
            r->Ok_0.cluster_config.read_replicas == 2,
            r->Ok_0.cluster_config.write_replicas == 2,
            r->Ok_0.cluster_config.ring_replicas == 8,
    {
        Ok(Config {
            folder: "".to_string(),
            address: "127.0.0.1:8080".to_string(),
            seed_nodes: Vec::new(),
            cluster_config: default_cluster_config(),
        })
    }
}

/// The views of a sequence of addresses.
pub open spec fn addrs_view(s: Seq<NodeAddr>) -> Seq<Seq<char>> {
    s.map_values(|a: NodeAddr| a@)
}

/// The distinct elements of `s`, in the order of their first occurrence.
pub open spec fn dedup(s: Seq<Seq<char>>) -> Seq<Seq<char>>
    decreases s.len(),
{
    if s.len() == 0 {
        s
    } else {
        let d = dedup(s.drop_last());
        if d.contains(s.last()) {
            d
        } else {
            d.push(s.last())
        }
    }
}

/// The replicas of an item on a ring: the first `rf` distinct buckets met
/// walking clockwise, or `None` when the ring has fewer.
pub open spec fn replicas_of(succ: Seq<NodeAddr>, rf: int) -> Option<Seq<Seq<char>>> {
    let d = dedup(addrs_view(succ));
    if d.len() >= rf {
        Some(d.take(rf))
    } else {
        None
    }
}

/// The deduplication of a prefix is a prefix of the deduplication.
proof fn lemma_dedup_prefix(s: Seq<Seq<char>>, i: int, j: int)
    requires
        0 <= i <= j <= s.len(),
    ensures
        dedup(s.take(i)).len() <= dedup(s.take(j)).len(),
        dedup(s.take(j)).take(dedup(s.take(i)).len() as int) == dedup(s.take(i)),
    decreases j - i,
{
    if i < j {
        lemma_dedup_prefix(s, i, j - 1);
        assert(s.take(j).drop_last() =~= s.take(j - 1));
        let a = dedup(s.take(i));
        let b = dedup(s.take(j - 1));
        let c = dedup(s.take(j));
        assert(c.take(b.len() as int) =~= b);
        assert(c.take(a.len() as int) =~= b.take(a.len() as int));
    } else {
        assert(dedup(s.take(i)).take(dedup(s.take(i)).len() as int) =~= dedup(s.take(i)));
    }
}

/// The deduplication holds no element twice, and exactly the elements of `s`.
pub proof fn lemma_dedup_distinct(s: Seq<Seq<char>>)
    ensures
        dedup(s).no_duplicates(),
        forall|x: Seq<char>| #[trigger] dedup(s).contains(x) <==> s.contains(x),
    decreases s.len(),
{
    if s.len() > 0 {
        let t = s.drop_last();
        lemma_dedup_distinct(t);
        let d = dedup(t);
        let l = s.last();
        assert(s[s.len() - 1] == l);
        assert forall|x: Seq<char>| #[trigger] dedup(s).contains(x) <==> s.contains(x) by {
            if d.contains(l) {
                assert(dedup(s) == d);
            } else {
                assert(dedup(s) == d.push(l));
                assert(d.push(l)[d.len() as int] == l);
            }
            if d.contains(x) {
                assert(t.contains(x));
                let k = choose|k: int| 0 <= k < t.len() && t[k] == x;
                assert(s[k] == t[k]);
                let i = choose|i: int| 0 <= i < d.len() && d[i] == x;
                assert(dedup(s)[i] == x);
            }
            if s.contains(x) && x != l {
                let k = choose|k: int| 0 <= k < s.len() && s[k] == x;
                assert(t[k] == s[k]);
                assert(t.contains(x));
            }
        }
    }
}

/// On a ring built from nodes with distinct addresses and distinct points,
/// the replicas of any point are `rf` distinct nodes when the ring holds at
/// least `rf` nodes, and there are none otherwise.
pub proof fn lemma_replica_count(bs: Seq<NodeAddr>, n: nat, p: u64, rf: int)
    requires
        n > 0,
        points_distinct(bs, n),
        addrs_view(bs).no_duplicates(),
    ensures
        rf <= bs.len() ==> replicas_of(buckets_of(clockwise(put_buckets(Seq::empty(), bs, n), p)), rf) is Some,
        rf > bs.len() ==> replicas_of(buckets_of(clockwise(put_buckets(Seq::empty(), bs, n), p)), rf) is None,
        0 <= rf <= bs.len() ==> replicas_of(buckets_of(clockwise(put_buckets(Seq::empty(), bs, n), p)), rf)->0.len() == rf,
        0 <= rf <= bs.len() ==> replicas_of(buckets_of(clockwise(put_buckets(Seq::empty(), bs, n), p)), rf)->0.no_duplicates(),
{
    let r = put_buckets(Seq::empty(), bs, n);
    let c = clockwise(r, p);
    let v = addrs_view(buckets_of(c));
    let av = addrs_view(bs);
    lemma_put_buckets_entries(bs, n);
    lemma_clockwise_entries(r, p);
    lemma_dedup_distinct(v);
    let d = dedup(v);
    assert forall|x: Seq<char>| d.contains(x) <==> av.contains(x) by {
        if v.contains(x) {
            let i = choose|i: int| 0 <= i < v.len() && v[i] == x;
            assert(c.contains(c[i]));
            assert(r.contains(c[i]));
            let (k, j) = choose|k: int, j: int| 0 <= k < bs.len() && 0 <= j < n && c[i] == (replica_point(bs[k].ring_bytes(), j), bs[k]);
            assert(av[k] == x);
        }
        if av.contains(x) {
            let k = choose|k: int| 0 <= k < av.len() && av[k] == x;
            let e = (replica_point(bs[k].ring_bytes(), 0), bs[k]);
            assert(r.contains(e));
            assert(c.contains(e));
            let i = choose|i: int| 0 <= i < c.len() && c[i] == e;
            assert(v[i] == x);
        }
    }
    assert(d.to_set() =~= av.to_set());
    d.unique_seq_to_set();
    av.unique_seq_to_set();
    if 0 <= rf <= bs.len() {
        let dt = d.take(rf);
        assert forall|a: int, b: int| 0 <= a < dt.len() && 0 <= b < dt.len() && a != b implies dt[a] != dt[b] by {
            assert(dt[a] == d[a] && dt[b] == d[b]);
        }
    }
}

/// The number of successful answers.
pub open spec fn ok_count<R>(rs: Seq<Result<R>>) -> nat
    decreases rs.len(),
{
    if rs.len() == 0 {
        0
    } else {
        ok_count(rs.drop_last()) + if rs.last() is Ok { 1nat } else { 0nat }
    }
}

/// The number of successful reads that report version `v`.
pub open spec fn version_count(rs: Seq<Result<GetResponse>>, v: i64) -> nat
    decreases rs.len(),
{
    if rs.len() == 0 {
        0
    } else {
        version_count(rs.drop_last(), v) + if rs.last() is Ok && rs.last()->Ok_0.version == v {
            1nat
        } else {
            0nat
        }
    }
}

/// `(count, version)` of answer `i` is lexicographically above that of answer `j`.
pub open spec fn ranks_above(rs: Seq<Result<GetResponse>>, i: int, j: int) -> bool {
    let vi = rs[i]->Ok_0.version;
    let vj = rs[j]->Ok_0.version;
    version_count(rs, vi) > version_count(rs, vj) || (version_count(rs, vi) == version_count(rs, vj)
        && vi > vj)
}

/// Answer `i` is the first successful read carrying the winning version: the
/// most common one, ties going to the higher version.
pub open spec fn winner(rs: Seq<Result<GetResponse>>, i: int) -> bool {
    &&& 0 <= i < rs.len()
    &&& rs[i] is Ok
    &&& forall|j: int| 0 <= j < rs.len() && rs[j] is Ok ==> !ranks_above(rs, j, i)
    &&& forall|j: int| 0 <= j < i && rs[j] is Ok ==> rs[j]->Ok_0.version != rs[i]->Ok_0.version
}

/// The value of the first successful delete that removed a value, or the empty value.
pub open spec fn deleted_value(rs: Seq<Result<DeleteResponse>>) -> Seq<u8>
    decreases rs.len(),
{
    if rs.len() == 0 {
        Seq::empty()
    } else if rs[0] is Ok && rs[0]->Ok_0.value@.len() > 0 {
        rs[0]->Ok_0.value@
    } else {
        deleted_value(rs.drop_first())
    }
}

/// The version a coordinator assigns to a write that asked for `requested`.
pub open spec fn assigned_version(requested: i64, counter: i64) -> i64 {
    if requested >= 0 {
        requested
    } else {
        counter
    }
}

/// The counter after a write that asked for `requested`.
pub open spec fn next_counter(requested: i64, counter: i64) -> i64 {
    if requested >= 0 || counter == i64::MAX {
        counter
    } else {
        (counter + 1) as i64
    }
}

/// Refuses an empty key.
pub fn check_key(key: &Vec<u8>) -> (r: Result<()>)
    ensures
        r is Ok <==> key@.len() > 0,
        r is Err ==> r->Err_0 is InvalidArgument,
{
    if key.len() == 0 {
        Err(Error::InvalidArgument("empty key".to_string()))
    } else {
        Ok(())
    }
}

fn copy_config(c: &ClusterConfig) -> (r: ClusterConfig)
    ensures
        r == *c,
{
    ClusterConfig {
        name: c.name.clone(),
        replication_factor: c.replication_factor,
        read_replicas: c.read_replicas,
        write_replicas: c.write_replicas,
        ring_replicas: c.ring_replicas,
    }
}

/// The ring of a node: itself, then its seed nodes.
pub open spec fn initial_ring(config: Config) -> Seq<(u64, NodeAddr)> {
    put_buckets(
        Seq::empty(),
        seq![config.address] + config.seed_nodes@,
        config.cluster_config.ring_replicas as nat,
    )
}

/// Decides the outcome of a replicated write from the replicas' answers:
/// it succeeds when at least `write_replicas` of them succeeded.
pub fn write_outcome(results: &Vec<Result<PutResponse>>, write_replicas: i32, version: i64) -> (r: Result<PutResponse>)
    ensures
        r is Ok <==> ok_count(results@) >= write_replicas,
        r is Ok ==> r->Ok_0.version == version,
        r is Err ==> r->Err_0 is TooFewReplicas,
{
    let n = count_ok(results);
    if below(n, write_replicas) {
        Err(Error::TooFewReplicas)
    } else {
        Ok(PutResponse { version })
    }
}

/// Whether a count falls short of a threshold.
fn below(n: usize, t: i32) -> (r: bool)
    ensures
        r == (n < t),
{
    t > 0 && n < t as usize
}

fn count_ok<R>(results: &Vec<Result<R>>) -> (n: usize)
    ensures
        n == ok_count(results@),
{
    let mut n: usize = 0;
    let mut i: usize = 0;
    while i < results.len()
        invariant
            i <= results@.len(),
            n == ok_count(results@.take(i as int)),
            n <= i,
        decreases results@.len() - i,
    {
        assert(results@.take(i + 1).drop_last() =~= results@.take(i as int));
        if results[i].is_ok() {
            n = n + 1;
        }
        i = i + 1;
    }
    assert(results@.take(i as int) =~= results@);
    n
}

fn count_version(results: &Vec<Result<GetResponse>>, v: i64) -> (n: usize)
    ensures
        n == version_count(results@, v),
{
    let mut n: usize = 0;
    let mut i: usize = 0;
    while i < results.len()
        invariant
            i <= results@.len(),
            n == version_count(results@.take(i as int), v),
            n <= i,
        decreases results@.len() - i,
    {
        assert(results@.take(i + 1).drop_last() =~= results@.take(i as int));
        match &results[i] {
            Ok(resp) => {
                if resp.version == v {
                    n = n + 1;
                }
            },
            Err(_) => {},
        }
        i = i + 1;
    }
    assert(results@.take(i as int) =~= results@);
    n
}

/// Decides the outcome of a replicated read from the replicas' answers: the
/// most common version wins, ties going to the higher version, and it must
/// have been reported by at least `read_replicas` replicas.
pub fn read_outcome(results: &Vec<Result<GetResponse>>, read_replicas: i32) -> (r: Result<GetResponse>)
    ensures
        r is Ok <==> exists|i: int| winner(results@, i) && version_count(results@, results@[i]->Ok_0.version) >= read_replicas,
        forall|i: int| winner(results@, i) && r is Ok ==> r->Ok_0.value@ == results@[i]->Ok_0.value@ && r->Ok_0.version == results@[i]->Ok_0.version,
        r is Err ==> r->Err_0 is TooFewReplicas,
{
    let ghost rs = results@;
    let mut best: Option<usize> = None;
    let mut best_count: usize = 0;
    let mut i: usize = 0;
    while i < results.len()
        invariant
            rs == results@,
            i <= rs.len(),
            best is None ==> forall|j: int| 0 <= j < i ==> rs[j] is Err,
            best is Some ==> {
                let b = best->0 as int;
                &&& b < i
                &&& rs[b] is Ok
                &&& best_count == version_count(rs, rs[b]->Ok_0.version)
                &&& forall|j: int| 0 <= j < i && rs[j] is Ok ==> !ranks_above(rs, j, b)
                &&& forall|j: int| 0 <= j < b && rs[j] is Ok ==> rs[j]->Ok_0.version != rs[b]->Ok_0.version
            },
        decreases rs.len() - i,
    {
        match &results[i] {
            Ok(resp) => {
                let c = count_version(results, resp.version);
                let better = match best {
                    None => true,
                    Some(b) => {
                        let bv = match &results[b] {
                            Ok(x) => x.version,
                            Err(_) => 0,
                        };
                        c > best_count || (c == best_count && resp.version > bv)
                    },
                };
                proof {
                    if !better {
                        assert(!ranks_above(rs, i as int, best->0 as int));
                    } else if best is Some {
                        assert(ranks_above(rs, i as int, best->0 as int));
                        assert forall|j: int| 0 <= j < i && rs[j] is Ok implies !ranks_above(rs, j, i as int) by {
                            assert(!ranks_above(rs, j, best->0 as int));
                        }
                    }
                }
                if better {
                    proof {
                        assert forall|j: int| 0 <= j < i && rs[j] is Ok implies rs[j]->Ok_0.version != rs[i as int]->Ok_0.version by {
                            if rs[j]->Ok_0.version == rs[i as int]->Ok_0.version {
                                assert(!ranks_above(rs, j, best->0 as int));
                            }
                        }
                    }
                    best = Some(i);
                    best_count = c;
                }
            },
            Err(_) => {},
        }
        i = i + 1;
    }
    match best {
        None => Err(Error::TooFewReplicas),
        Some(b) => {
            proof {
                assert(winner(rs, b as int));
                assert forall|k: int| winner(rs, k) implies k == b by {
                    assert(!ranks_above(rs, k, b as int));
                    assert(!ranks_above(rs, b as int, k));
                    assert(rs[k]->Ok_0.version == rs[b as int]->Ok_0.version);
                }
            }
            if below(best_count, read_replicas) {
                Err(Error::TooFewReplicas)
            } else {
                match &results[b] {
                    Ok(resp) => Ok(GetResponse { value: copy_bytes(resp.value.as_slice()), version: resp.version }),
                    Err(_) => Err(Error::TooFewReplicas),
                }
            }
        },
    }
}

/// Decides the outcome of a replicated delete from the replicas' answers: it
/// succeeds when at least `write_replicas` of them succeeded, and hands back
/// the first value that a replica removed.
pub fn delete_outcome(results: &Vec<Result<DeleteResponse>>, write_replicas: i32) -> (r: Result<DeleteResponse>)
    ensures
        r is Ok <==> ok_count(results@) >= write_replicas,
        r is Ok ==> r->Ok_0.value@ == deleted_value(results@),
        r is Err ==> r->Err_0 is TooFewReplicas,
{
    let n = count_ok(results);
    if below(n, write_replicas) {
        return Err(Error::TooFewReplicas);
    }
    let mut i: usize = 0;
    assert(results@.subrange(0, results@.len() as int) =~= results@);
    while i < results.len()
        invariant
            i <= results@.len(),
            ok_count(results@) >= write_replicas,
            deleted_value(results@) == deleted_value(results@.subrange(i as int, results@.len() as int)),
        decreases results@.len() - i,
    {
        let ghost rest = results@.subrange(i as int, results@.len() as int);
        assert(rest.drop_first() =~= results@.subrange(i + 1, results@.len() as int));
        match &results[i] {
            Ok(resp) => {
                if resp.value.len() > 0 {
                    return Ok(DeleteResponse { value: copy_bytes(resp.value.as_slice()) });
                }
            },
            Err(_) => {},
        }
        i = i + 1;
    }
    Ok(DeleteResponse { value: Vec::new() })
}

/// A node: its settings, its ring and its local store.
pub struct Server {
    config: Config,
    ring: HashRing<NodeAddr>,
    store: MemStore,
    counter: i64,
}

impl Server {
    pub closed spec fn config(&self) -> Config {
        self.config
    }

    pub closed spec fn ring(&self) -> HashRing<NodeAddr> {
        self.ring
    }

    /// What the local store holds.
    pub closed spec fn contents(&self) -> Contents {
        self.store.contents()
    }

    /// The version the next write without a version of its own gets.
    pub closed spec fn counter(&self) -> i64 {
        self.counter
    }

    pub closed spec fn wf(&self) -> bool {
        &&& self.config.cluster_config.valid()
        &&& self.ring.wf()
        &&& self.ring.virtual_replicas() == self.config.cluster_config.ring_replicas
        &&& self.store.wf()
    }

    /// The replicas of `key` under this node's replication factor.
    pub open spec fn replicas_spec(&self, key: Seq<u8>) -> Option<Seq<Seq<char>>> {
        replicas_of(
            self.ring().successors_at(point_of(key)),
            self.config().cluster_config.replication_factor as int,
        )
    }

    pub fn new(config: Config) -> (r: Self)
        requires
            config.cluster_config.valid(),
        ensures
            r.wf(),
            r.config() == config,
            r.ring()@ == initial_ring(config),
            r.contents() == Contents::empty(),
            r.counter() == 0,
    {
        let ring = Self::make_ring(&config);
        Server { config, ring, store: MemStore::new(), counter: 0 }
    }

    fn make_ring(config: &Config) -> (r: HashRing<NodeAddr>)
        requires
            config.cluster_config.valid(),
        ensures
            r.wf(),
            r.virtual_replicas() == config.cluster_config.ring_replicas,
            r@ == initial_ring(*config),
    {
        let n = config.cluster_config.ring_replicas;
        let ghost all = seq![config.address] + config.seed_nodes@;
        let mut ring: HashRing<NodeAddr> = HashRing::new(n);
        ring.insert(config.address.clone());
        proof {
            assert(all.take(1).drop_last() =~= Seq::<NodeAddr>::empty());
            assert(all.take(1).last() == config.address);
            assert(put_buckets(Seq::empty(), all.take(1), n as nat) == put_replicas(
                put_buckets(Seq::empty(), Seq::<NodeAddr>::empty(), n as nat),
                config.address,
                n as nat,
            ));
        }
        let mut i: usize = 0;
        while i < config.seed_nodes.len()
            invariant
                ring.wf(),
                ring.virtual_replicas() == n,
                all == seq![config.address] + config.seed_nodes@,
                i <= config.seed_nodes@.len(),
                ring@ == put_buckets(Seq::empty(), all.take(i + 1), n as nat),
            decreases config.seed_nodes@.len() - i,
        {
            assert(all.take(i + 2).drop_last() =~= all.take(i + 1));
            assert(all.take(i + 2).last() == config.seed_nodes@[i as int]);
            ring.insert(config.seed_nodes[i].clone());
            i = i + 1;
        }
        assert(all.take(i + 1) =~= all);
        ring
    }

    /// The first `replication_factor` distinct nodes met walking the ring
    /// clockwise from the key, or `TooFewReplicas` when the ring has fewer.
    pub fn find_replicas(&self, key: &Vec<u8>) -> (r: Result<Vec<NodeAddr>>)
        requires
            self.wf(),
        ensures
            match self.replicas_spec(key@) {
                Some(d) => r is Ok && addrs_view(r->Ok_0@) == d,
                None => r is Err && r->Err_0 is TooFewReplicas,
            },
    {
        let rf = self.config.cluster_config.replication_factor as usize;
        let succ = self.ring.successors(key);
        let ghost sv = addrs_view(succ@);
        let mut replicas: Vec<NodeAddr> = Vec::new();
        let mut i: usize = 0;
        while i < succ.len()
            invariant_except_break
                replicas@.len() < rf,
            invariant
                i <= succ@.len(),
                sv == addrs_view(succ@),
                addrs_view(replicas@) == dedup(sv.take(i as int)),
                rf == self.config.cluster_config.replication_factor,
                rf >= 1,
            ensures
                addrs_view(replicas@) == dedup(sv.take(i as int)),
                replicas@.len() == rf || (i == succ@.len() && replicas@.len() < rf),
            decreases succ@.len() - i,
        {
            assert(sv.take(i + 1).drop_last() =~= sv.take(i as int));
            let addr = &succ[i];
            let mut seen = false;
            let mut j: usize = 0;
            while j < replicas.len()
                invariant
                    j <= replicas@.len(),
                    seen == exists|k: int| 0 <= k < j && replicas@[k]@ == addr@,
                decreases replicas@.len() - j,
            {
                if replicas[j] == *addr {
                    seen = true;
                }
                j = j + 1;
            }
            let ghost d = dedup(sv.take(i as int));
            proof {
                assert(sv.take(i + 1).last() == addr@);
                if seen {
                    let k = choose|k: int| 0 <= k < j && replicas@[k]@ == addr@;
                    assert(d[k] == addr@);
                } else {
                    assert forall|k: int| 0 <= k < d.len() implies d[k] != addr@ by {
                        assert(d[k] == replicas@[k]@);
                    }
                }
            }
            i = i + 1;
            if !seen {
                replicas.push(addr.clone());
                assert(addrs_view(replicas@) =~= dedup(sv.take(i as int)));
                if replicas.len() == rf {
                    break;
                }
            }
        }
        proof {
            lemma_dedup_prefix(sv, i as int, sv.len() as int);
            assert(sv.take(sv.len() as int) =~= sv);
        }
        if replicas.len() < rf {
            return Err(Error::TooFewReplicas);
        }
        proof {
            assert(dedup(sv).take(rf as int) =~= addrs_view(replicas@));
        }
        Ok(replicas)
    }

    /// This node's settings.
    pub fn config_ref(&self) -> (r: &Config)
        ensures
            *r == self.config(),
    {
        &self.config
    }

    /// Whether `addr` is this node's own address.
    pub fn is_local(&self, addr: &NodeAddr) -> (r: bool)
        ensures
            r == (addr@ == self.config().address@),
    {
        *addr == self.config.address
    }

    /// The cluster parameters.
    pub fn describe_cluster(&self, req: DescribeClusterRequest) -> (r: Result<DescribeClusterResponse>)
        ensures
            r is Ok,
            r->Ok_0.cluster_config == Some(self.config().cluster_config),
    {
        Ok(DescribeClusterResponse { cluster_config: Some(copy_config(&self.config.cluster_config)) })
    }

    /// A liveness acknowledgment; it changes nothing.
    pub fn heartbeat(&self, req: HeartbeatRequest) -> (r: Result<HeartbeatResponse>)
        ensures
            r is Ok,
    {
        Ok(HeartbeatResponse {})
    }

    /// The replicas that a read or a delete of `key` goes to: an empty key is
    /// refused, then the replicas are picked on the ring.
    pub fn replicas_for(&self, key: &Vec<u8>) -> (r: Result<Vec<NodeAddr>>)
        requires
            self.wf(),
        ensures
            key@.len() == 0 ==> r is Err && r->Err_0 is InvalidArgument,
            key@.len() > 0 ==> match self.replicas_spec(key@) {
                Some(d) => r is Ok && addrs_view(r->Ok_0@) == d,
                None => r is Err && r->Err_0 is TooFewReplicas,
            },
    {
        match check_key(key) {
            Err(e) => Err(e),
            Ok(()) => self.find_replicas(key),
        }
    }

    /// Readies a write for its replicas: an empty key is refused, the
    /// replicas are picked, and the version all of them will store is fixed:
    /// the requested one if it is not negative, else the node's counter,
    /// which then moves on.
    pub fn prepare_put(&mut self, req: &PutRequest) -> (r: Result<(Vec<NodeAddr>, PutRequest)>)
        requires
            old(self).wf(),
        ensures
            final(self).wf(),
            final(self).config() == old(self).config(),
            final(self).ring() == old(self).ring(),
            final(self).contents() == old(self).contents(),
            r is Err ==> final(self).counter() == old(self).counter(),
            req.key@.len() == 0 ==> r is Err && r->Err_0 is InvalidArgument,
            req.key@.len() > 0 ==> match old(self).replicas_spec(req.key@) {
                Some(d) => {
                    &&& r is Ok
                    &&& addrs_view(r->Ok_0.0@) == d
                    &&& r->Ok_0.1.key@ == req.key@
                    &&& r->Ok_0.1.value@ == req.value@
                    &&& r->Ok_0.1.version == assigned_version(req.version, old(self).counter())
                    &&& final(self).counter() == next_counter(req.version, old(self).counter())
                },
                None => r is Err && r->Err_0 is TooFewReplicas,
            },
    {
        let replicas = match self.replicas_for(&req.key) {
            Err(e) => return Err(e),
            Ok(v) => v,
        };
        let version = if req.version >= 0 {
            req.version
        } else {
            let v = self.counter;
            if self.counter < i64::MAX {
                self.counter = self.counter + 1;
            }
            v
        };
        let fixed = PutRequest {
            key: copy_bytes(req.key.as_slice()),
            value: copy_bytes(req.value.as_slice()),
            version,
        };
        Ok((replicas, fixed))
    }

    /// Stores a write in the local store only, under the version it carries.
    pub fn direct_put(&mut self, req: PutRequest) -> (r: Result<PutResponse>)
        requires
            old(self).wf(),
        ensures
            final(self).wf(),
            final(self).config() == old(self).config(),
            final(self).ring() == old(self).ring(),
            final(self).counter() == old(self).counter(),
            req.key@.len() == 0 ==> r is Err && r->Err_0 is InvalidArgument && final(self).contents() == old(self).contents(),
            req.key@.len() > 0 ==> r is Ok && r->Ok_0.version == req.version && final(self).contents()
                == old(self).contents().insert(req.key@, (req.value@, req.version)),
    {
        if let Err(e) = check_key(&req.key) {
            return Err(e);
        }
        match self.store.put_versioned(Key(req.key), req.value, req.version) {
            Ok(version) => Ok(PutResponse { version }),
            Err(e) => Err(e),
        }
    }

    /// Reads a key from the local store only; an absent key reads as the
    /// empty value with version `-1`.
    pub fn direct_get(&self, req: GetRequest) -> (r: Result<GetResponse>)
        requires
            self.wf(),
        ensures
            req.key@.len() == 0 ==> r is Err && r->Err_0 is InvalidArgument,
            req.key@.len() > 0 ==> r is Ok,
            r is Ok && self.contents().contains_key(req.key@) ==> (r->Ok_0.value@, r->Ok_0.version) == self.contents()[req.key@],
            r is Ok && !self.contents().contains_key(req.key@) ==> r->Ok_0.value@.len() == 0 && r->Ok_0.version == -1,
    {
        if let Err(e) = check_key(&req.key) {
            return Err(e);
        }
        match self.store.get(&Key(req.key)) {
            Ok(Some((value, version))) => Ok(GetResponse { value, version }),
            Ok(None) => Ok(GetResponse { value: Vec::new(), version: -1 }),
            Err(e) => Err(e),
        }
    }

    /// Removes a key from the local store only, handing back its value, or
    /// the empty value if it was absent.
    pub fn direct_delete(&mut self, req: DeleteRequest) -> (r: Result<DeleteResponse>)
        requires
            old(self).wf(),
        ensures
            final(self).wf(),
            final(self).config() == old(self).config(),
            final(self).ring() == old(self).ring(),
            final(self).counter() == old(self).counter(),
            req.key@.len() == 0 ==> r is Err && r->Err_0 is InvalidArgument && final(self).contents() == old(self).contents(),
            req.key@.len() > 0 ==> r is Ok && final(self).contents() == old(self).contents().remove(req.key@),
            r is Ok && old(self).contents().contains_key(req.key@) ==> r->Ok_0.value@ == old(self).contents()[req.key@].0,
            r is Ok && !old(self).contents().contains_key(req.key@) ==> r->Ok_0.value@.len() == 0,
    {
        if let Err(e) = check_key(&req.key) {
            return Err(e);
        }
        match self.store.delete(&Key(req.key)) {
            Ok(Some((value, _))) => Ok(DeleteResponse { value }),
            Ok(None) => Ok(DeleteResponse { value: Vec::new() }),
            Err(e) => Err(e),
        }
    }
}

} // verus!
