//! A consistent hash ring: every bucket occupies a fixed number of virtual
//! points in a 64-bit hash space, and an item is served by the buckets met
//! when walking the ring clockwise from the item's own point.
use vstd::prelude::*;

verus! {

/// The hash-space point of a byte string.
pub uninterp spec fn point_of(bytes: Seq<u8>) -> u64;

/// Relies on std's `DefaultHasher`: every hasher made by `DefaultHasher::new`
/// starts from the same keys, and `write` feeds it the bytes alone, so the
/// point is a function of the bytes.
#[verifier::external_body]
fn hash_bytes(bytes: &[u8]) -> (r: u64)
    ensures
        r == point_of(bytes@),
{
    let mut h = std::collections::hash_map::DefaultHasher::new();
    std::hash::Hasher::write(&mut h, bytes);
    std::hash::Hasher::finish(&h)
}

/// The four little-endian bytes of a 32-bit integer.
pub open spec fn le_bytes(x: i32) -> Seq<u8> {
    let u = x as u32;
    seq![(u & 0xff) as u8, ((u >> 8u32) & 0xff) as u8, ((u >> 16u32) & 0xff) as u8, ((u >> 24u32) & 0xff) as u8]
}

fn to_le_bytes(x: i32) -> (r: Vec<u8>)
    ensures
        r@ == le_bytes(x),
{
    let u = x as u32;
    let r = vec![(u & 0xff) as u8, ((u >> 8u32) & 0xff) as u8, ((u >> 16u32) & 0xff) as u8, ((u >> 24u32) & 0xff) as u8];
    assert(r@ =~= le_bytes(x));
    r
}

pub(crate) fn copy_bytes(b: &[u8]) -> (r: Vec<u8>)
    ensures
        r@ == b@,
{
    let mut r: Vec<u8> = Vec::new();
    let mut i: usize = 0;
    while i < b.len()
        invariant
            i <= b@.len(),
            r@ == b@.subrange(0, i as int),
        decreases b@.len() - i,
    {
        r.push(b[i]);
        i = i + 1;
        assert(r@ =~= b@.subrange(0, i as int));
    }
    assert(r@ =~= b@);
    r
}

/// Something that can be placed on the ring, through the bytes it is hashed by.
pub trait RingItem {
    /// The bytes that determine the item's point.
    spec fn ring_bytes(&self) -> Seq<u8>;

    fn to_ring_bytes(&self) -> (r: Vec<u8>)
        ensures
            r@ == self.ring_bytes(),
    ;
}

/// A bucket of the ring: an item that can be copied exactly.
pub trait RingBucket: RingItem + Sized {
    fn duplicate(&self) -> (r: Self)
        ensures
            r == *self,
    ;
}

impl RingItem for i32 {
    open spec fn ring_bytes(&self) -> Seq<u8> {
        le_bytes(*self)
    }

    fn to_ring_bytes(&self) -> (r: Vec<u8>) {
        to_le_bytes(*self)
    }
}

impl RingBucket for i32 {
    fn duplicate(&self) -> (r: Self) {
        *self
    }
}

impl RingItem for String {
    open spec fn ring_bytes(&self) -> Seq<u8> {
        vstd::utf8::encode_utf8(self@)
    }

    fn to_ring_bytes(&self) -> (r: Vec<u8>) {
        copy_bytes(self.as_str().as_bytes())
    }
}

impl RingBucket for String {
    fn duplicate(&self) -> (r: Self) {
        self.clone()
    }
}

impl<'a> RingItem for &'a str {
    open spec fn ring_bytes(&self) -> Seq<u8> {
        vstd::utf8::encode_utf8((**self)@)
    }

    fn to_ring_bytes(&self) -> (r: Vec<u8>) {
        copy_bytes(self.as_bytes())
    }
}

impl RingItem for Vec<u8> {
    open spec fn ring_bytes(&self) -> Seq<u8> {
        self@
    }

    fn to_ring_bytes(&self) -> (r: Vec<u8>) {
        copy_bytes(self.as_slice())
    }
}

/// The point of an item.
pub open spec fn item_point<V: RingItem>(item: &V) -> u64 {
    point_of(item.ring_bytes())
}

fn point<V: RingItem>(item: &V) -> (r: u64)
    ensures
        r == item_point(item),
{
    let b = item.to_ring_bytes();
    hash_bytes(b.as_slice())
}


/// Entries in strictly ascending order of point: at most one entry per point.
pub open spec fn sorted<T>(s: Seq<(u64, T)>) -> bool {
    forall|i: int, j: int| 0 <= i < j < s.len() ==> s[i].0 < s[j].0
}

/// The index of the first entry whose point is at or after `p`.
pub open spec fn split_at<T>(s: Seq<(u64, T)>, p: u64) -> nat
    decreases s.len(),
{
    if s.len() == 0 {
        0
    } else if s[0].0 >= p {
        0
    } else {
        1 + split_at(s.drop_first(), p)
    }
}

/// The entries met walking clockwise from `p`: those at or after `p`, then
/// those before it, each part in ascending order.
pub open spec fn clockwise<T>(s: Seq<(u64, T)>, p: u64) -> Seq<(u64, T)> {
    let i = split_at(s, p) as int;
    s.subrange(i, s.len() as int) + s.subrange(0, i)
}

/// The buckets of a sequence of entries.
pub open spec fn buckets_of<T>(s: Seq<(u64, T)>) -> Seq<T> {
    s.map_values(|e: (u64, T)| e.1)
}

/// `s` with the entry at point `p` set to `b`, replacing any entry already there.
pub open spec fn put_point<T>(s: Seq<(u64, T)>, p: u64, b: T) -> Seq<(u64, T)> {
    let i = split_at(s, p) as int;
    if i < s.len() && s[i].0 == p {
        s.update(i, (p, b))
    } else {
        s.insert(i, (p, b))
    }
}

/// `s` without an entry at point `p`.
pub open spec fn drop_point<T>(s: Seq<(u64, T)>, p: u64) -> Seq<(u64, T)> {
    let i = split_at(s, p) as int;
    if i < s.len() && s[i].0 == p {
        s.remove(i)
    } else {
        s
    }
}

/// The point of the `k`-th virtual replica of a bucket with the given bytes.
pub open spec fn replica_point(bytes: Seq<u8>, k: int) -> u64 {
    point_of(bytes + le_bytes(k as i32))
}

/// `s` after placing replicas `0..n` of bucket `b`, in that order.
pub open spec fn put_replicas<T: RingItem>(s: Seq<(u64, T)>, b: T, n: nat) -> Seq<(u64, T)>
    decreases n,
{
    if n == 0 {
        s
    } else {
        put_point(put_replicas(s, b, (n - 1) as nat), replica_point(b.ring_bytes(), n - 1), b)
    }
}

/// `s` after placing each bucket of `bs`, in order, with `n` replicas each.
pub open spec fn put_buckets<T: RingItem>(s: Seq<(u64, T)>, bs: Seq<T>, n: nat) -> Seq<(u64, T)>
    decreases bs.len(),
{
    if bs.len() == 0 {
        s
    } else {
        put_replicas(put_buckets(s, bs.drop_last(), n), bs.last(), n)
    }
}

/// `s` after removing the points of replicas `0..n` of bucket `b`.
pub open spec fn drop_replicas<T: RingItem>(s: Seq<(u64, T)>, b: T, n: nat) -> Seq<(u64, T)>
    decreases n,
{
    if n == 0 {
        s
    } else {
        drop_point(drop_replicas(s, b, (n - 1) as nat), replica_point(b.ring_bytes(), n - 1))
    }
}

/// Every entry before index `i` lies before `p`, and the entry at `i`, if
/// any, lies at or after it.
proof fn lemma_split_at<T>(s: Seq<(u64, T)>, p: u64, i: int)
    requires
        0 <= i <= s.len(),
        forall|j: int| 0 <= j < i ==> s[j].0 < p,
        i == s.len() || s[i].0 >= p,
    ensures
        split_at(s, p) == i,
    decreases i,
{
    if i > 0 {
        lemma_split_at(s.drop_first(), p, i - 1);
    }
}

/// In a sorted sequence the split point separates the points before `p`
/// from the others.
proof fn lemma_split_bounds<T>(s: Seq<(u64, T)>, p: u64)
    requires
        sorted(s),
    ensures
        split_at(s, p) <= s.len(),
        forall|j: int| 0 <= j < split_at(s, p) ==> s[j].0 < p,
        forall|j: int| split_at(s, p) <= j < s.len() ==> s[j].0 >= p,
    decreases s.len(),
{
    if s.len() > 0 && s[0].0 < p {
        let t = s.drop_first();
        assert(sorted(t));
        lemma_split_bounds(t, p);
        assert forall|j: int| 0 <= j < split_at(s, p) implies s[j].0 < p by {
            if j > 0 {
                assert(s[j] == t[j - 1]);
            }
        }
        assert forall|j: int| split_at(s, p) <= j < s.len() implies s[j].0 >= p by {
            assert(s[j] == t[j - 1]);
        }
    }
}

proof fn lemma_put_point_sorted<T>(s: Seq<(u64, T)>, p: u64, b: T)
    requires
        sorted(s),
    ensures
        sorted(put_point(s, p, b)),
{
    lemma_split_bounds(s, p);
}

proof fn lemma_drop_point_sorted<T>(s: Seq<(u64, T)>, p: u64)
    requires
        sorted(s),
    ensures
        sorted(drop_point(s, p)),
{
    lemma_split_bounds(s, p);
}

proof fn lemma_put_replicas_sorted<T: RingItem>(s: Seq<(u64, T)>, b: T, n: nat)
    requires
        sorted(s),
    ensures
        sorted(put_replicas(s, b, n)),
    decreases n,
{
    if n > 0 {
        lemma_put_replicas_sorted(s, b, (n - 1) as nat);
        lemma_put_point_sorted(put_replicas(s, b, (n - 1) as nat), replica_point(b.ring_bytes(), n - 1), b);
    }
}

proof fn lemma_drop_replicas_sorted<T: RingItem>(s: Seq<(u64, T)>, b: T, n: nat)
    requires
        sorted(s),
    ensures
        sorted(drop_replicas(s, b, n)),
    decreases n,
{
    if n > 0 {
        lemma_drop_replicas_sorted(s, b, (n - 1) as nat);
        lemma_drop_point_sorted(drop_replicas(s, b, (n - 1) as nat), replica_point(b.ring_bytes(), n - 1));
    }
}

/// Setting a point keeps every entry at another point, adds the new entry,
/// and nothing else; the length grows by one exactly when the point was free.
proof fn lemma_put_point_entries<T>(s: Seq<(u64, T)>, p: u64, b: T)
    requires
        sorted(s),
    ensures
        put_point(s, p, b).contains((p, b)),
        forall|e: (u64, T)| s.contains(e) && e.0 != p ==> put_point(s, p, b).contains(e),
        forall|e: (u64, T)| #[trigger] put_point(s, p, b).contains(e) ==> e == (p, b) || (s.contains(e) && e.0 != p),
        (forall|j: int| 0 <= j < s.len() ==> s[j].0 != p) ==> put_point(s, p, b).len() == s.len() + 1,
        put_point(s, p, b).len() >= s.len(),
{
    lemma_split_bounds(s, p);
    let i = split_at(s, p) as int;
    let t = put_point(s, p, b);
    if i < s.len() && s[i].0 == p {
        assert(t[i] == (p, b));
        assert forall|e: (u64, T)| s.contains(e) && e.0 != p implies t.contains(e) by {
            let j = choose|j: int| 0 <= j < s.len() && s[j] == e;
            assert(t[j] == e);
        }
        assert forall|e: (u64, T)| #[trigger] t.contains(e) implies e == (p, b) || (s.contains(e) && e.0 != p) by {
            let j = choose|j: int| 0 <= j < t.len() && t[j] == e;
            if j != i {
                assert(s[j] == e);
                assert(s[j].0 != s[i].0);
            }
        }
    } else {
        assert(t[i] == (p, b));
        assert forall|e: (u64, T)| s.contains(e) && e.0 != p implies t.contains(e) by {
            let j = choose|j: int| 0 <= j < s.len() && s[j] == e;
            if j < i {
                assert(t[j] == e);
            } else {
                assert(t[j + 1] == e);
            }
        }
        assert forall|e: (u64, T)| #[trigger] t.contains(e) implies e == (p, b) || (s.contains(e) && e.0 != p) by {
            let j = choose|j: int| 0 <= j < t.len() && t[j] == e;
            if j < i {
                assert(s[j] == e);
            } else if j > i {
                assert(s[j - 1] == e);
            }
        }
    }
}

/// Dropping a point keeps exactly the entries at other points.
proof fn lemma_drop_point_entries<T>(s: Seq<(u64, T)>, p: u64)
    requires
        sorted(s),
    ensures
        forall|e: (u64, T)| #[trigger] drop_point(s, p).contains(e) <==> (s.contains(e) && e.0 != p),
{
    lemma_split_bounds(s, p);
    let i = split_at(s, p) as int;
    let t = drop_point(s, p);
    assert forall|e: (u64, T)| #[trigger] t.contains(e) <==> (s.contains(e) && e.0 != p) by {
        if i < s.len() && s[i].0 == p {
            if t.contains(e) {
                let j = choose|j: int| 0 <= j < t.len() && t[j] == e;
                if j < i {
                    assert(s[j] == e);
                } else {
                    assert(s[j + 1] == e);
                    assert(s[i].0 < s[j + 1].0);
                }
            }
            if s.contains(e) && e.0 != p {
                let j = choose|j: int| 0 <= j < s.len() && s[j] == e;
                if j < i {
                    assert(t[j] == e);
                } else {
                    assert(t[j - 1] == e);
                }
            }
        } else {
            if s.contains(e) {
                let j = choose|j: int| 0 <= j < s.len() && s[j] == e;
                if j < i {
                    assert(s[j].0 < p);
                } else {
                    assert(s[j].0 >= p);
                    if j > i {
                        assert(s[i].0 < s[j].0);
                    }
                }
            }
        }
    }
}

/// After dropping replicas `0..n`, no entry remains at any of their points,
/// and every remaining entry was there before.
proof fn lemma_drop_replicas_entries<T: RingItem>(s: Seq<(u64, T)>, b: T, n: nat)
    requires
        sorted(s),
    ensures
        forall|e: (u64, T)| #[trigger] drop_replicas(s, b, n).contains(e) ==> s.contains(e)
            && forall|j: int| 0 <= j < n ==> e.0 != replica_point(b.ring_bytes(), j),
    decreases n,
{
    if n > 0 {
        let m = (n - 1) as nat;
        lemma_drop_replicas_entries(s, b, m);
        lemma_drop_replicas_sorted(s, b, m);
        lemma_drop_point_entries(drop_replicas(s, b, m), replica_point(b.ring_bytes(), m as int));
    }
}

/// The points of replicas `0..n` of every bucket of `bs` are pairwise distinct.
pub open spec fn points_distinct<T: RingItem>(bs: Seq<T>, n: nat) -> bool {
    forall|k1: int, j1: int, k2: int, j2: int|
        0 <= k1 < bs.len() && 0 <= k2 < bs.len() && 0 <= j1 < n && 0 <= j2 < n && (k1 != k2 || j1 != j2)
            ==> #[trigger] replica_point(bs[k1].ring_bytes(), j1) != #[trigger] replica_point(bs[k2].ring_bytes(), j2)
}

/// No entry of `s` lies at the point of one of replicas `0..m` of `b`.
pub open spec fn points_free<T: RingItem>(s: Seq<(u64, T)>, b: T, m: nat) -> bool {
    forall|j: int, k: int| 0 <= j < s.len() && 0 <= k < m ==> #[trigger] s[j].0 != #[trigger] replica_point(b.ring_bytes(), k)
}

/// The points of replicas `0..m` of `b` are pairwise distinct.
pub open spec fn own_points_distinct<T: RingItem>(b: T, m: nat) -> bool {
    forall|j1: int, j2: int| 0 <= j1 < j2 < m ==> #[trigger] replica_point(b.ring_bytes(), j1) != #[trigger] replica_point(b.ring_bytes(), j2)
}

/// Placing replicas `0..m` of `b` keeps every entry at another point and
/// adds the replicas' entries; when their points are new and distinct the
/// length grows by `m`.
proof fn lemma_put_replicas_entries<T: RingItem>(s: Seq<(u64, T)>, b: T, m: nat)
    requires
        sorted(s),
    ensures
        forall|e: (u64, T)| #[trigger] put_replicas(s, b, m).contains(e) ==> s.contains(e)
            || exists|j: int| 0 <= j < m && e == (replica_point(b.ring_bytes(), j), b),
        forall|j: int| 0 <= j < m ==> #[trigger] put_replicas(s, b, m).contains((replica_point(b.ring_bytes(), j), b)),
        forall|e: (u64, T)| s.contains(e) && (forall|j: int| 0 <= j < m ==> e.0 != replica_point(b.ring_bytes(), j))
            ==> #[trigger] put_replicas(s, b, m).contains(e),
        points_free(s, b, m) && own_points_distinct(b, m) ==> put_replicas(s, b, m).len() == s.len() + m,
        put_replicas(s, b, m).len() >= s.len(),
    decreases m,
{
    if m > 0 {
        let k = (m - 1) as nat;
        let pk = replica_point(b.ring_bytes(), k as int);
        let t = put_replicas(s, b, k);
        lemma_put_replicas_entries(s, b, k);
        lemma_put_replicas_sorted(s, b, k);
        lemma_put_point_entries(t, pk, b);
        let u = put_replicas(s, b, m);
        assert(u == put_point(t, pk, b));
        assert forall|e: (u64, T)| #[trigger] u.contains(e) implies s.contains(e)
            || exists|j: int| 0 <= j < m && e == (replica_point(b.ring_bytes(), j), b) by {
            if e != (pk, b) {
                assert(t.contains(e));
            }
        }
        assert forall|j: int| 0 <= j < m implies #[trigger] u.contains((replica_point(b.ring_bytes(), j), b)) by {
            if j < k {
                assert(t.contains((replica_point(b.ring_bytes(), j), b)));
            }
        }
        assert forall|e: (u64, T)| s.contains(e) && (forall|j: int| 0 <= j < m ==> e.0 != replica_point(b.ring_bytes(), j))
            implies #[trigger] u.contains(e) by {
            assert(e.0 != replica_point(b.ring_bytes(), k as int));
            assert(forall|j: int| 0 <= j < k ==> e.0 != replica_point(b.ring_bytes(), j));
            assert(t.contains(e));
        }
        if points_free(s, b, m) && own_points_distinct(b, m) {
            assert forall|j: int| 0 <= j < t.len() implies t[j].0 != pk by {
                assert(t.contains(t[j]));
                if s.contains(t[j]) {
                    let i = choose|i: int| 0 <= i < s.len() && s[i] == t[j];
                    assert(s[i].0 != replica_point(b.ring_bytes(), k as int));
                }
            }
        }
    }
}

/// The entries of the walk from any point are those of the ring.
pub proof fn lemma_clockwise_entries<T>(s: Seq<(u64, T)>, p: u64)
    requires
        sorted(s),
    ensures
        clockwise(s, p).len() == s.len(),
        forall|e: (u64, T)| #[trigger] clockwise(s, p).contains(e) <==> s.contains(e),
{
    lemma_split_bounds(s, p);
    let i = split_at(s, p) as int;
    let c = clockwise(s, p);
    assert forall|e: (u64, T)| #[trigger] c.contains(e) <==> s.contains(e) by {
        if c.contains(e) {
            let j = choose|j: int| 0 <= j < c.len() && c[j] == e;
            if j < s.len() - i {
                assert(s[i + j] == e);
            } else {
                assert(s[j - (s.len() - i)] == e);
            }
        }
        if s.contains(e) {
            let j = choose|j: int| 0 <= j < s.len() && s[j] == e;
            if j >= i {
                assert(c[j - i] == e);
            } else {
                assert(c[s.len() - i + j] == e);
            }
        }
    }
}

/// A ring that holds a single bucket, placed with `n` replicas whose points
/// are distinct, yields exactly `n` successors from any point, all of them
/// that bucket; removing the bucket empties the ring again.
pub proof fn lemma_single_bucket<T: RingItem>(b: T, n: nat, p: u64)
    requires
        points_distinct(seq![b], n),
    ensures
        buckets_of(clockwise(put_replicas(Seq::empty(), b, n), p)).len() == n,
        forall|i: int| 0 <= i < n ==> buckets_of(clockwise(put_replicas(Seq::empty(), b, n), p))[i] == b,
        drop_replicas(put_replicas(Seq::empty(), b, n), b, n) == Seq::<(u64, T)>::empty(),
{
    let e = Seq::<(u64, T)>::empty();
    let s = put_replicas(e, b, n);
    assert(seq![b][0] == b);
    lemma_put_replicas_entries(e, b, n);
    lemma_put_replicas_sorted(e, b, n);
    lemma_clockwise_entries(s, p);
    let c = clockwise(s, p);
    assert forall|i: int| 0 <= i < n implies buckets_of(c)[i] == b by {
        assert(c.contains(c[i]));
        assert(s.contains(c[i]));
    }
    lemma_drop_replicas_entries(s, b, n);
    let d = drop_replicas(s, b, n);
    if d.len() > 0 {
        assert(d.contains(d[0]));
        assert(s.contains(d[0]));
        let j = choose|j: int| 0 <= j < n && d[0] == (replica_point(b.ring_bytes(), j), b);
    }
    assert(d =~= e);
}

/// Setting a point to the entry already there changes nothing.
proof fn lemma_put_point_present<T>(s: Seq<(u64, T)>, p: u64, b: T)
    requires
        sorted(s),
        s.contains((p, b)),
    ensures
        put_point(s, p, b) == s,
{
    lemma_split_bounds(s, p);
    let i = split_at(s, p) as int;
    let j = choose|j: int| 0 <= j < s.len() && s[j] == (p, b);
    if j > i {
        assert(s[i].0 < s[j].0);
    }
    assert(j == i);
    assert(s.update(i, (p, b)) =~= s);
}

/// Placing replicas of `b` on a ring that already holds all of them changes nothing.
proof fn lemma_put_replicas_present<T: RingItem>(s: Seq<(u64, T)>, b: T, k: nat)
    requires
        sorted(s),
        forall|j: int| 0 <= j < k ==> s.contains((replica_point(b.ring_bytes(), j), b)),
    ensures
        put_replicas(s, b, k) == s,
    decreases k,
{
    if k > 0 {
        lemma_put_replicas_present(s, b, (k - 1) as nat);
        lemma_put_point_present(s, replica_point(b.ring_bytes(), k - 1), b);
    }
}

/// Inserting the same bucket twice leaves the ring as inserting it once.
pub proof fn lemma_insert_idempotent<T: RingItem>(s: Seq<(u64, T)>, b: T, n: nat)
    requires
        sorted(s),
    ensures
        put_replicas(put_replicas(s, b, n), b, n) == put_replicas(s, b, n),
{
    lemma_put_replicas_entries(s, b, n);
    lemma_put_replicas_sorted(s, b, n);
    lemma_put_replicas_present(put_replicas(s, b, n), b, n);
}

/// The entries of a ring built from `bs`: each is a replica of one of the
/// buckets; with distinct points, all of them are there.
pub proof fn lemma_put_buckets_entries<T: RingItem>(bs: Seq<T>, n: nat)
    ensures
        sorted(put_buckets(Seq::empty(), bs, n)),
        forall|e: (u64, T)| #[trigger] put_buckets(Seq::empty(), bs, n).contains(e) ==> exists|k: int, j: int|
            0 <= k < bs.len() && 0 <= j < n && e == (replica_point(bs[k].ring_bytes(), j), bs[k]),
        bs.len() > 0 && n > 0 ==> put_buckets(Seq::empty(), bs, n).len() > 0,
        points_distinct(bs, n) ==> put_buckets(Seq::empty(), bs, n).len() == bs.len() * n,
        points_distinct(bs, n) ==> forall|k: int, j: int| 0 <= k < bs.len() && 0 <= j < n
            ==> #[trigger] put_buckets(Seq::empty(), bs, n).contains((replica_point(bs[k].ring_bytes(), j), bs[k])),
    decreases bs.len(),
{
    let e0 = Seq::<(u64, T)>::empty();
    if bs.len() > 0 {
        let cs = bs.drop_last();
        let b = bs.last();
        lemma_put_buckets_entries(cs, n);
        let t = put_buckets(e0, cs, n);
        let r = put_buckets(e0, bs, n);
        assert(r == put_replicas(t, b, n));
        lemma_put_replicas_entries(t, b, n);
        lemma_put_replicas_sorted(t, b, n);
        let last = bs.len() - 1;
        assert(bs[last] == b);
        assert forall|e: (u64, T)| #[trigger] r.contains(e) implies exists|k: int, j: int|
            0 <= k < bs.len() && 0 <= j < n && e == (replica_point(bs[k].ring_bytes(), j), bs[k]) by {
            if t.contains(e) {
                let (k, j) = choose|k: int, j: int| 0 <= k < cs.len() && 0 <= j < n && e == (replica_point(cs[k].ring_bytes(), j), cs[k]);
                assert(cs[k] == bs[k]);
            } else {
                let j = choose|j: int| 0 <= j < n && e == (replica_point(b.ring_bytes(), j), b);
            }
        }
        if n > 0 {
            assert(r.contains((replica_point(b.ring_bytes(), 0), b)));
        }
        if points_distinct(bs, n) {
            assert(points_distinct(cs, n)) by {
                assert forall|k1: int, j1: int, k2: int, j2: int|
                    0 <= k1 < cs.len() && 0 <= k2 < cs.len() && 0 <= j1 < n && 0 <= j2 < n && (k1 != k2 || j1 != j2)
                    implies #[trigger] replica_point(cs[k1].ring_bytes(), j1) != #[trigger] replica_point(cs[k2].ring_bytes(), j2) by {
                    assert(cs[k1] == bs[k1] && cs[k2] == bs[k2]);
                    assert(replica_point(bs[k1].ring_bytes(), j1) != replica_point(bs[k2].ring_bytes(), j2));
                }
            }
            assert(own_points_distinct(b, n)) by {
                assert forall|j1: int, j2: int| 0 <= j1 < j2 < n implies #[trigger] replica_point(b.ring_bytes(), j1)
                    != #[trigger] replica_point(b.ring_bytes(), j2) by {
                    assert(replica_point(bs[last].ring_bytes(), j1) != replica_point(bs[last].ring_bytes(), j2));
                }
            }
            assert(points_free(t, b, n)) by {
                assert forall|i: int, jj: int| 0 <= i < t.len() && 0 <= jj < n implies #[trigger] t[i].0
                    != #[trigger] replica_point(b.ring_bytes(), jj) by {
                    assert(t.contains(t[i]));
                    let (k, j) = choose|k: int, j: int| 0 <= k < cs.len() && 0 <= j < n && t[i] == (replica_point(cs[k].ring_bytes(), j), cs[k]);
                    assert(cs[k] == bs[k]);
                    assert(replica_point(bs[k].ring_bytes(), j) != replica_point(bs[last].ring_bytes(), jj));
                }
            }
            assert(r.len() == bs.len() * n) by (nonlinear_arith)
                requires
                    r.len() == t.len() + n,
                    t.len() == cs.len() * n,
                    cs.len() + 1 == bs.len(),
            ;
            assert forall|k: int, j: int| 0 <= k < bs.len() && 0 <= j < n
                implies #[trigger] r.contains((replica_point(bs[k].ring_bytes(), j), bs[k])) by {
                if k < last {
                    assert(cs[k] == bs[k]);
                    assert(t.contains((replica_point(cs[k].ring_bytes(), j), cs[k])));
                    assert forall|jj: int| 0 <= jj < n implies replica_point(bs[k].ring_bytes(), j) != replica_point(b.ring_bytes(), jj) by {
                        assert(replica_point(bs[k].ring_bytes(), j) != replica_point(bs[last].ring_bytes(), jj));
                    }
                }
            }
        }
    }
}

/// On a ring built from `bs`, with `n > 0` replicas each, the walk from any
/// point starts at one of the buckets of `bs`; when all points are distinct
/// it holds exactly `bs.len() * n` entries.
pub proof fn lemma_many_buckets<T: RingItem>(bs: Seq<T>, n: nat, p: u64)
    requires
        bs.len() > 0,
        n > 0,
    ensures
        buckets_of(clockwise(put_buckets(Seq::empty(), bs, n), p)).len() > 0,
        bs.contains(buckets_of(clockwise(put_buckets(Seq::empty(), bs, n), p))[0]),
        points_distinct(bs, n) ==> buckets_of(clockwise(put_buckets(Seq::empty(), bs, n), p)).len() == bs.len() * n,
{
    let r = put_buckets(Seq::empty(), bs, n);
    lemma_put_buckets_entries(bs, n);
    lemma_clockwise_entries(r, p);
    let c = clockwise(r, p);
    assert(c.contains(c[0]));
    assert(r.contains(c[0]));
    let (k, j) = choose|k: int, j: int| 0 <= k < bs.len() && 0 <= j < n && c[0] == (replica_point(bs[k].ring_bytes(), j), bs[k]);
    assert(bs[k] == buckets_of(c)[0]);
}

/// A consistent hash ring over buckets of type `T`.
pub struct HashRing<T> {
    entries: Vec<(u64, T)>,
    replicas: i32,
}

impl<T> View for HashRing<T> {
    type V = Seq<(u64, T)>;

    /// The ring's entries in ascending order of point.
    closed spec fn view(&self) -> Seq<(u64, T)> {
        self.entries@
    }
}

impl<T: RingBucket> HashRing<T> {
    /// The number of virtual points each bucket occupies.
    pub closed spec fn virtual_replicas(&self) -> int {
        self.replicas as int
    }

    pub open spec fn wf(&self) -> bool {
        &&& sorted(self@)
        &&& self.virtual_replicas() > 0
        &&& self.virtual_replicas() <= i32::MAX
    }

    /// The buckets met walking clockwise from the point of `item`, one per entry.
    pub open spec fn successors_of<V: RingItem>(&self, item: &V) -> Seq<T> {
        self.successors_at(item_point(item))
    }

    /// The buckets met walking clockwise from point `p`, one per entry.
    pub open spec fn successors_at(&self, p: u64) -> Seq<T> {
        buckets_of(clockwise(self@, p))
    }

    pub fn new(replicas: i32) -> (r: Self)
        requires
            replicas > 0,
        ensures
            r.wf(),
            r@ == Seq::<(u64, T)>::empty(),
            r.virtual_replicas() == replicas,
    {
        HashRing { entries: Vec::new(), replicas }
    }

    /// The index at which an entry for point `p` belongs.
    fn find(&self, p: u64) -> (i: usize)
        requires
            self.wf(),
        ensures
            i == split_at(self@, p),
            i <= self@.len(),
    {
        let mut i: usize = 0;
        while i < self.entries.len() && self.entries[i].0 < p
            invariant
                i <= self.entries@.len(),
                forall|j: int| 0 <= j < i ==> self.entries@[j].0 < p,
            decreases self.entries@.len() - i,
        {
            i = i + 1;
        }
        proof {
            lemma_split_at(self@, p, i as int);
        }
        i
    }

    fn put_entry(&mut self, p: u64, b: T)
        requires
            old(self).wf(),
        ensures
            final(self)@ == put_point(old(self)@, p, b),
            final(self).virtual_replicas() == old(self).virtual_replicas(),
            final(self).wf(),
    {
        let i = self.find(p);
        proof {
            lemma_put_point_sorted(self@, p, b);
        }
        if i < self.entries.len() && self.entries[i].0 == p {
            self.entries.set(i, (p, b));
        } else {
            self.entries.insert(i, (p, b));
        }
    }

    fn drop_entry(&mut self, p: u64)
        requires
            old(self).wf(),
        ensures
            final(self)@ == drop_point(old(self)@, p),
            final(self).virtual_replicas() == old(self).virtual_replicas(),
            final(self).wf(),
    {
        let i = self.find(p);
        proof {
            lemma_drop_point_sorted(self@, p);
        }
        if i < self.entries.len() && self.entries[i].0 == p {
            self.entries.remove(i);
        }
    }

    /// Places the bucket's virtual replicas on the ring; an entry already at
    /// one of their points is overwritten.
    pub fn insert(&mut self, bucket: T)
        requires
            old(self).wf(),
        ensures
            final(self).wf(),
            final(self).virtual_replicas() == old(self).virtual_replicas(),
            final(self)@ == put_replicas(old(self)@, bucket, old(self).virtual_replicas() as nat),
    {
        let bytes = bucket.to_ring_bytes();
        let ghost start = self@;
        let mut k: i32 = 0;
        while k < self.replicas
            invariant
                self.wf(),
                0 <= k <= self.virtual_replicas(),
                self.virtual_replicas() == old(self).virtual_replicas(),
                start == old(self)@,
                bytes@ == bucket.ring_bytes(),
                self@ == put_replicas(start, bucket, k as nat),
            decreases self.virtual_replicas() - k,
        {
            let mut key = copy_bytes(bytes.as_slice());
            let mut idx = to_le_bytes(k);
            key.append(&mut idx);
            let p = hash_bytes(key.as_slice());
            self.put_entry(p, bucket.duplicate());
            k = k + 1;
        }
    }

    /// Removes the points of the bucket's virtual replicas from the ring.
    /// A point that another bucket has since overwritten is removed as well.
    pub fn remove(&mut self, bucket: &T)
        requires
            old(self).wf(),
        ensures
            final(self).wf(),
            final(self).virtual_replicas() == old(self).virtual_replicas(),
            final(self)@ == drop_replicas(old(self)@, *bucket, old(self).virtual_replicas() as nat),
    {
        let bytes = bucket.to_ring_bytes();
        let ghost start = self@;
        let mut k: i32 = 0;
        while k < self.replicas
            invariant
                self.wf(),
                0 <= k <= self.virtual_replicas(),
                self.virtual_replicas() == old(self).virtual_replicas(),
                start == old(self)@,
                bytes@ == bucket.ring_bytes(),
                self@ == drop_replicas(start, *bucket, k as nat),
            decreases self.virtual_replicas() - k,
        {
            let mut key = copy_bytes(bytes.as_slice());
            let mut idx = to_le_bytes(k);
            key.append(&mut idx);
            let p = hash_bytes(key.as_slice());
            self.drop_entry(p);
            k = k + 1;
        }
    }

    /// The buckets met walking clockwise from the item's point: first the
    /// entries at or after it, then those before it, one per virtual point.
    pub fn successors<V: RingItem>(&self, item: &V) -> (r: Vec<T>)
        requires
            self.wf(),
        ensures
            r@ == self.successors_of(item),
    {
        let p = point(item);
        let start = self.find(p);
        let n = self.entries.len();
        let ghost order = clockwise(self@, p);
        let mut r: Vec<T> = Vec::new();
        let mut j: usize = 0;
        while j < n
            invariant
                n == self@.len(),
                start <= n,
                start == split_at(self@, p),
                order == clockwise(self@, p),
                j <= n,
                r@ == buckets_of(order.subrange(0, j as int)),
            decreases n - j,
        {
            let i = if j < n - start { start + j } else { j - (n - start) };
            r.push(self.entries[i].1.duplicate());
            j = j + 1;
            assert(r@ =~= buckets_of(order.subrange(0, j as int)));
        }
        assert(order.subrange(0, n as int) =~= order);
        r
    }

    /// The first bucket met walking clockwise from the item's point, or
    /// `None` on an empty ring.
    pub fn get<V: RingItem>(&self, item: &V) -> (r: Option<&T>)
        requires
            self.wf(),
        ensures
            r is None <==> self@.len() == 0,
            r is Some ==> *r->0 == self.successors_of(item)[0],
    {
        if self.entries.len() == 0 {
            return None;
        }
        let p = point(item);
        let i = self.find(p);
        proof {
            let s = self@;
            assert(clockwise(s, p)[0] == if i < s.len() { s[i as int] } else { s[0] });
        }
        if i < self.entries.len() {
            Some(&self.entries[i].1)
        } else {
            Some(&self.entries[0].1)
        }
    }
}

} // verus!
