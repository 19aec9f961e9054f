//! The storage engine: distance-gated admission, farthest-first eviction
//! once capacity has been reached, and the radius that follows from it.
//!
//! The engine owns the decisions and the index of stored keys. The durable
//! content store and the usage probe are driven by the caller: before `store`
//! it writes the value and measures the usage, after it deletes the key that
//! `store` hands back as evicted.
use vstd::prelude::*;
use crate::distance::{distance, distance_between};

verus! {

/// What a content key is to the metric: its UTF-8 bytes.
pub open spec fn key_bytes(k: Seq<char>) -> Seq<u8> {
    vstd::utf8::encode_utf8(k)
}

pub open spec fn bytes_of_keys(v: Seq<String>) -> Seq<Seq<u8>> {
    v.map_values(|s: String| key_bytes(s@))
}

pub open spec fn bytes_of_key(k: Option<String>) -> Option<Seq<u8>> {
    match k {
        Some(s) => Some(key_bytes(s@)),
        None => None,
    }
}

/// Index of the first key at the greatest distance from `node_id`.
pub open spec fn farthest_index(keys: Seq<Seq<u8>>, node_id: Seq<u8>) -> int
    decreases keys.len(),
{
    if keys.len() <= 1 {
        0
    } else {
        let j = farthest_index(keys.drop_last(), node_id);
        if distance(keys.last(), node_id) > distance(keys[j], node_id) {
            keys.len() - 1
        } else {
            j
        }
    }
}

/// The first key at the greatest distance from `node_id`, if any key is held.
pub open spec fn farthest_of(keys: Seq<Seq<u8>>, node_id: Seq<u8>) -> Option<Seq<u8>> {
    if keys.len() == 0 {
        None
    } else {
        Some(keys[farthest_index(keys, node_id)])
    }
}

/// Construction input of the engine.
pub struct PortalStorageConfig {
    pub storage_capacity_kb: u64,
    pub node_id: [u8; 32],
}

/// What a call of `store` did, and what the caller must delete in turn.
pub enum StoreOutcome {
    /// The key lies outside the radius: nothing was written.
    Rejected,
    /// The key is held and nothing was evicted.
    Kept,
    /// The key is held and the named key was evicted.
    Evicted(String),
}

/// The engine's state as mathematics.
pub struct StorageView {
    pub node_id: Seq<u8>,
    pub storage_capacity_kb: u64,
    pub data_radius: u64,
    pub farthest_key: Option<Seq<u8>>,
    /// The keys held in the content store, each once.
    pub keys: Seq<Seq<u8>>,
    pub capacity_reached: bool,
}

impl StorageView {
    pub open spec fn distance_of(self, k: Seq<u8>) -> u64 {
        distance(k, self.node_id)
    }

    /// Whether `store` takes the key: always while the radius is unbounded,
    /// else when the key lies strictly inside it.
    pub open spec fn admits(self, k: Seq<u8>) -> bool {
        self.data_radius == u64::MAX || self.distance_of(k) < self.data_radius
    }

    pub open spec fn wf(self) -> bool {
        &&& self.node_id.len() == 32
        &&& self.keys.no_duplicates()
        &&& (self.farthest_key is None ==> self.keys.len() == 0)
        &&& (self.farthest_key matches Some(f) ==> {
            &&& self.keys.contains(f)
            &&& forall|i: int|
                0 <= i < self.keys.len() ==> self.distance_of(#[trigger] self.keys[i])
                    <= self.distance_of(f)
        })
        &&& (!self.capacity_reached ==> self.data_radius == u64::MAX)
        &&& (self.data_radius < u64::MAX ==> (self.farthest_key matches Some(f)
            && self.data_radius == self.distance_of(f)))
    }

    /// The keys once `k` is written: it is added unless already held.
    pub open spec fn with_key(self, k: Seq<u8>) -> Seq<Seq<u8>> {
        if self.keys.contains(k) {
            self.keys
        } else {
            self.keys.push(k)
        }
    }

    /// `k` becomes the farthest key when none is known or it lies strictly farther.
    pub open spec fn track(self, k: Seq<u8>) -> StorageView {
        match self.farthest_key {
            None => StorageView { farthest_key: Some(k), ..self },
            Some(f) => if self.distance_of(k) > self.distance_of(f) {
                StorageView { farthest_key: Some(k), ..self }
            } else {
                self
            },
        }
    }

    /// The state after the farthest key `f` is evicted from `keys` and the
    /// farthest among the rest is looked up.
    pub open spec fn evict(self, keys: Seq<Seq<u8>>, f: Seq<u8>) -> StorageView {
        let rest = keys.remove(keys.index_of(f));
        match farthest_of(rest, self.node_id) {
            Some(g) => StorageView {
                keys: rest,
                farthest_key: Some(g),
                data_radius: self.distance_of(g),
                ..self
            },
            None => StorageView { keys: rest, farthest_key: None, ..self },
        }
    }

    /// The state after `store(k)`, with `usage_kb` the usage measured after
    /// writing `k`.
    pub open spec fn store_step(self, k: Seq<u8>, usage_kb: u64) -> StorageView {
        if !self.admits(k) {
            self
        } else if self.capacity_reached {
            match self.farthest_key {
                Some(f) => {
                    let after = self.evict(self.with_key(k), f);
                    if f == k {
                        after
                    } else {
                        after.track(k)
                    }
                },
                None => StorageView { keys: self.with_key(k), ..self }.track(k),
            }
        } else {
            StorageView {
                keys: self.with_key(k),
                capacity_reached: usage_kb > self.storage_capacity_kb,
                ..self
            }.track(k)
        }
    }
}

/// The storage engine of one node.
pub struct PortalStorage {
    node_id: [u8; 32],
    storage_capacity_kb: u64,
    data_radius: u64,
    farthest_key: Option<String>,
    stored_keys: Vec<String>,
    capacity_reached: bool,
}

impl View for PortalStorage {
    type V = StorageView;

    closed spec fn view(&self) -> StorageView {
        StorageView {
            node_id: self.node_id@,
            storage_capacity_kb: self.storage_capacity_kb,
            data_radius: self.data_radius,
            farthest_key: bytes_of_key(self.farthest_key),
            keys: bytes_of_keys(self.stored_keys@),
            capacity_reached: self.capacity_reached,
        }
    }
}

/// Whether two keys have the same bytes.
fn same_key(a: &String, b: &String) -> (r: bool)
    ensures
        r == (key_bytes(a@) == key_bytes(b@)),
{
    let x = a.as_str().as_bytes();
    let y = b.as_str().as_bytes();
    if x.len() != y.len() {
        return false;
    }
    let mut i: usize = 0;
    while i < x.len()
        invariant
            x@ == key_bytes(a@),
            y@ == key_bytes(b@),
            x@.len() == y@.len(),
            i <= x@.len(),
            forall|j: int| 0 <= j < i ==> x@[j] == y@[j],
        decreases x@.len() - i,
    {
        if x[i] != y[i] {
            assert(x@[i as int] != y@[i as int]);
            return false;
        }
        i = i + 1;
    }
    assert(x@ =~= y@);
    true
}

/// Where `k` stands among `keys`, if it is there.
fn position_of(keys: &Vec<String>, k: &String) -> (r: Option<usize>)
    ensures
        r matches Some(i) ==> i < keys@.len() && bytes_of_keys(keys@)[i as int] == key_bytes(
            k@,
        ),
        r is None ==> !bytes_of_keys(keys@).contains(key_bytes(k@)),
{
    let mut i: usize = 0;
    while i < keys.len()
        invariant
            i <= keys@.len(),
            forall|j: int| 0 <= j < i ==> bytes_of_keys(keys@)[j] != key_bytes(k@),
        decreases keys@.len() - i,
    {
        if same_key(&keys[i], k) {
            return Some(i);
        }
        i = i + 1;
    }
    None
}


/// The farthest index lies in range and no key is farther than the one there.
pub proof fn lemma_farthest_index(keys: Seq<Seq<u8>>, node_id: Seq<u8>)
    requires
        keys.len() > 0,
    ensures
        0 <= farthest_index(keys, node_id) < keys.len(),
        forall|j: int|
            0 <= j < keys.len() ==> distance(#[trigger] keys[j], node_id) <= distance(
                keys[farthest_index(keys, node_id)],
                node_id,
            ),
    decreases keys.len(),
{
    if keys.len() > 1 {
        let d = keys.drop_last();
        lemma_farthest_index(d, node_id);
        assert forall|j: int| 0 <= j < keys.len() implies distance(#[trigger] keys[j], node_id)
            <= distance(keys[farthest_index(keys, node_id)], node_id) by {
            if j < keys.len() - 1 {
                assert(keys[j] == d[j]);
            }
        }
    }
}

/// Taking out the key at `i` leaves the others, each once.
proof fn lemma_remove(keys: Seq<Seq<u8>>, i: int)
    requires
        0 <= i < keys.len(),
        keys.no_duplicates(),
    ensures
        keys.remove(i).no_duplicates(),
        keys.remove(i).len() == keys.len() - 1,
        forall|j: int|
            0 <= j < keys.remove(i).len() ==> keys.contains(#[trigger] keys.remove(i)[j])
                && keys.remove(i)[j] != keys[i],
        forall|x: Seq<u8>| keys.contains(x) && x != keys[i] ==> #[trigger] keys.remove(i).contains(x),
{
    let r = keys.remove(i);
    keys.remove_ensures(i);
    assert forall|a: int, b: int| 0 <= a < r.len() && 0 <= b < r.len() && a != b implies r[a]
        != r[b] by {
        let ia = if a < i { a } else { a + 1 };
        let ib = if b < i { b } else { b + 1 };
        assert(r[a] == keys[ia]);
        assert(r[b] == keys[ib]);
    }
    assert forall|j: int| 0 <= j < r.len() implies keys.contains(#[trigger] r[j]) && r[j]
        != keys[i] by {
        let ij = if j < i { j } else { j + 1 };
        assert(r[j] == keys[ij]);
    }
    assert forall|x: Seq<u8>| keys.contains(x) && x != keys[i] implies #[trigger] r.contains(
        x,
    ) by {
        let ix = choose|ix: int| 0 <= ix < keys.len() && keys[ix] == x;
        if ix < i {
            assert(r[ix] == x);
        } else {
            assert(r[ix - 1] == x);
        }
    }
}

/// Writing `k` adds it once and keeps what was held.
proof fn lemma_with_key(s: StorageView, k: Seq<u8>)
    requires
        s.keys.no_duplicates(),
    ensures
        s.with_key(k).no_duplicates(),
        s.with_key(k).contains(k),
        forall|x: Seq<u8>| #[trigger] s.with_key(k).contains(x) <==> (s.keys.contains(x) || x == k),
{
    let w = s.with_key(k);
    if !s.keys.contains(k) {
        assert(w[s.keys.len() as int] == k);
        assert forall|x: Seq<u8>| #[trigger] w.contains(x) <==> (s.keys.contains(x) || x == k) by {
            if s.keys.contains(x) {
                let ix = choose|ix: int| 0 <= ix < s.keys.len() && s.keys[ix] == x;
                assert(w[ix] == x);
            }
            if w.contains(x) && x != k {
                let ix = choose|ix: int| 0 <= ix < w.len() && w[ix] == x;
                assert(s.keys[ix] == x);
            }
        }
    }
}

/// A `store` keeps the engine well formed and never widens its radius.
pub proof fn lemma_store_step(s: StorageView, k: Seq<u8>, usage_kb: u64)
    requires
        s.wf(),
    ensures
        s.store_step(k, usage_kb).wf(),
        s.store_step(k, usage_kb).data_radius <= s.data_radius,
        s.store_step(k, usage_kb).node_id == s.node_id,
        s.store_step(k, usage_kb).storage_capacity_kb == s.storage_capacity_kb,
        s.capacity_reached ==> s.store_step(k, usage_kb).capacity_reached,
{
    let post = s.store_step(k, usage_kb);
    if !s.admits(k) {
    } else {
        lemma_with_key(s, k);
        let w = s.with_key(k);
        if s.capacity_reached && s.farthest_key is Some {
            let f = s.farthest_key->Some_0;
            assert(w.contains(f));
            let i = w.index_of(f);
            assert(0 <= i < w.len() && w[i] == f);
            lemma_remove(w, i);
            let rest = w.remove(i);
            let after = s.evict(w, f);
            if f != k {
                assert(rest.contains(k));
            }
            if rest.len() > 0 {
                lemma_farthest_index(rest, s.node_id);
                let g = rest[farthest_index(rest, s.node_id)];
                assert(rest.contains(g));
                assert(w.contains(g));
                if f != k {
                    let ik = choose|ik: int| 0 <= ik < rest.len() && rest[ik] == k;
                    assert(distance(rest[ik], s.node_id) <= distance(g, s.node_id));
                }
                if g != k {
                    assert(s.keys.contains(g));
                    let ig = choose|ig: int| 0 <= ig < s.keys.len() && s.keys[ig] == g;
                    assert(s.distance_of(s.keys[ig]) <= s.distance_of(f));
                }
            } else {
                assert(w.len() == 1);
                assert(w[0] == f);
                assert(w.contains(k));
                assert(k == f);
            }
            assert(after.wf());
            assert(post.wf());
        } else if s.capacity_reached {
            assert(s.keys.len() == 0);
            assert(w =~= seq![k]);
            assert(post.wf());
        } else {
            let s1 = StorageView { keys: w, capacity_reached: usage_kb > s.storage_capacity_kb, ..s };
            match s.farthest_key {
                None => {
                    assert(w =~= seq![k]);
                },
                Some(f) => {
                    assert forall|j: int| 0 <= j < w.len() implies s.distance_of(#[trigger] w[j])
                        <= s.distance_of(post.farthest_key->Some_0) by {
                        assert(w.contains(w[j]));
                        if w[j] != k {
                            assert(s.keys.contains(w[j]));
                            let ij = choose|ij: int| 0 <= ij < s.keys.len() && s.keys[ij] == w[j];
                            assert(s.distance_of(s.keys[ij]) <= s.distance_of(f));
                        }
                    }
                },
            }
            assert(post.wf());
        }
    }
}

/// The state after storing each `(key, usage_kb)` of `steps` in turn.
pub open spec fn store_all(s: StorageView, steps: Seq<(Seq<u8>, u64)>) -> StorageView
    decreases steps.len(),
{
    if steps.len() == 0 {
        s
    } else {
        store_all(s, steps.drop_last()).store_step(steps.last().0, steps.last().1)
    }
}

/// The key that a `store` of `k` evicts, if any.
pub open spec fn evicted_by(s: StorageView, k: Seq<u8>) -> Option<Seq<u8>> {
    if s.admits(k) && s.capacity_reached {
        s.farthest_key
    } else {
        None
    }
}

/// Until capacity is reached every key is admitted.
pub proof fn lemma_admits_all_before_capacity(s: StorageView, k: Seq<u8>)
    requires
        s.wf(),
        !s.capacity_reached,
    ensures
        s.admits(k),
{
}

/// Once capacity is reached a key is admitted exactly when it lies strictly
/// inside the radius (a key at the greatest distance is still admitted while
/// the radius is unbounded).
pub proof fn lemma_admission_after_capacity(s: StorageView, k: Seq<u8>)
    requires
        s.wf(),
        s.capacity_reached,
        !(s.data_radius == u64::MAX && s.distance_of(k) == u64::MAX),
    ensures
        s.admits(k) == (s.distance_of(k) < s.data_radius),
{
}

/// Across any sequence of stores the radius never grows.
pub proof fn lemma_radius_non_increasing(s: StorageView, steps: Seq<(Seq<u8>, u64)>)
    requires
        s.wf(),
    ensures
        store_all(s, steps).wf(),
        store_all(s, steps).data_radius <= s.data_radius,
    decreases steps.len(),
{
    if steps.len() > 0 {
        lemma_radius_non_increasing(s, steps.drop_last());
        lemma_store_step(store_all(s, steps.drop_last()), steps.last().0, steps.last().1);
    }
}

/// After a store the index holds each key once: the keys held before and the
/// admitted key, less the evicted one. Once capacity is reached no held key
/// lies beyond the radius.
pub proof fn lemma_store_consistent(s: StorageView, k: Seq<u8>, usage_kb: u64)
    requires
        s.wf(),
    ensures
        s.store_step(k, usage_kb).keys.no_duplicates(),
        forall|x: Seq<u8>| #[trigger]
            s.store_step(k, usage_kb).keys.contains(x) <==> ((s.keys.contains(x) || (s.admits(k)
                && x == k)) && evicted_by(s, k) != Some(x)),
        s.store_step(k, usage_kb).capacity_reached ==> forall|i: int|
            0 <= i < s.store_step(k, usage_kb).keys.len() ==> s.distance_of(
                #[trigger] s.store_step(k, usage_kb).keys[i],
            ) <= s.store_step(k, usage_kb).data_radius,
{
    lemma_store_step(s, k, usage_kb);
    let post = s.store_step(k, usage_kb);
    if s.admits(k) {
        lemma_with_key(s, k);
        let w = s.with_key(k);
        if s.capacity_reached && s.farthest_key is Some {
            let f = s.farthest_key->Some_0;
            assert(s.keys.contains(f));
            assert(w.contains(f));
            let i = w.index_of(f);
            assert(0 <= i < w.len() && w[i] == f);
            lemma_remove(w, i);
            assert(post.keys == w.remove(i));
        }
    }
    if post.capacity_reached {
        assert forall|i: int| 0 <= i < post.keys.len() implies s.distance_of(
            #[trigger] post.keys[i],
        ) <= post.data_radius by {
            if post.data_radius < u64::MAX {
                let f = post.farthest_key->Some_0;
                assert(post.distance_of(post.keys[i]) <= post.distance_of(f));
            }
        }
    }
}

/// Storing a key twice in a row, with no eviction on the second store,
/// leaves the index as the first store left it: the key is not held twice.
pub proof fn lemma_restore_idempotent(s: StorageView, k: Seq<u8>, u1: u64, u2: u64)
    requires
        s.wf(),
        !s.store_step(k, u1).capacity_reached,
    ensures
        s.store_step(k, u1).store_step(k, u2).keys == s.store_step(k, u1).keys,
        s.store_step(k, u1).keys.contains(k),
        s.store_step(k, u1).keys.no_duplicates(),
{
    lemma_store_step(s, k, u1);
    lemma_with_key(s, k);
}

/// With a key held there is a farthest key: it is held, no held key lies
/// farther, and a bounded radius is its distance.
pub proof fn lemma_farthest_correct(s: StorageView)
    requires
        s.wf(),
        s.keys.len() > 0,
    ensures
        s.farthest_key is Some,
        s.keys.contains(s.farthest_key->Some_0),
        forall|i: int|
            0 <= i < s.keys.len() ==> s.distance_of(#[trigger] s.keys[i]) <= s.distance_of(
                s.farthest_key->Some_0,
            ),
        s.data_radius < u64::MAX ==> s.data_radius == s.distance_of(s.farthest_key->Some_0),
{
}

impl PortalStorage {

    /// Usage in kilobytes (of 1000 bytes, rounded down) from the content
    /// store's in-memory tables and its bytes on disk.
    pub fn get_total_storage_usage_kb(mem_table_bytes: u64, directory_bytes: u64) -> (r: u64)
        ensures
            r == (mem_table_bytes + directory_bytes) / 1000,
    {
        let total: u128 = mem_table_bytes as u128 + directory_bytes as u128;
        (total / 1000) as u64
    }

    /// Takes `key` when it lies inside the radius (see `StorageView::store_step`).
    ///
    /// The caller has written the value to the content store when
    /// `should_store(key)` held, and passes the usage measured after that
    /// write in `usage_kb` (read only until capacity is reached). Once
    /// capacity has been reached each store evicts the farthest key, which
    /// the caller then deletes from the content store.
    pub fn store(&mut self, key: &String, usage_kb: u64) -> (r: StoreOutcome)
        requires
            old(self)@.wf(),
        ensures
            final(self)@ == old(self)@.store_step(key_bytes(key@), usage_kb),
            final(self)@.wf(),
            r is Rejected <==> !old(self)@.admits(key_bytes(key@)),
            r is Evicted <==> (old(self)@.admits(key_bytes(key@)) && old(self)@.capacity_reached
                && old(self)@.farthest_key is Some),
            r matches StoreOutcome::Evicted(e) ==> old(self)@.farthest_key == Some(key_bytes(e@)),
    {
        proof {
            lemma_store_step(self@, key_bytes(key@), usage_kb);
        }
        let ghost pre = self@;
        let ghost k = key_bytes(key@);
        if !self.should_store(key) {
            return StoreOutcome::Rejected;
        }
        proof {
            lemma_with_key(pre, k);
        }
        if position_of(&self.stored_keys, key).is_none() {
            self.stored_keys.push(key.clone());
            assert(self@.keys =~= pre.keys.push(k));
        }
        assert(self@.keys == pre.with_key(k));
        if self.capacity_reached {
            let far: Option<String> = match &self.farthest_key {
                Some(f) => Some(f.clone()),
                None => None,
            };
            match far {
                Some(f) => {
                    let ghost w = self@.keys;
                    let ghost fb = key_bytes(f@);
                    match position_of(&self.stored_keys, &f) {
                        Some(i) => {
                            proof {
                                assert(w.contains(fb));
                                assert(w[w.index_of(fb)] == fb);
                                assert(w.index_of(fb) == i as int);
                            }
                            self.stored_keys.remove(i);
                            assert(self@.keys =~= w.remove(w.index_of(fb)));
                        },
                        None => {
                            assert(w.contains(fb));
                        },
                    }
                    match self.find_farthest() {
                        Some(g) => {
                            self.data_radius = self.distance_to_key(&g);
                            self.farthest_key = Some(g);
                        },
                        None => {
                            self.farthest_key = None;
                        },
                    }
                    assert(self@ == pre.evict(w, fb));
                    if !same_key(&f, key) {
                        self.track(key);
                    }
                    return StoreOutcome::Evicted(f);
                },
                None => {
                    self.track(key);
                },
            }
        } else {
            if usage_kb > self.storage_capacity_kb {
                self.capacity_reached = true;
            }
            self.track(key);
        }
        StoreOutcome::Kept
    }
    /// A fresh engine: nothing held, the radius unbounded.
    pub fn new(config: &PortalStorageConfig) -> (r: Self)
        ensures
            r@ == (StorageView {
                node_id: config.node_id@,
                storage_capacity_kb: config.storage_capacity_kb,
                data_radius: u64::MAX,
                farthest_key: None,
                keys: Seq::empty(),
                capacity_reached: false,
            }),
            r@.wf(),
    {
        let r = PortalStorage {
            node_id: config.node_id,
            storage_capacity_kb: config.storage_capacity_kb,
            data_radius: u64::MAX,
            farthest_key: None,
            stored_keys: Vec::new(),
            capacity_reached: false,
        };
        assert(r@.keys =~= Seq::empty());
        r
    }

    /// Distance from `key` to this node.
    pub fn distance_to_key(&self, key: &String) -> (r: u64)
        ensures
            r == self@.distance_of(key_bytes(key@)),
    {
        distance_between(key.as_str().as_bytes(), self.node_id.as_slice())
    }

    /// Whether `store` would take `key` now.
    pub fn should_store(&self, key: &String) -> (r: bool)
        ensures
            r == self@.admits(key_bytes(key@)),
    {
        if self.data_radius < u64::MAX {
            self.distance_to_key(key) < self.data_radius
        } else {
            true
        }
    }

    pub fn get_current_radius(&self) -> (r: u64)
        ensures
            r == self@.data_radius,
    {
        self.data_radius
    }

    pub fn is_capacity_reached(&self) -> (r: bool)
        ensures
            r == self@.capacity_reached,
    {
        self.capacity_reached
    }

    /// The held key farthest from this node; the first such when several tie.
    pub fn find_farthest(&self) -> (r: Option<String>)
        ensures
            bytes_of_key(r) == farthest_of(self@.keys, self@.node_id),
    {
        let ghost keys = self@.keys;
        let n = self.stored_keys.len();
        if n == 0 {
            return None;
        }
        let mut best: usize = 0;
        let mut best_d = self.distance_to_key(&self.stored_keys[0]);
        let mut i: usize = 1;
        while i < n
            invariant
                n == keys.len(),
                keys == self@.keys,
                1 <= i <= n,
                best < i,
                best == farthest_index(keys.take(i as int), self@.node_id),
                best_d == self@.distance_of(keys[best as int]),
            decreases n - i,
        {
            let d = self.distance_to_key(&self.stored_keys[i]);
            proof {
                let t = keys.take(i as int + 1);
                assert(t.drop_last() =~= keys.take(i as int));
                assert(t.last() == keys[i as int]);
                assert(t[best as int] == keys[best as int]);
            }
            if d > best_d {
                best = i;
                best_d = d;
            }
            i = i + 1;
        }
        assert(keys.take(n as int) =~= keys);
        Some(self.stored_keys[best].clone())
    }

    /// Makes `key` the farthest key when none is known or it lies strictly farther.
    fn track(&mut self, key: &String)
        ensures
            final(self)@ == old(self)@.track(key_bytes(key@)),
    {
        let replace = match &self.farthest_key {
            None => true,
            Some(f) => self.distance_to_key(key) > self.distance_to_key(f),
        };
        if replace {
            self.farthest_key = Some(key.clone());
        }
    }
}

} // verus!
