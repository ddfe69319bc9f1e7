//! Bounded response cache keyed by (head block, method, canonical params),
//! evicting in insertion order.
use crate::jsonrpc::{Response, ResponseView};
use vstd::prelude::*;

verus! {

/// Capacity used unless another is configured.
pub const DEFAULT_CAPACITY: usize = 128;

pub struct CacheKey {
    pub head: u64,
    pub method: String,
    pub params: String,
}

pub type KeyView = (u64, Seq<char>, Seq<char>);

pub type EntryView = (KeyView, ResponseView);

impl View for CacheKey {
    type V = KeyView;

    open spec fn view(&self) -> KeyView {
        (self.head, self.method@, self.params@)
    }
}

impl CacheKey {
    pub fn same(&self, other: &CacheKey) -> (r: bool)
        ensures
            r == (self@ == other@),
    {
        self.head == other.head && self.method == other.method && self.params == other.params
    }
}

pub open spec fn has_key(s: Seq<EntryView>, k: KeyView) -> bool {
    exists|i: int| 0 <= i < s.len() && (#[trigger] s[i]).0 == k
}

/// The value stored under `k`, if any.
pub open spec fn lookup(s: Seq<EntryView>, k: KeyView) -> Option<ResponseView> {
    if has_key(s, k) {
        Some(s[choose|i: int| 0 <= i < s.len() && (#[trigger] s[i]).0 == k].1)
    } else {
        None
    }
}

pub open spec fn keys_unique(s: Seq<EntryView>) -> bool {
    forall|i: int, j: int| #![trigger s[i], s[j]] 0 <= i < s.len() && 0 <= j < s.len() && s[i].0 == s[j].0 ==> i == j
}

/// The entries after storing `v` under `k` in a cache of capacity `cap`: a
/// present key keeps its place and takes the new value, a new key goes last,
/// and the oldest entry leaves when the size would exceed the capacity.
pub open spec fn inserted(s: Seq<EntryView>, k: KeyView, v: ResponseView, cap: nat) -> Seq<EntryView> {
    let t = if has_key(s, k) {
        s.update(choose|i: int| 0 <= i < s.len() && (#[trigger] s[i]).0 == k, (k, v))
    } else {
        s.push((k, v))
    };
    if t.len() > cap { t.drop_first() } else { t }
}

/// After storing `v` under `k`, a cache of capacity at least one finds `v` under `k`.
pub proof fn lemma_inserted_found(s: Seq<EntryView>, k: KeyView, v: ResponseView, cap: nat)
    requires
        cap >= 1,
        s.len() <= cap,
        keys_unique(s),
    ensures
        lookup(inserted(s, k, v, cap), k) == Some(v),
{
    let t = inserted(s, k, v, cap);
    if has_key(s, k) {
        let c = choose|i: int| 0 <= i < s.len() && (#[trigger] s[i]).0 == k;
        assert(t[c] == (k, v));
        assert(has_key(t, k));
        let d = choose|i: int| 0 <= i < t.len() && (#[trigger] t[i]).0 == k;
        if d != c {
            assert(s[d] == t[d]);
        }
    } else {
        let last = t.len() - 1;
        assert(t[last] == (k, v));
        assert(has_key(t, k));
        let d = choose|i: int| 0 <= i < t.len() && (#[trigger] t[i]).0 == k;
        if d != last {
            if s.push((k, v)).len() > cap {
                assert(t[d] == s[d + 1]);
            } else {
                assert(t[d] == s[d]);
            }
        }
    }
}

pub struct ResponseCache {
    pub entries: Vec<(CacheKey, Response)>,
    pub capacity: usize,
}

impl View for ResponseCache {
    type V = Seq<EntryView>;

    open spec fn view(&self) -> Seq<EntryView> {
        self.entries@.map_values(|e: (CacheKey, Response)| (e.0@, e.1@))
    }
}

impl ResponseCache {
    pub open spec fn capacity_spec(&self) -> nat {
        self.capacity as nat
    }

    pub open spec fn wf(&self) -> bool {
        &&& self.capacity >= 1
        &&& self@.len() <= self.capacity
        &&& keys_unique(self@)
    }

    /// An empty cache holding at most `capacity` entries.
    pub fn new(capacity: usize) -> (r: ResponseCache)
        requires
            capacity >= 1,
        ensures
            r.wf(),
            r@.len() == 0,
            r.capacity_spec() == capacity,
    {
        let r = ResponseCache { entries: Vec::new(), capacity };
        assert(r@ =~= Seq::<EntryView>::empty());
        r
    }

    pub fn len(&self) -> (r: usize)
        ensures
            r == self@.len(),
    {
        self.entries.len()
    }

    pub fn capacity(&self) -> (r: usize)
        ensures
            r == self.capacity_spec(),
    {
        self.capacity
    }

    /// Index of the entry under `key`, without changing the order.
    fn position(&self, key: &CacheKey) -> (r: Option<usize>)
        requires
            self.wf(),
        ensures
            r matches Some(i) ==> i < self@.len() && self@[i as int].0 == key@,
            r is None ==> !has_key(self@, key@),
    {
        let mut i: usize = 0;
        while i < self.entries.len()
            invariant
                i <= self.entries@.len(),
                forall|j: int| 0 <= j < i ==> (#[trigger] self@[j]).0 != key@,
            decreases self.entries@.len() - i,
        {
            if self.entries[i].0.same(key) {
                return Some(i);
            }
            i = i + 1;
        }
        None
    }

    /// The response stored under `key`.
    pub fn probe(&self, key: &CacheKey) -> (r: Option<Response>)
        requires
            self.wf(),
        ensures
            match r {
                Some(v) => lookup(self@, key@) == Some(v@),
                None => lookup(self@, key@) is None,
            },
    {
        match self.position(key) {
            Some(i) => {
                proof {
                    let c = choose|j: int| 0 <= j < self@.len() && (#[trigger] self@[j]).0 == key@;
                    assert(self@[i as int].0 == key@);
                }
                Some(self.entries[i].1.duplicate())
            },
            None => None,
        }
    }

    /// Stores `value` under `key`.
    pub fn insert(&mut self, key: CacheKey, value: Response)
        requires
            old(self).wf(),
        ensures
            final(self).wf(),
            final(self)@.len() <= final(self).capacity_spec(),
            final(self).capacity_spec() == old(self).capacity_spec(),
            final(self)@ == inserted(old(self)@, key@, value@, old(self).capacity_spec()),
    {
        let ghost s = self@;
        let ghost kv = (key@, value@);
        match self.position(&key) {
            Some(i) => {
                proof {
                    let c = choose|j: int| 0 <= j < s.len() && (#[trigger] s[j]).0 == key@;
                    assert(s[i as int].0 == key@);
                }
                self.entries.set(i, (key, value));
                assert(self@ =~= s.update(i as int, kv));
            },
            None => {
                self.entries.push((key, value));
                assert(self@ =~= s.push(kv));
                if self.entries.len() > self.capacity {
                    self.entries.remove(0);
                    assert(self@ =~= s.push(kv).drop_first());
                }
            },
        }
        proof {
            let t = self@;
            assert forall|i: int, j: int| #![trigger t[i], t[j]]
                0 <= i < t.len() && 0 <= j < t.len() && t[i].0 == t[j].0 implies i == j by {
                if !has_key(s, key@) && s.push(kv).len() > self.capacity {
                    assert(t[i] == s.push(kv)[i + 1]);
                    assert(t[j] == s.push(kv)[j + 1]);
                    if i + 1 < s.len() && j + 1 < s.len() {
                        assert(s[i + 1] == t[i]);
                        assert(s[j + 1] == t[j]);
                    } else if i + 1 < s.len() {
                        assert(s[i + 1] == t[i]);
                    } else if j + 1 < s.len() {
                        assert(s[j + 1] == t[j]);
                    }
                } else if !has_key(s, key@) {
                    if i < s.len() && j < s.len() {
                        assert(s[i] == t[i]);
                        assert(s[j] == t[j]);
                    } else if i < s.len() {
                        assert(s[i] == t[i]);
                    } else if j < s.len() {
                        assert(s[j] == t[j]);
                    }
                } else {
                    let c = choose|q: int| 0 <= q < s.len() && (#[trigger] s[q]).0 == key@;
                    if i != c && j != c {
                        assert(s[i] == t[i]);
                        assert(s[j] == t[j]);
                    } else if i != c {
                        assert(s[i] == t[i]);
                        assert(s[c].0 == s[i].0);
                    } else if j != c {
                        assert(s[j] == t[j]);
                        assert(s[c].0 == s[j].0);
                    }
                }
            }
        }
    }
}

} // verus!
