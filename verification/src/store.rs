//! The keyspace store: a mapping from key to value-with-expiry, modelled as
//! the sequence of its entries, with lazy expiry checked on read.
use vstd::prelude::*;

verus! {

/// One keyspace entry: the stored bytes, the millisecond timestamp of its
/// insertion, and an optional time-to-live in milliseconds.
pub struct ValueProperties {
    pub value: Vec<u8>,
    pub insert_time: u128,
    pub expire_time: Option<u128>,
}

/// Mathematical model of one entry.
pub struct StoredModel {
    pub value: Seq<u8>,
    pub insert_time: int,
    pub expire_time: Option<int>,
}

/// Milliseconds from `t` to `now`, zero when `now` is earlier.
pub open spec fn spec_elapsed(t: int, now: int) -> int {
    if now >= t {
        now - t
    } else {
        0
    }
}

/// An entry is expired exactly when it has a time-to-live and more than that
/// many milliseconds have passed since it was inserted.
pub open spec fn spec_expired(v: StoredModel, now: int) -> bool {
    match v.expire_time {
        Some(e) => spec_elapsed(v.insert_time, now) > e,
        None => false,
    }
}

impl ValueProperties {
    pub open spec fn model(&self) -> StoredModel {
        StoredModel {
            value: self.value@,
            insert_time: self.insert_time as int,
            expire_time: match self.expire_time {
                Some(e) => Some(e as int),
                None => None,
            },
        }
    }

    pub fn new(value: Vec<u8>, insert_time: u128, expire_time: Option<u128>) -> (r: Self)
        ensures
            r.model() == (StoredModel {
                value: value@,
                insert_time: insert_time as int,
                expire_time: match expire_time {
                    Some(e) => Some(e as int),
                    None => None::<int>,
                },
            }),
    {
        Self { value, insert_time, expire_time }
    }

    /// Whether this entry is expired at time `now` (milliseconds).
    pub fn is_expired(&self, now: u128) -> (r: bool)
        ensures
            r == spec_expired(self.model(), now as int),
    {
        if let Some(expire_time) = self.expire_time {
            let elapsed: u128 = if now >= self.insert_time {
                now - self.insert_time
            } else {
                0
            };
            elapsed > expire_time
        } else {
            false
        }
    }
}

/// The keyspace as contracts speak of it: entries in insertion order.
pub type StoreModel = Seq<(Seq<u8>, StoredModel)>;

/// The entry stored under `k`: the first entry whose key is `k`, if any.
pub open spec fn lookup(m: StoreModel, k: Seq<u8>) -> Option<StoredModel>
    decreases m,
{
    if m.len() == 0 {
        None
    } else if m[0].0 == k {
        Some(m[0].1)
    } else {
        lookup(m.drop_first(), k)
    }
}

pub open spec fn contains_key(m: StoreModel, k: Seq<u8>) -> bool {
    lookup(m, k) is Some
}

/// What SET does to the keyspace: insert only when the key is absent; an
/// existing entry, even an expired one, is never overwritten.
pub open spec fn spec_set_if_absent(m: StoreModel, k: Seq<u8>, v: StoredModel) -> StoreModel {
    if contains_key(m, k) {
        m
    } else {
        m.push((k, v))
    }
}

/// A key is found exactly when some entry holds it.
pub proof fn lemma_lookup_exists(m: StoreModel, k: Seq<u8>)
    ensures
        contains_key(m, k) <==> exists|i: int| 0 <= i < m.len() && #[trigger] m[i].0 == k,
    decreases m,
{
    if m.len() > 0 {
        lemma_lookup_exists(m.drop_first(), k);
        if m[0].0 != k && contains_key(m, k) {
            let i = choose|i: int| 0 <= i < m.drop_first().len() && #[trigger] m.drop_first()[i].0
                == k;
            assert(m[i + 1].0 == k);
        }
        if exists|i: int| 0 <= i < m.len() && #[trigger] m[i].0 == k {
            let i = choose|i: int| 0 <= i < m.len() && #[trigger] m[i].0 == k;
            if i > 0 {
                assert(m.drop_first()[i - 1].0 == k);
            }
        }
    }
}

/// Appending a fresh entry: the new key is then found, every other key is
/// looked up as before.
pub proof fn lemma_lookup_push(m: StoreModel, k: Seq<u8>, v: StoredModel, q: Seq<u8>)
    ensures
        lookup(m.push((k, v)), q) == (if contains_key(m, q) {
            lookup(m, q)
        } else if q == k {
            Some(v)
        } else {
            None::<StoredModel>
        }),
    decreases m,
{
    if m.len() == 0 {
        assert(m.push((k, v)).drop_first() =~= Seq::<(Seq<u8>, StoredModel)>::empty());
        assert(m.push((k, v))[0] == (k, v));
    } else {
        assert(m.push((k, v)).drop_first() =~= m.drop_first().push((k, v)));
        assert(m.push((k, v))[0] == m[0]);
        lemma_lookup_push(m.drop_first(), k, v, q);
    }
}

/// Keys stay pairwise distinct under insert-if-absent.
pub open spec fn keys_unique(m: StoreModel) -> bool {
    forall|i: int, j: int| 0 <= i < j < m.len() ==> (#[trigger] m[i].0) != (#[trigger] m[j].0)
}

pub proof fn lemma_set_if_absent_keys_unique(m: StoreModel, k: Seq<u8>, v: StoredModel)
    requires
        keys_unique(m),
    ensures
        keys_unique(spec_set_if_absent(m, k, v)),
{
    lemma_lookup_exists(m, k);
    if !contains_key(m, k) {
        let m2 = m.push((k, v));
        assert forall|i: int, j: int| 0 <= i < j < m2.len() implies (#[trigger] m2[i].0) != (
        #[trigger] m2[j].0) by {
            if j < m.len() {
                assert(m2[i] == m[i] && m2[j] == m[j]);
            } else {
                assert(m2[j] == (k, v) && m2[i] == m[i]);
            }
        }
    }
}

/// Byte-for-byte equality of two slices.
pub fn bytes_eq(a: &[u8], b: &[u8]) -> (r: bool)
    ensures
        r == (a@ == b@),
{
    if a.len() != b.len() {
        return false;
    }
    let mut i: usize = 0;
    while i < a.len()
        invariant
            i <= a@.len(),
            a@.len() == b@.len(),
            forall|j: int| 0 <= j < i ==> a@[j] == b@[j],
        decreases a@.len() - i,
    {
        if a[i] != b[i] {
            return false;
        }
        i = i + 1;
    }
    proof {
        assert(a@ =~= b@);
    }
    true
}

/// The keyspace shared by every connection; keys are unique.
pub struct Store {
    entries: Vec<(Vec<u8>, ValueProperties)>,
}

impl Store {
    pub closed spec fn model(&self) -> StoreModel {
        Seq::new(self.entries@.len(), |i: int| (self.entries@[i].0@, self.entries@[i].1.model()))
    }

    pub fn new() -> (r: Store)
        ensures
            r.model() == Seq::<(Seq<u8>, StoredModel)>::empty(),
    {
        let r = Store { entries: Vec::new() };
        proof {
            assert(r.model() =~= Seq::<(Seq<u8>, StoredModel)>::empty());
        }
        r
    }

    /// Looks a key up, expired entries included (expiry is the caller's
    /// read-time concern).
    pub fn get(&self, key: &[u8]) -> (r: Option<&ValueProperties>)
        ensures
            match r {
                Some(v) => lookup(self.model(), key@) == Some(v.model()),
                None => lookup(self.model(), key@) is None,
            },
    {
        let n = self.entries.len();
        let mut i: usize = 0;
        proof {
            assert(self.model().skip(0) =~= self.model());
        }
        while i < n
            invariant
                i <= n,
                n == self.entries@.len(),
                lookup(self.model(), key@) == lookup(self.model().skip(i as int), key@),
            decreases n - i,
        {
            let ghost m = self.model();
            proof {
                assert(m.skip(i as int)[0] == m[i as int]);
                assert(m.skip(i as int).drop_first() =~= m.skip(i + 1));
            }
            if bytes_eq(self.entries[i].0.as_slice(), key) {
                return Some(&self.entries[i].1);
            }
            i = i + 1;
        }
        proof {
            assert(self.model().skip(n as int) =~= Seq::<(Seq<u8>, StoredModel)>::empty());
        }
        None
    }

    /// Inserts the entry only when the key is absent; an existing entry,
    /// even an expired one, stays as it is.
    pub fn set_if_absent(&mut self, key: Vec<u8>, props: ValueProperties)
        ensures
            final(self).model() == spec_set_if_absent(old(self).model(), key@, props.model()),
    {
        let absent = self.get(key.as_slice()).is_none();
        if absent {
            let ghost before = self.model();
            self.entries.push((key, props));
            proof {
                assert(self.model() =~= before.push((key@, props.model())));
            }
        }
    }
}

} // verus!
