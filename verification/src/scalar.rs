//! The scalar store: a byte-key/byte-value map holding the documents (under
//! big-endian id keys), the document-id high-water mark, and the WAL log-id
//! high-water mark. Id allocation hands out contiguous, strictly increasing
//! id ranges and persists the new high-water mark in the same step.

use vstd::prelude::*;

use crate::bytes::{be64, be64_val, lemma_be64_roundtrip, u64_from_be_bytes, u64_to_be_bytes};
use crate::merror::DBError;

verus! {

/// The reserved key under which the document-id high-water mark is stored.
pub open spec fn id_max_key() -> Seq<u8> {
    seq![95u8, 95u8, 105u8, 100u8, 95u8, 109u8, 97u8, 120u8, 95u8, 95u8]
}

/// The reserved key under which the WAL log-id high-water mark is stored.
pub open spec fn wal_id_key() -> Seq<u8> {
    seq![95u8, 95u8, 119u8, 97u8, 108u8, 95u8, 105u8, 100u8, 95u8, 95u8]
}

pub fn id_max_key_bytes() -> (r: Vec<u8>)
    ensures
        r@ =~= id_max_key(),
{
    let r: Vec<u8> = vec![95u8, 95u8, 105u8, 100u8, 95u8, 109u8, 97u8, 120u8, 95u8, 95u8];
    r
}

pub fn wal_id_key_bytes() -> (r: Vec<u8>)
    ensures
        r@ =~= wal_id_key(),
{
    let r: Vec<u8> = vec![95u8, 95u8, 119u8, 97u8, 108u8, 95u8, 105u8, 100u8, 95u8, 95u8];
    r
}

/// Whether the high-water-mark value stored under `key` (if any) is a proper
/// 8-byte big-endian integer.
pub open spec fn counter_bytes_ok(m: Map<Seq<u8>, Seq<u8>>, key: Seq<u8>) -> bool {
    m.contains_key(key) ==> m[key].len() == 8
}

/// The integer stored under `key`, defaulting to 0 when the key is absent.
pub open spec fn counter_of(m: Map<Seq<u8>, Seq<u8>>, key: Seq<u8>) -> u64 {
    if m.contains_key(key) {
        be64_val(m[key])
    } else {
        0
    }
}

/// An in-memory byte-key/byte-value map with point puts, point gets,
/// multi-gets and id allocation; the persistent truth of the database is the
/// write-ahead log, from which this store is rebuilt on recovery.
pub struct ScalarStorage {
    entries: Vec<(Vec<u8>, Vec<u8>)>,
}

impl ScalarStorage {
    /// Well-formedness: one entry per key.
    pub closed spec fn wf(&self) -> bool {
        forall|i: int, j: int|
            0 <= i < j < self.entries@.len() ==> (#[trigger] self.entries@[i]).0@ != (
            #[trigger] self.entries@[j]).0@
    }

    spec fn has_key(&self, k: Seq<u8>) -> bool {
        exists|i: int| 0 <= i < self.entries@.len() && (#[trigger] self.entries@[i]).0@ == k
    }

    spec fn val_of(&self, k: Seq<u8>) -> Seq<u8> {
        let i = choose|i: int|
            0 <= i < self.entries@.len() && (#[trigger] self.entries@[i]).0@ == k;
        self.entries@[i].1@
    }

    /// The contents as a map from key bytes to value bytes.
    pub closed spec fn smap(&self) -> Map<Seq<u8>, Seq<u8>> {
        Map::new(|k: Seq<u8>| self.has_key(k), |k: Seq<u8>| self.val_of(k))
    }

    /// A successful put is reflected by every later get of the same key, and
    /// leaves every other key as it was.
    pub fn put(&mut self, key: &[u8], values: &[u8]) -> (r: Result<(), DBError>)
        requires
            old(self).wf(),
        ensures
            final(self).wf(),
            r is Ok,
            final(self).smap() == old(self).smap().insert(key@, values@),
    {
        let ghost orig = *self;
        let kv: Vec<u8> = copy_slice(key);
        let vv: Vec<u8> = copy_slice(values);
        let n = self.entries.len();
        let mut i: usize = 0;
        let mut found: bool = false;
        while !found && i < n
            invariant
                0 <= i <= n,
                n == self.entries@.len(),
                *self == orig,
                forall|j: int| 0 <= j < i ==> (#[trigger] self.entries@[j]).0@ != key@,
                found ==> i < n && self.entries@[i as int].0@ == key@,
            decreases n - i + (if found { 0int } else { 1int }),
        {
            if bytes_eq(&self.entries[i].0, key) {
                found = true;
            } else {
                i = i + 1;
            }
        }
        if found {
            self.entries.remove(i);
            self.entries.insert(i, (kv, vv));
            proof {
                assert(self.entries@ =~= orig.entries@.update(i as int, (kv, vv)));
                lemma_smap_update(orig, *self, i as int, values@);
                assert(self.entries@[i as int].0@ == key@);
            }
        } else {
            self.entries.push((kv, vv));
            proof {
                lemma_smap_push(orig, *self, key@, values@);
            }
        }
        Ok(())
    }

    /// A point get: the value last put under the key, if any.
    pub fn get(&self, key: &[u8]) -> (r: Result<Option<Vec<u8>>, DBError>)
        requires
            self.wf(),
        ensures
            r is Ok,
            match r {
                Ok(Some(v)) => self.smap().contains_key(key@) && self.smap()[key@] == v@,
                Ok(None) => !self.smap().contains_key(key@),
                Err(_) => false,
            },
    {
        let n = self.entries.len();
        let mut i: usize = 0;
        while i < n
            invariant
                0 <= i <= n,
                n == self.entries@.len(),
                self.wf(),
                forall|j: int| 0 <= j < i ==> (#[trigger] self.entries@[j]).0@ != key@,
            decreases n - i,
        {
            if bytes_eq(&self.entries[i].0, key) {
                let v = copy_slice(self.entries[i].1.as_slice());
                proof {
                    assert(self.has_key(key@));
                    let j = choose|j: int|
                        0 <= j < self.entries@.len() && (#[trigger] self.entries@[j]).0@ == key@;
                    if j != i as int {
                        if j < i as int {
                            assert(self.entries@[j].0@ != self.entries@[i as int].0@);
                        } else {
                            assert(self.entries@[i as int].0@ != self.entries@[j].0@);
                        }
                    }
                }
                return Ok(Some(v));
            }
            i = i + 1;
        }
        proof {
            if self.has_key(key@) {
                let j = choose|j: int|
                    0 <= j < self.entries@.len() && (#[trigger] self.entries@[j]).0@ == key@;
            }
        }
        Ok(None)
    }

    /// The document bytes stored under an id, if any.
    pub fn get_value(&self, index: u64) -> (r: Result<Option<Vec<u8>>, DBError>)
        requires
            self.wf(),
        ensures
            r is Ok,
            match r {
                Ok(Some(v)) => self.smap().contains_key(be64(index)) && self.smap()[be64(index)]
                    == v@,
                Ok(None) => !self.smap().contains_key(be64(index)),
                Err(_) => false,
            },
    {
        let key = u64_to_be_bytes(index);
        self.get(key.as_slice())
    }

    /// Fetches the document bytes for each id, in order; a missing document
    /// surfaces as the empty JSON object.
    pub fn multi_get_value(&self, indices: &[u64]) -> (r: Result<Vec<Vec<u8>>, DBError>)
        requires
            self.wf(),
        ensures
            match r {
                Ok(docs) => {
                    &&& docs@.len() == indices@.len()
                    &&& forall|i: int|
                        0 <= i < indices@.len() ==> (#[trigger] docs@[i])@ == doc_or_empty(
                            self.smap(),
                            indices@[i],
                        )
                },
                Err(_) => false,
            },
    {
        let mut docs: Vec<Vec<u8>> = Vec::new();
        let mut i: usize = 0;
        while i < indices.len()
            invariant
                0 <= i <= indices@.len(),
                self.wf(),
                docs@.len() == i,
                forall|j: int|
                    0 <= j < i ==> (#[trigger] docs@[j])@ == doc_or_empty(
                        self.smap(),
                        indices@[j],
                    ),
            decreases indices@.len() - i,
        {
            let key = u64_to_be_bytes(indices[i]);
            match self.get(key.as_slice())? {
                Some(v) => docs.push(v),
                None => {
                    let empty_doc: Vec<u8> = vec![123u8, 125u8];
                    docs.push(empty_doc);
                },
            }
            i = i + 1;
        }
        Ok(docs)
    }

    /// Allocates `num` fresh ids under the store's id high-water mark: reads
    /// the mark (0 when absent), returns the next `num` ids, and persists the
    /// advanced mark. Fails without touching the store when the stored mark is
    /// malformed or the id space would overflow.
    pub fn gen_incr_ids(&mut self, num: usize) -> (r: Result<Vec<u64>, DBError>)
        requires
            old(self).wf(),
        ensures
            final(self).wf(),
            match r {
                Ok(ids) => {
                    &&& counter_bytes_ok(old(self).smap(), id_max_key())
                    &&& counter_of(old(self).smap(), id_max_key()) + num <= u64::MAX
                    &&& ids@.len() == num
                    &&& forall|i: int|
                        0 <= i < num ==> #[trigger] ids@[i] == counter_of(
                            old(self).smap(),
                            id_max_key(),
                        ) + 1 + i
                    &&& final(self).smap() == old(self).smap().insert(
                        id_max_key(),
                        be64((counter_of(old(self).smap(), id_max_key()) + num) as u64),
                    )
                },
                Err(e) => {
                    &&& *final(self) == *old(self)
                    &&& (e is GetError <==> !counter_bytes_ok(old(self).smap(), id_max_key()))
                    &&& (e is PutError <==> counter_bytes_ok(old(self).smap(), id_max_key())
                        && counter_of(old(self).smap(), id_max_key()) + num > u64::MAX)
                    &&& (e is GetError || e is PutError)
                },
            },
    {
        let key = id_max_key_bytes();
        let max_id: u64 = match self.get(key.as_slice()) {
            Ok(Some(bytes)) => {
                if bytes.len() != 8 {
                    return Err(
                        DBError::GetError("stored id high-water mark is not 8 bytes".to_owned()),
                    );
                }
                u64_from_be_bytes(bytes.as_slice())
            },
            Ok(None) => 0,
            Err(e) => { return Err(e) },
        };
        if num as u64 > u64::MAX - max_id {
            return Err(DBError::PutError("id space exhausted".to_owned()));
        }
        let new_max_id: u64 = max_id + num as u64;
        let mut ids: Vec<u64> = Vec::new();
        let mut i: usize = 0;
        while i < num
            invariant
                0 <= i <= num,
                max_id + num <= u64::MAX,
                ids@.len() == i,
                forall|j: int| 0 <= j < i ==> #[trigger] ids@[j] == max_id + 1 + j,
            decreases num - i,
        {
            ids.push(max_id + 1 + i as u64);
            i = i + 1;
        }
        let new_max_bytes = u64_to_be_bytes(new_max_id);
        self.put(key.as_slice(), new_max_bytes.as_slice())?;
        Ok(ids)
    }
}

/// The bytes returned for one id by a multi-get: the stored document, or the
/// empty JSON object when the id has none.
pub open spec fn doc_or_empty(m: Map<Seq<u8>, Seq<u8>>, id: u64) -> Seq<u8> {
    if m.contains_key(be64(id)) {
        m[be64(id)]
    } else {
        seq![123u8, 125u8]
    }
}

/// Builds the store; it starts empty.
pub fn new_scalar_storage() -> (r: ScalarStorage)
    ensures
        r.wf(),
        r.smap() == Map::<Seq<u8>, Seq<u8>>::empty(),
{
    let r = ScalarStorage { entries: Vec::new() };
    proof {
        assert(r.smap() =~= Map::<Seq<u8>, Seq<u8>>::empty());
    }
    r
}

/// Id-allocation monotonicity: when one allocation follows another, every id
/// of the later allocation exceeds every id of the earlier one.
pub proof fn lemma_id_allocation_monotonic(
    m0: Map<Seq<u8>, Seq<u8>>,
    n1: nat,
    ids1: Seq<u64>,
    m1: Map<Seq<u8>, Seq<u8>>,
    n2: nat,
    ids2: Seq<u64>,
)
    requires
        counter_of(m0, id_max_key()) + n1 <= u64::MAX,
        ids1.len() == n1,
        forall|i: int|
            0 <= i < n1 ==> #[trigger] ids1[i] == counter_of(m0, id_max_key()) + 1 + i,
        m1 == m0.insert(id_max_key(), be64((counter_of(m0, id_max_key()) + n1) as u64)),
        counter_of(m1, id_max_key()) + n2 <= u64::MAX,
        ids2.len() == n2,
        forall|i: int|
            0 <= i < n2 ==> #[trigger] ids2[i] == counter_of(m1, id_max_key()) + 1 + i,
    ensures
        forall|i: int, j: int|
            0 <= i < ids1.len() && 0 <= j < ids2.len() ==> #[trigger] ids1[i] < #[trigger] ids2[j],
{
    let c0 = counter_of(m0, id_max_key());
    lemma_be64_roundtrip((c0 + n1) as u64);
    assert(counter_of(m1, id_max_key()) == c0 + n1);
}

fn bytes_eq(a: &Vec<u8>, b: &[u8]) -> (r: bool)
    ensures
        r == (a@ == b@),
{
    if a.len() != b.len() {
        proof {
            assert(a@ != b@);
        }
        return false;
    }
    let n = a.len();
    let mut i: usize = 0;
    while i < n
        invariant
            0 <= i <= n,
            n == a@.len() == b@.len(),
            forall|j: int| 0 <= j < i ==> a@[j] == b@[j],
        decreases n - i,
    {
        if a[i] != b[i] {
            proof {
                assert(a@ != b@);
            }
            return false;
        }
        i = i + 1;
    }
    proof {
        assert(a@ =~= b@);
    }
    true
}

fn copy_slice(a: &[u8]) -> (r: Vec<u8>)
    ensures
        r@ == a@,
{
    let mut r: Vec<u8> = Vec::new();
    let n = a.len();
    let mut i: usize = 0;
    while i < n
        invariant
            0 <= i <= n,
            n == a@.len(),
            r@ =~= a@.take(i as int),
        decreases n - i,
    {
        r.push(a[i]);
        i = i + 1;
    }
    proof {
        assert(a@.take(n as int) =~= a@);
    }
    r
}

/// Replacing the value at position `i` (same key) turns the map into an
/// insert of the new value under that key.
proof fn lemma_smap_update(pre: ScalarStorage, post: ScalarStorage, i: int, v: Seq<u8>)
    requires
        pre.wf(),
        0 <= i < pre.entries@.len(),
        post.entries@.len() == pre.entries@.len(),
        forall|j: int|
            0 <= j < pre.entries@.len() && j != i ==> #[trigger] post.entries@[j]
                == pre.entries@[j],
        post.entries@[i].0@ == pre.entries@[i].0@,
        post.entries@[i].1@ == v,
    ensures
        post.wf(),
        post.smap() == pre.smap().insert(pre.entries@[i].0@, v),
{
    let k = pre.entries@[i].0@;
    assert forall|a: int, b: int|
        0 <= a < b < post.entries@.len() implies (#[trigger] post.entries@[a]).0@ != (
    #[trigger] post.entries@[b]).0@ by {
        assert(post.entries@[a].0@ == pre.entries@[a].0@);
        assert(post.entries@[b].0@ == pre.entries@[b].0@);
    }
    assert forall|k2: Seq<u8>| #[trigger] post.has_key(k2) implies pre.has_key(k2) && (k2 != k
        ==> post.val_of(k2) == pre.val_of(k2)) by {
        let a = choose|a: int|
            0 <= a < post.entries@.len() && (#[trigger] post.entries@[a]).0@ == k2;
        assert(pre.entries@[a].0@ == k2);
        if k2 != k {
            assert(a != i);
            lemma_val_pinned(pre, a, k2);
            lemma_val_pinned(post, a, k2);
        }
    }
    assert forall|k2: Seq<u8>| #[trigger] pre.has_key(k2) implies post.has_key(k2) by {
        let a = choose|a: int|
            0 <= a < pre.entries@.len() && (#[trigger] pre.entries@[a]).0@ == k2;
        assert(post.entries@[a].0@ == k2);
    }
    lemma_val_pinned(post, i, k);
    assert(post.smap() =~= pre.smap().insert(k, v));
}

/// Appending an entry under a fresh key turns the map into an insert of that
/// key.
proof fn lemma_smap_push(pre: ScalarStorage, post: ScalarStorage, k: Seq<u8>, v: Seq<u8>)
    requires
        pre.wf(),
        forall|j: int| 0 <= j < pre.entries@.len() ==> (#[trigger] pre.entries@[j]).0@ != k,
        post.entries@.len() == pre.entries@.len() + 1,
        forall|j: int|
            0 <= j < pre.entries@.len() ==> #[trigger] post.entries@[j] == pre.entries@[j],
        post.entries@[post.entries@.len() - 1].0@ == k,
        post.entries@[post.entries@.len() - 1].1@ == v,
    ensures
        post.wf(),
        post.smap() == pre.smap().insert(k, v),
{
    let m = post.entries@.len() - 1;
    assert forall|a: int, b: int|
        0 <= a < b < post.entries@.len() implies (#[trigger] post.entries@[a]).0@ != (
    #[trigger] post.entries@[b]).0@ by {
        if b == m {
            assert(post.entries@[a] == pre.entries@[a]);
        }
    }
    assert forall|k2: Seq<u8>| #[trigger] post.has_key(k2) implies (k2 == k || pre.has_key(k2))
        && (k2 != k ==> post.val_of(k2) == pre.val_of(k2)) by {
        let a = choose|a: int|
            0 <= a < post.entries@.len() && (#[trigger] post.entries@[a]).0@ == k2;
        if k2 != k {
            assert(a != m);
            assert(pre.entries@[a].0@ == k2);
            lemma_val_pinned(pre, a, k2);
            lemma_val_pinned(post, a, k2);
        }
    }
    assert forall|k2: Seq<u8>| #[trigger] pre.has_key(k2) implies post.has_key(k2) by {
        let a = choose|a: int|
            0 <= a < pre.entries@.len() && (#[trigger] pre.entries@[a]).0@ == k2;
        assert(post.entries@[a].0@ == k2);
    }
    lemma_val_pinned(post, m, k);
    assert(post.smap() =~= pre.smap().insert(k, v));
}

/// In a well-formed store the value looked up for a key is the value of the
/// one entry holding that key.
proof fn lemma_val_pinned(s: ScalarStorage, i: int, k: Seq<u8>)
    requires
        s.wf(),
        0 <= i < s.entries@.len(),
        s.entries@[i].0@ == k,
    ensures
        s.has_key(k),
        s.val_of(k) == s.entries@[i].1@,
{
    let j = choose|j: int| 0 <= j < s.entries@.len() && (#[trigger] s.entries@[j]).0@ == k;
    if j != i {
        if j < i {
            assert(s.entries@[j].0@ != s.entries@[i].0@);
        } else {
            assert(s.entries@[i].0@ != s.entries@[j].0@);
        }
    }
}

} // verus!
