//! The write-ahead log: records stamped with monotonic log-ids, framed as one
//! JSON line each.
//!
//! The log state lives here — the counter and the bytes appended this
//! session. The host appends the drained bytes to the log file and hands the
//! file's records back for replay; the framing of each record is stated
//! exactly by `wal_line` and proved of the encoder.

use vstd::prelude::*;

use crate::bytes::{dec_digits, u64_to_dec};
use crate::json::{append_bytes, json_string_bytes};
use crate::merror::FileError;
use crate::scalar::{counter_bytes_ok, counter_of, wal_id_key, ScalarStorage};

verus! {

/// The operations a WAL record can carry.
#[derive(Debug, Clone, Copy, PartialEq, Eq, Structural)]
pub enum WALOperation {
    Upsert,
    Delete,
}

/// One record of the log: a log-id, the schema version, the operation, and
/// the operation's serialized payload.
#[derive(Debug)]
pub struct WALRecord {
    pub log_id: u64,
    pub version: String,
    pub operation: WALOperation,
    pub data: Vec<u8>,
}

/// The name under which an operation appears in a record.
pub open spec fn op_name_bytes(op: WALOperation) -> Seq<u8> {
    match op {
        WALOperation::Upsert => seq![85u8, 112u8, 115u8, 101u8, 114u8, 116u8],
        WALOperation::Delete => seq![68u8, 101u8, 108u8, 101u8, 116u8, 101u8],
    }
}

/// The payload bytes as a JSON array of decimal numbers.
pub open spec fn byte_list_bytes(bs: Seq<u8>) -> Seq<u8>
    decreases bs.len(),
{
    if bs.len() == 0 {
        seq![]
    } else if bs.len() == 1 {
        dec_digits(bs[0] as nat)
    } else {
        byte_list_bytes(bs.drop_last()) + seq![44u8] + dec_digits(bs.last() as nat)
    }
}

/// The exact line a record with these parts occupies in the log: a JSON
/// object holding `log_id`, `version`, `operation` and `data`, closed by a
/// newline.
pub open spec fn wal_line_parts(
    log_id: u64,
    version: Seq<char>,
    operation: WALOperation,
    data: Seq<u8>,
) -> Seq<u8> {
    seq![123u8, 34u8, 108u8, 111u8, 103u8, 95u8, 105u8, 100u8, 34u8, 58u8] + dec_digits(
        log_id as nat,
    ) + seq![44u8, 34u8, 118u8, 101u8, 114u8, 115u8, 105u8, 111u8, 110u8, 34u8, 58u8]
        + json_string_bytes(version) + seq![
        44u8,
        34u8,
        111u8,
        112u8,
        101u8,
        114u8,
        97u8,
        116u8,
        105u8,
        111u8,
        110u8,
        34u8,
        58u8,
        34u8,
    ] + op_name_bytes(operation) + seq![34u8, 44u8, 34u8, 100u8, 97u8, 116u8, 97u8, 34u8, 58u8, 91u8]
        + byte_list_bytes(data) + seq![93u8, 125u8, 10u8]
}

/// The exact line a record occupies in the log.
pub open spec fn wal_line(r: WALRecord) -> Seq<u8> {
    wal_line_parts(r.log_id, r.version@, r.operation, r.data@)
}

impl WALRecord {
    /// The record as the line the log file holds for it.
    pub fn to_line_bytes(&self) -> (r: Vec<u8>)
        ensures
            r@ == wal_line(*self),
    {
        let mut out: Vec<u8> = Vec::new();
        let head: Vec<u8> = vec![123u8, 34u8, 108u8, 111u8, 103u8, 95u8, 105u8, 100u8, 34u8, 58u8];
        append_bytes(&mut out, &head);
        let id_digits = u64_to_dec(self.log_id);
        append_bytes(&mut out, &id_digits);
        let ver_key: Vec<u8> = vec![
            44u8,
            34u8,
            118u8,
            101u8,
            114u8,
            115u8,
            105u8,
            111u8,
            110u8,
            34u8,
            58u8,
        ];
        append_bytes(&mut out, &ver_key);
        crate::json::encode_json(&crate::json::JsonValue::Str(clone_string(&self.version)), &mut out);
        let op_key: Vec<u8> = vec![
            44u8,
            34u8,
            111u8,
            112u8,
            101u8,
            114u8,
            97u8,
            116u8,
            105u8,
            111u8,
            110u8,
            34u8,
            58u8,
            34u8,
        ];
        append_bytes(&mut out, &op_key);
        match self.operation {
            WALOperation::Upsert => {
                let name: Vec<u8> = vec![85u8, 112u8, 115u8, 101u8, 114u8, 116u8];
                append_bytes(&mut out, &name);
            },
            WALOperation::Delete => {
                let name: Vec<u8> = vec![68u8, 101u8, 108u8, 101u8, 116u8, 101u8];
                append_bytes(&mut out, &name);
            },
        }
        let data_key: Vec<u8> = vec![
            34u8,
            44u8,
            34u8,
            100u8,
            97u8,
            116u8,
            97u8,
            34u8,
            58u8,
            91u8,
        ];
        append_bytes(&mut out, &data_key);
        let ghost start = out@;
        let n = self.data.len();
        let mut i: usize = 0;
        while i < n
            invariant
                0 <= i <= n,
                n == self.data@.len(),
                out@ == start + byte_list_bytes(self.data@.take(i as int)),
            decreases n - i,
        {
            if i > 0 {
                out.push(44);
            }
            let d = u64_to_dec(self.data[i] as u64);
            append_bytes(&mut out, &d);
            i = i + 1;
            proof {
                assert(self.data@.take(i as int).drop_last() =~= self.data@.take(i - 1));
                assert(self.data@.take(i as int).last() == self.data@[i - 1]);
            }
        }
        proof {
            assert(self.data@.take(n as int) =~= self.data@);
        }
        let tail: Vec<u8> = vec![93u8, 125u8, 10u8];
        append_bytes(&mut out, &tail);
        proof {
            assert(out@ =~= wal_line(*self));
        }
        out
    }
}

/// The log's in-memory state: the id counter, the schema version, and the
/// encoded lines not yet handed to the host for appending to the file.
pub struct Persistence {
    counter: u64,
    pub version: String,
    out: Vec<u8>,
    base: Ghost<u64>,
    issued: Ghost<Seq<u64>>,
}

impl Persistence {
    /// The log-ids issued so far in this lifetime, in order.
    pub closed spec fn issued_ids(&self) -> Seq<u64> {
        self.issued@
    }

    /// The current counter: the last issued log-id, and the value the next
    /// issued id exceeds by one.
    pub closed spec fn log_id(&self) -> u64 {
        self.counter
    }

    /// The encoded lines awaiting the host's append to the log file.
    pub closed spec fn pending(&self) -> Seq<u8> {
        self.out@
    }

    /// The schema version every appended record is stamped with.
    pub closed spec fn version_of(&self) -> Seq<char> {
        self.version@
    }

    /// Well-formedness: ids were issued contiguously from the base the
    /// lifetime started (or was rebased) at.
    pub closed spec fn wf(&self) -> bool {
        &&& self.counter == self.base@ + self.issued@.len()
        &&& forall|i: int|
            0 <= i < self.issued@.len() ==> #[trigger] self.issued@[i] == self.base@ + 1 + i
    }

    /// Starts the log at the id high-water mark found in the scalar store,
    /// defaulting to 0; fails when the stored mark is malformed.
    pub fn new(version: String, scalar_db: &ScalarStorage) -> (r: Result<Persistence, FileError>)
        requires
            scalar_db.wf(),
        ensures
            match r {
                Ok(p) => {
                    &&& p.wf()
                    &&& counter_bytes_ok(scalar_db.smap(), wal_id_key())
                    &&& p.log_id() == counter_of(scalar_db.smap(), wal_id_key())
                    &&& p.issued_ids() =~= Seq::<u64>::empty()
                    &&& p.pending() =~= Seq::<u8>::empty()
                    &&& p.version_of() == version@
                },
                Err(_) => !counter_bytes_ok(scalar_db.smap(), wal_id_key()),
            },
    {
        let key = crate::scalar::wal_id_key_bytes();
        let last_log_id: u64 = match scalar_db.get(key.as_slice()) {
            Ok(Some(bytes)) => {
                if bytes.len() != 8 {
                    return Err(
                        FileError("stored WAL high-water mark is not 8 bytes".to_owned()),
                    );
                }
                crate::bytes::u64_from_be_bytes(bytes.as_slice())
            },
            Ok(None) => 0,
            Err(_) => 0,
        };
        Ok(
            Persistence {
                counter: last_log_id,
                version,
                out: Vec::new(),
                base: Ghost(last_log_id),
                issued: Ghost(Seq::empty()),
            },
        )
    }

    /// The last issued log-id (the stored high-water mark before any append).
    pub fn get_log_id(&self) -> (r: u64)
        ensures
            r == self.log_id(),
    {
        self.counter
    }

    /// Issues the next log-id: the counter advances by one and the new id is
    /// recorded as issued.
    pub fn increment_log_id(&mut self) -> (r: u64)
        requires
            old(self).wf(),
            old(self).log_id() < u64::MAX,
        ensures
            final(self).wf(),
            r == old(self).log_id() + 1,
            final(self).log_id() == old(self).log_id() + 1,
            final(self).issued_ids() == old(self).issued_ids().push(r),
            final(self).pending() == old(self).pending(),
            final(self).version_of() == old(self).version_of(),
    {
        self.counter = self.counter + 1;
        let id = self.counter;
        proof {
            self.issued@ = self.issued@.push(id);
        }
        id
    }

    /// Rebases the counter, as recovery does after replay; the lifetime's
    /// issued-id record starts afresh from the new value.
    pub fn set_log_id(&mut self, log_id: u64)
        ensures
            final(self).wf(),
            final(self).log_id() == log_id,
            final(self).issued_ids() =~= Seq::<u64>::empty(),
            final(self).pending() == old(self).pending(),
            final(self).version_of() == old(self).version_of(),
    {
        self.counter = log_id;
        proof {
            self.base@ = log_id;
            self.issued@ = Seq::empty();
        }
    }

    /// Appends one record to the log: the record takes the next log-id and
    /// its line joins the pending bytes. Fails only when the id space is
    /// exhausted, leaving the state untouched.
    pub fn write_wal(&mut self, operation_type: WALOperation, data: Vec<u8>) -> (r: Result<
        u64,
        FileError,
    >)
        requires
            old(self).wf(),
        ensures
            final(self).wf(),
            match r {
                Ok(id) => {
                    &&& old(self).log_id() < u64::MAX
                    &&& id == old(self).log_id() + 1
                    &&& final(self).log_id() == id
                    &&& final(self).issued_ids() == old(self).issued_ids().push(id)
                    &&& final(self).pending() == old(self).pending() + wal_line_parts(
                        id,
                        old(self).version_of(),
                        operation_type,
                        data@,
                    )
                    &&& final(self).version_of() == old(self).version_of()
                },
                Err(_) => {
                    &&& old(self).log_id() == u64::MAX
                    &&& *final(self) == *old(self)
                },
            },
    {
        if self.counter == u64::MAX {
            return Err(FileError("WAL log-id space exhausted".to_owned()));
        }
        let id = self.increment_log_id();
        let record = WALRecord {
            log_id: id,
            version: clone_string(&self.version),
            operation: operation_type,
            data,
        };
        let line = record.to_line_bytes();
        append_bytes(&mut self.out, &line);
        Ok(id)
    }

    /// Hands the pending encoded lines to the host, leaving none pending.
    pub fn take_pending(&mut self) -> (r: Vec<u8>)
        requires
            old(self).wf(),
        ensures
            final(self).wf(),
            r@ == old(self).pending(),
            final(self).pending() =~= Seq::<u8>::empty(),
            final(self).log_id() == old(self).log_id(),
            final(self).issued_ids() == old(self).issued_ids(),
            final(self).version_of() == old(self).version_of(),
    {
        let mut taken: Vec<u8> = Vec::new();
        core::mem::swap(&mut taken, &mut self.out);
        taken
    }
}

/// Log-ids are strictly increasing and gap-free within a lifetime: the id at
/// a later position exceeds an earlier one by exactly their distance.
pub proof fn lemma_wal_log_ids_monotonic(p: Persistence)
    requires
        p.wf(),
    ensures
        forall|i: int, j: int|
            0 <= i < j < p.issued_ids().len() ==> #[trigger] p.issued_ids()[i]
                < #[trigger] p.issued_ids()[j] && p.issued_ids()[j] - p.issued_ids()[i] == j - i,
{
}

pub(crate) fn clone_string(s: &String) -> (r: String)
    ensures
        r@ == s@,
{
    s.clone()
}

/// A guard for operations that may need to be undone: it carries the rollback
/// action until `commit` declares the operation complete. The holder of an
/// uncommitted guard is expected to run the rollback on its failure path.
pub struct RollbackGuard<F: FnOnce()> {
    rollback: Option<F>,
    committed: bool,
}

impl<F: FnOnce()> RollbackGuard<F> {
    /// Whether `commit` has been called.
    pub closed spec fn is_committed(&self) -> bool {
        self.committed
    }

    pub fn new(rollback: F) -> (r: Self)
        ensures
            !r.is_committed(),
    {
        RollbackGuard { rollback: Some(rollback), committed: false }
    }

    /// Declares the operation complete: the rollback is discarded.
    pub fn commit(self) {
    }
}

} // verus!
