//! The database facade: upsert and query over the vector index, the filter
//! index, the scalar store and the write-ahead log, together with the
//! replay-based recovery path.

use vstd::prelude::*;
use vstd::string::StringExecFns;

use crate::filter::IdFilter;
use crate::filter_index::{FilterOp, IntFilterIndex, IntFilterInput};
use crate::index::{
    admitted, admitted_count, min_k, search_result_sound, HnswIndexOption, HnswParams,
    HnswSearchOption, Index, IndexType, InsertParams, MetricType, SearchQuery, SearchResult,
};
use crate::json::JsonValue;
use crate::merror::DBError;
use crate::persistence::{Persistence, WALOperation, WALRecord};
use crate::scalar::{
    counter_bytes_ok, counter_of, doc_or_empty, id_max_key, new_scalar_storage, wal_id_key,
    ScalarStorage,
};
use crate::bytes::be64;
use crate::wal_payload::{pair_views, AttrPairs, UpsertPayload};

verus! {

/// A document: a JSON object as a list of fields.
pub type DocMap = Vec<(String, JsonValue)>;

/// What a database is created with.
#[derive(Debug, Clone)]
pub struct DatabaseParams {
    pub dim: u32,
    pub metric_type: MetricType,
    pub index_type: IndexType,
    pub hnsw_params: Option<HnswIndexOption>,
    pub version: String,
}

/// One upsert request: `data_row` vectors of `data_dim` components in one
/// flat buffer, one optional document and one optional attribute map per row.
#[derive(Debug)]
pub struct VectorInsertArgs {
    pub flat_data: Vec<u32>,
    pub data_row: usize,
    pub data_dim: usize,
    pub docs: Vec<Option<DocMap>>,
    pub attributes: Vec<Option<DocMap>>,
    pub hnsw_params: Option<HnswParams>,
}

/// One query request: a vector, the result count, optional attribute
/// predicates, and the HNSW knobs when the index is an HNSW one.
#[derive(Debug)]
pub struct VectorSearchArgs {
    pub query: Vec<u32>,
    pub k: usize,
    pub filter_inputs: Option<Vec<IntFilterInput>>,
    pub hnsw_params: Option<HnswSearchOption>,
}

/// The application's configuration.
#[derive(Debug, Clone)]
pub struct AppConfig {
    pub database: DatabaseParams,
    pub file_path: String,
    pub server: ServerConfig,
}

/// The HTTP server's configuration.
#[derive(Debug, Clone)]
pub struct ServerConfig {
    pub search_url_suffix: String,
    pub upsert_url_suffix: String,
    pub port: u16,
    pub log_level: String,
}

impl VectorInsertArgs {
    /// Shape validity: one document per row, no attributes or one map per
    /// row, and a flat buffer of exactly `data_row * data_dim` components.
    pub open spec fn valid_spec(&self) -> bool {
        &&& self.docs@.len() == self.data_row
        &&& (self.attributes@.len() == 0 || self.attributes@.len() == self.data_row)
        &&& self.data_dim * self.data_row == self.flat_data@.len()
    }

    /// Names the first field whose length does not fit the others — checked
    /// in the order docs, attributes, flat data — with the found and the
    /// expected length; an empty name means the shape is valid.
    pub fn validate(&self) -> (r: (&'static str, usize, usize))
        ensures
            r.0@.len() == 0 <==> self.valid_spec(),
            self.valid_spec() ==> r == ("", 0usize, 0usize),
            self.docs@.len() != self.data_row ==> r.0@ == "docs"@ && r.1 == self.docs@.len()
                && r.2 == self.data_row,
            self.docs@.len() == self.data_row && self.attributes@.len() != 0
                && self.attributes@.len() != self.data_row ==> r.0@ == "attributes"@ && r.1
                == self.attributes@.len() && r.2 == self.data_row,
            self.docs@.len() == self.data_row && (self.attributes@.len() == 0
                || self.attributes@.len() == self.data_row) && self.data_dim * self.data_row
                != self.flat_data@.len() ==> r.0@ == "flat_data"@ && r.1 == self.flat_data@.len()
                && (self.data_dim * self.data_row <= usize::MAX ==> r.2 == self.data_dim
                * self.data_row) && (self.data_dim * self.data_row > usize::MAX ==> r.2
                == usize::MAX),
    {
        proof {
            reveal_strlit("docs");
            reveal_strlit("attributes");
            reveal_strlit("flat_data");
            reveal_strlit("");
        }
        if self.docs.len() != self.data_row {
            return ("docs", self.docs.len(), self.data_row);
        }
        if self.attributes.len() != 0 && self.attributes.len() != self.data_row {
            return ("attributes", self.attributes.len(), self.data_row);
        }
        let dl = self.flat_data.len();
        let expected: usize = match self.data_dim.checked_mul(self.data_row) {
            Some(v) => v,
            None => {
                proof {
                    assert(dl < self.data_dim * self.data_row);
                }
                return ("flat_data", dl, usize::MAX);
            },
        };
        if expected != dl {
            return ("flat_data", dl, expected);
        }
        ("", 0, 0)
    }
}


/// The input-side conditions of an upsert: a valid shape, the index's
/// dimension, and acceptable attribute values.
pub open spec fn upsert_inputs_ok<I: Index>(args: VectorInsertArgs, db: VectorDatabase<I>) -> bool {
    &&& args.valid_spec()
    &&& args.data_dim == db.params.dim
    &&& attrs_ok(args.attributes@)
}

/// The ids an upsert of `args` against `db` allocates: the next contiguous
/// range above the stored id high-water mark.
pub open spec fn upsert_ids<I: Index>(args: VectorInsertArgs, db: VectorDatabase<I>) -> Seq<u64> {
    Seq::new(
        args.data_row as nat,
        |t: int| (counter_of(db.scalar_storage.smap(), id_max_key()) + 1 + t) as u64,
    )
}

/// Inputs in order, and an id high-water mark that is well-formed and leaves
/// room for the new rows.
pub open spec fn upsert_marks_ok<I: Index>(args: VectorInsertArgs, db: VectorDatabase<I>) -> bool {
    &&& upsert_inputs_ok(args, db)
    &&& counter_bytes_ok(db.scalar_storage.smap(), id_max_key())
    &&& counter_of(db.scalar_storage.smap(), id_max_key()) + args.data_row <= u32::MAX
}

/// The id set a predicate list composes: the union of what each predicate
/// selects, folded left to right into an empty accumulator.
pub open spec fn composed_ids(fi: IntFilterIndex, inputs: Seq<IntFilterInput>) -> Set<u32>
    decreases inputs.len(),
{
    if inputs.len() == 0 {
        Set::empty()
    } else {
        composed_ids(fi, inputs.drop_last()).union(fi.selected(inputs.last()))
    }
}

/// The database: parameters, the scalar store, the vector index, the
/// attribute filter index and the write-ahead log, with the running total of
/// successfully upserted rows carried as ghost state.
pub struct VectorDatabase<I: Index> {
    pub params: DatabaseParams,
    pub scalar_storage: ScalarStorage,
    pub vector_index: I,
    pub filter_index: IntFilterIndex,
    pub persistence: Persistence,
    pub rows_total: Ghost<nat>,
}

impl<I: Index> VectorDatabase<I> {
    /// The labels the vector index holds, in insertion order.
    pub open spec fn index_labels(&self) -> Seq<u64> {
        self.vector_index.label_seq()
    }

    /// The sum of `data_row` over the successful upserts.
    pub open spec fn total_rows(&self) -> nat {
        self.rows_total@
    }

    /// Whether `id` has a document in the scalar store.
    pub open spec fn doc_present(&self, id: u64) -> bool {
        self.scalar_storage.smap().contains_key(be64(id))
    }

    /// The database invariant. Among other things: the vector index holds
    /// exactly one label per upserted row; labels strictly increase and never
    /// pass the persisted id high-water mark; every held label has a
    /// document, and every document key belongs to a held label; and the
    /// filter index's bitmaps hold only ids of held labels.
    pub open spec fn wf(&self) -> bool {
        &&& self.scalar_storage.wf()
        &&& self.filter_index.wf()
        &&& self.vector_index.inv()
        &&& self.persistence.wf()
        &&& self.vector_index.dim_of() == self.params.dim
        &&& self.index_labels().len() == self.total_rows()
        &&& counter_bytes_ok(self.scalar_storage.smap(), id_max_key())
        &&& forall|i: int, j: int|
            0 <= i < j < self.index_labels().len() ==> #[trigger] self.index_labels()[i]
                < #[trigger] self.index_labels()[j]
        &&& forall|i: int|
            0 <= i < self.index_labels().len() ==> 1 <= #[trigger] self.index_labels()[i]
                <= counter_of(self.scalar_storage.smap(), id_max_key())
        &&& forall|i: int|
            0 <= i < self.index_labels().len() ==> self.doc_present(
                #[trigger] self.index_labels()[i],
            )
        &&& forall|k: Seq<u8>|
            #[trigger] self.scalar_storage.smap().contains_key(k) && k.len() == 8
                ==> exists|i: int|
                0 <= i < self.index_labels().len() && k == be64(#[trigger] self.index_labels()[i])
        &&& forall|g: Seq<char>, w: i64, x: u32|
            #[trigger] self.filter_index.ids_at(g, w).contains(x) ==> exists|i: int|
                0 <= i < self.index_labels().len() && (#[trigger] self.index_labels()[i]) as u32
                    == x && self.index_labels()[i] <= u32::MAX
    }

    /// Builds a fresh, empty database around the given (empty) vector index.
    pub fn new(db_params: DatabaseParams, index: I) -> (r: Result<Self, DBError>)
        requires
            index.inv(),
            index.label_seq() =~= Seq::<u64>::empty(),
            index.dim_of() == db_params.dim,
        ensures
            match r {
                Ok(db) => {
                    &&& db.wf()
                    &&& db.vector_index == index
                    &&& db.index_labels() =~= Seq::<u64>::empty()
                    &&& db.total_rows() == 0
                    &&& db.scalar_storage.smap() =~= Map::<Seq<u8>, Seq<u8>>::empty()
                    &&& db.persistence.pending() =~= Seq::<u8>::empty()
                    &&& db.persistence.issued_ids() =~= Seq::<u64>::empty()
                    &&& db.persistence.log_id() == 0
                    &&& forall|f: Seq<char>, v: i64| #[trigger]
                        db.filter_index.ids_at(f, v) == Set::<u32>::empty()
                    &&& db.params == db_params
                },
                Err(_) => false,
            },
    {
        let scalar_storage = new_scalar_storage();
        let version = crate::persistence::clone_string(&db_params.version);
        let persistence = match Persistence::new(version, &scalar_storage) {
            Ok(p) => p,
            Err(_) => {
                proof {
                    assert(counter_bytes_ok(scalar_storage.smap(), wal_id_key()));
                }
                return Err(DBError::CreateError("unable to create persistence layer".to_owned()));
            },
        };
        let filter_index = IntFilterIndex::new();
        let db = VectorDatabase {
            params: db_params,
            scalar_storage,
            vector_index: index,
            filter_index,
            persistence,
            rows_total: Ghost(0),
        };
        Ok(db)
    }

    /// Answers a query: validates the vector's dimension, composes the
    /// predicates into an id restriction, searches the index, and fetches
    /// the documents of the returned labels in order (a missing document
    /// surfaces as the empty JSON object). Nothing observable changes.
    pub fn query(&mut self, search_args: VectorSearchArgs) -> (r: Result<Vec<Vec<u8>>, DBError>)
        requires
            old(self).wf(),
        ensures
            final(self).wf(),
            final(self).params == old(self).params,
            final(self).index_labels() == old(self).index_labels(),
            final(self).total_rows() == old(self).total_rows(),
            final(self).scalar_storage.smap() == old(self).scalar_storage.smap(),
            final(self).persistence.pending() == old(self).persistence.pending(),
            final(self).persistence.issued_ids() == old(self).persistence.issued_ids(),
            final(self).persistence.log_id() == old(self).persistence.log_id(),
            final(self).filter_index == old(self).filter_index,
            search_args.query@.len() != old(self).params.dim ==> r is Err,
            search_args.query@.len() == old(self).params.dim && old(
                self,
            ).vector_index.search_complete() ==> r is Ok,
            match r {
                Ok(docs) => {
                    &&& search_args.query@.len() == old(self).params.dim
                    &&& (old(self).vector_index.search_complete() && search_args.filter_inputs
                        is None ==> docs@.len() == min_k(
                        search_args.k as int,
                        old(self).index_labels().len() as int,
                    ))
                    &&& exists|res: SearchResult, q: SearchQuery|
                        {
                            &&& q.vector == search_args.query
                            &&& match search_args.filter_inputs {
                                Some(inputs) => inputs@.len() > 0 ==> (q.id_filter is Some
                                    && q.id_filter->0.ids() == composed_ids(
                                    old(self).filter_index,
                                    inputs@,
                                )),
                                None => q.id_filter is None,
                            }
                            &&& (match search_args.filter_inputs {
                                Some(inputs) => inputs@.len() == 0 ==> q.id_filter is None,
                                None => true,
                            })
                            &&& search_result_sound(
                                res,
                                old(self).index_labels(),
                                q,
                                search_args.k,
                            )
                            &&& old(self).vector_index.search_complete() ==> docs@.len() == min_k(
                                search_args.k as int,
                                admitted_count(old(self).index_labels(), q) as int,
                            )
                            &&& docs@.len() == res.labels@.len()
                            &&& forall|t: int|
                                0 <= t < res.labels@.len() ==> (#[trigger] docs@[t])@
                                    == doc_or_empty(
                                    old(self).scalar_storage.smap(),
                                    res.labels@[t],
                                )
                        }
                },
                Err(_) => true,
            },
    {
        if search_args.query.len() != self.params.dim as usize {
            return Err(
                DBError::GetError(
                    "query vector length does not match index dimension".to_owned(),
                ),
            );
        }
        let mut query = SearchQuery::new(search_args.query);
        if let Some(hp) = &search_args.hnsw_params {
            query = query.with(hp);
        }
        match &search_args.filter_inputs {
            Some(filter_inputs) => {
                if filter_inputs.len() > 0 {
                    let mut bitmap = crate::filter::bitmap_new();
                    let n = filter_inputs.len();
                    let mut i: usize = 0;
                    while i < n
                        invariant
                            0 <= i <= n,
                            n == filter_inputs@.len(),
                            self.filter_index.wf(),
                            crate::filter::bitmap_ids(bitmap) == composed_ids(
                                self.filter_index,
                                filter_inputs@.take(i as int),
                            ),
                        decreases n - i,
                    {
                        let next = self.filter_index.apply(&filter_inputs[i], &bitmap);
                        bitmap = next;
                        i = i + 1;
                        proof {
                            assert(filter_inputs@.take(i as int).drop_last() =~= filter_inputs@.take(
                                i - 1,
                            ));
                            assert(filter_inputs@.take(i as int).last() == filter_inputs@[i - 1]);
                        }
                    }
                    proof {
                        assert(filter_inputs@.take(n as int) =~= filter_inputs@);
                    }
                    let restriction = IdFilter::from(bitmap);
                    query = query.with(&restriction);
                }
            },
            None => {},
        }
        let search_result = match self.vector_index.search(&query, search_args.k) {
            Ok(res) => res,
            Err(_) => {
                proof {
                    assert(query.vector@.len() == old(self).params.dim ==> !old(
                        self,
                    ).vector_index.search_complete());
                }
                return Err(DBError::GetError("unable to query vector data".to_owned()));
            },
        };
        proof {
            if search_args.filter_inputs is None {
                crate::index::lemma_admitted_count_unrestricted(
                    old(self).index_labels(),
                    query,
                );
            }
        }
        if search_result.labels.len() == 0 {
            let empty_docs: Vec<Vec<u8>> = Vec::new();
            proof {
                let res0 = search_result;
                let q0 = query;
                assert(search_result_sound(res0, old(self).index_labels(), q0, search_args.k));
                assert(empty_docs@.len() == res0.labels@.len());
            }
            return Ok(empty_docs);
        }
        let documents = match self.scalar_storage.multi_get_value(search_result.labels.as_slice())
        {
            Ok(docs) => docs,
            Err(_) => {
                return Err(DBError::GetError("unable to fetch documents".to_owned()));
            },
        };
        Ok(documents)
    }


    /// Rebuilds the in-memory state by replaying the log's records oldest to
    /// newest: on success the final state is the left-to-right fold of
    /// applying every record at its recorded ids (`replayed`). Replay never
    /// allocates ids and never appends to the WAL, so it is idempotent. The
    /// first inapplicable record aborts recovery with the prior records
    /// applied and the failing one having changed nothing.
    pub fn recover_database(&mut self, records: Vec<WALRecord>) -> (r: Result<(), DBError>)
        requires
            old(self).wf(),
        ensures
            final(self).wf(),
            final(self).persistence.pending() == old(self).persistence.pending(),
            final(self).params == old(self).params,
            match r {
                Ok(()) => replayed(*old(self), records@, *final(self)),
                Err(_) => exists|i: int|
                    0 <= i < records@.len() && replayed(
                        *old(self),
                        records@.take(i),
                        *final(self),
                    ),
            },
    {
        let ghost orig = *self;
        let ghost total = records@;
        let ghost mut processed: int = 0;
        proof {
            assert(total.take(0) =~= Seq::<WALRecord>::empty());
            assert(same_observables(orig, *self));
        }
        let mut rest = records;
        while rest.len() > 0
            invariant
                self.wf(),
                orig == *old(self),
                total == records@,
                self.params == orig.params,
                self.persistence.pending() == orig.persistence.pending(),
                0 <= processed <= total.len(),
                rest@ == total.skip(processed),
                replayed(orig, total.take(processed), *self),
            decreases rest@.len(),
        {
            let ghost prev = *self;
            let record = rest.remove(0);
            proof {
                assert(record == total[processed]);
                assert(rest@ =~= total.skip(processed + 1));
            }
            match apply_wal_record(record, self) {
                Ok(()) => {
                    proof {
                        processed = processed + 1;
                        assert(applied_one(prev, total[processed - 1], *self));
                        assert(total.take(processed).drop_last() =~= total.take(processed - 1));
                        assert(total.take(processed).last() == total[processed - 1]);
                        assert(replayed(orig, total.take(processed), *self));
                    }
                },
                Err(_) => {
                    proof {
                        assert(same_observables(prev, *self));
                        lemma_replayed_stable(orig, total.take(processed), prev, *self);
                        assert(processed < total.len());
                        assert(exists|i: int|
                            0 <= i < total.len() && replayed(orig, total.take(i), *self)) by {
                            assert(replayed(orig, total.take(processed), *self));
                        }

                    }
                    return Err(
                        DBError::CreateError("failed to apply a WAL log record".to_owned()),
                    );
                },
            }
        }
        proof {
            assert(total.take(total.len() as int) =~= total);
        }
        Ok(())
    }

    /// The write path, in order: validate the shape, the dimension against
    /// the index, and the attribute values (rejection leaves no trace),
    /// allocate the next contiguous id range, finalize and encode the
    /// documents, append one WAL record that embeds the allocated ids and
    /// everything needed to replay, insert the vectors, write the documents,
    /// and record the attributes in the filter index.
    ///
    /// On success the labels grow by exactly the allocated range, the store
    /// holds the finalized document of every new id (and its advanced
    /// high-water marks, and nothing else new), the WAL gained exactly one
    /// record, and each filter cell gained exactly the new ids whose row
    /// carries that `(field, value)` pair. The id space for rows is capped
    /// at `u32::MAX` so that every id fits the filter bitmaps.
    #[verifier::rlimit(100)]
    pub fn upsert(&mut self, args: VectorInsertArgs) -> (r: Result<(), DBError>)
        requires
            old(self).wf(),
        ensures
            final(self).wf(),
            final(self).params == old(self).params,
            !args.valid_spec() ==> r is Err && *final(self) == *old(self),
            args.valid_spec() && args.data_dim != old(self).params.dim ==> r is Err && *final(self)
                == *old(self),
            args.valid_spec() && !attrs_ok(args.attributes@) ==> r is Err && *final(self) == *old(self),
            // the remaining rejections before any side effect: a malformed id
            // high-water mark, an exhausted id space, an exhausted log-id space
            upsert_inputs_ok(args, *old(self)) && !counter_bytes_ok(
                old(self).scalar_storage.smap(),
                id_max_key(),
            ) ==> r is Err && *final(self) == *old(self),
            upsert_inputs_ok(args, *old(self)) && counter_bytes_ok(
                old(self).scalar_storage.smap(),
                id_max_key(),
            ) && counter_of(old(self).scalar_storage.smap(), id_max_key()) + args.data_row
                > u32::MAX ==> r is Err && *final(self) == *old(self),
            upsert_marks_ok(args, *old(self)) && old(self).persistence.log_id() == u64::MAX ==> r
                is Err && *final(self) == *old(self),
            // with everything in order and an index that promises to accept
            // this insert, success is owed
            ({
                &&& upsert_marks_ok(args, *old(self))
                &&& old(self).persistence.log_id() < u64::MAX
                &&& old(self).vector_index.accepts_of(
                    args.data_row as int,
                    args.data_dim as int,
                    upsert_ids(args, *old(self)),
                    args.flat_data@,
                )
            }) ==> r is Ok,
            // with the inputs and both high-water marks in order, the only
            // thing that can still fail is the vector insert, and by then the
            // ids are burned: the marks stand advanced and the WAL record stands
            (r is Err && upsert_marks_ok(args, *old(self)) && old(self).persistence.log_id()
                < u64::MAX) ==> ({
                let c0 = counter_of(old(self).scalar_storage.smap(), id_max_key());
                let wid = (old(self).persistence.log_id() + 1) as u64;
                &&& final(self).persistence.issued_ids() == old(
                    self,
                ).persistence.issued_ids().push(wid)
                &&& final(self).persistence.log_id() == wid
                &&& final(self).scalar_storage.smap() == old(self).scalar_storage.smap().insert(
                    id_max_key(),
                    be64((c0 + args.data_row) as u64),
                ).insert(wal_id_key(), be64(wid))
                &&& exists|payload: Seq<u8>|
                    final(self).persistence.pending() == old(self).persistence.pending()
                        + crate::persistence::wal_line_parts(
                        wid,
                        old(self).persistence.version_of(),
                        crate::persistence::WALOperation::Upsert,
                        payload,
                    )
            }),
            match r {
                Ok(()) => {
                    let c0 = counter_of(old(self).scalar_storage.smap(), id_max_key());
                    let n = args.data_row;
                    let ids = upsert_ids(args, *old(self));
                    let wid = (old(self).persistence.log_id() + 1) as u64;
                    &&& args.valid_spec()
                    &&& attrs_ok(args.attributes@)
                    &&& args.data_dim == old(self).params.dim
                    &&& c0 + n <= u32::MAX
                    &&& final(self).total_rows() == old(self).total_rows() + n
                    &&& final(self).index_labels() == old(self).index_labels() + ids
                    &&& final(self).persistence.issued_ids() == old(self).persistence.issued_ids().push(wid)
                    &&& final(self).persistence.log_id() == wid
                    &&& exists|docs_bytes: Seq<Seq<u8>>|
                        {
                            &&& docs_bytes.len() == n
                            &&& forall|t: int|
                                0 <= t < n ==> doc_bytes_ok(
                                    #[trigger] docs_bytes[t],
                                    orig_doc_fields(args.docs@, t),
                                    ids[t],
                                    row_attr_fields(args.attributes@, t),
                                )
                            &&& forall|t: int|
                                0 <= t < n ==> final(self).scalar_storage.smap().contains_key(
                                    be64(#[trigger] ids[t]),
                                ) && final(self).scalar_storage.smap()[be64(ids[t])]
                                    == docs_bytes[t]
                            &&& final(self).persistence.pending() == old(self).persistence.pending() + crate::persistence::wal_line_parts(
                                wid,
                                old(self).persistence.version_of(),
                                crate::persistence::WALOperation::Upsert,
                                crate::wal_payload::payload_bytes(
                                    ids,
                                    args.data_dim as u64,
                                    args.flat_data@,
                                    docs_bytes,
                                    Seq::new(
                                        n as nat,
                                        |t: int|
                                            indexed_pairs(row_attr_fields(args.attributes@, t)),
                                    ),
                                ),
                            )
                        }
                    &&& final(self).scalar_storage.smap().contains_key(id_max_key()) && final(self).scalar_storage.smap()[id_max_key()] == be64((c0 + n) as u64)
                    &&& final(self).scalar_storage.smap().contains_key(wal_id_key()) && final(self).scalar_storage.smap()[wal_id_key()] == be64(wid)
                    &&& forall|k: Seq<u8>|
                        k != id_max_key() && k != wal_id_key() && (forall|t: int|
                            0 <= t < n ==> k != be64(#[trigger] ids[t])) ==> (#[trigger] final(self).scalar_storage.smap().contains_key(k)) == old(self).scalar_storage.smap().contains_key(k) && (final(self).scalar_storage.smap().contains_key(k) ==> final(self).scalar_storage.smap()[k] == old(self).scalar_storage.smap()[k])
                    &&& forall|g: Seq<char>, w: i64| #[trigger]
                        final(self).filter_index.ids_at(g, w) == old(self).filter_index.ids_at(
                            g,
                            w,
                        ).union(
                            Set::new(
                                |x: u32|
                                    exists|t: int|
                                        0 <= t < n && #[trigger] indexed_pairs(
                                            row_attr_fields(args.attributes@, t),
                                        ).contains((g, w)) && x == (ids[t]) as u32,
                            ),
                        )
                },
                Err(e) => {
                    &&& final(self).total_rows() == old(self).total_rows()
                    &&& final(self).index_labels() == old(self).index_labels()
                    &&& final(self).filter_index == old(self).filter_index
                    &&& old(self).persistence.pending().is_prefix_of(
                        final(self).persistence.pending(),
                    )
                    &&& forall|k: Seq<u8>|
                        k != id_max_key() && k != wal_id_key() ==> (#[trigger] final(self).scalar_storage.smap().contains_key(k)) == old(self).scalar_storage.smap().contains_key(k) && (final(self).scalar_storage.smap().contains_key(k) ==> final(self).scalar_storage.smap()[k] == old(self).scalar_storage.smap()[k])
                },
            },
    {
        let ghost orig = *self;
        proof {
            lemma_seq_prefix_refl(self.persistence.pending());
        }
        let (mismatch_field, _mismatch_value, _expect_value) = args.validate();
        if !mismatch_field.is_empty() {
            return Err(DBError::PutError("unexpected field length in upsert request".to_owned()));
        }
        if args.data_dim != self.params.dim as usize {
            return Err(
                DBError::PutError(
                    "data dimension does not match index dimension".to_owned(),
                ),
            );
        }
        if let Some(field) = check_attrs(&args.attributes) {
            let mut message: String = "unsupported attribute value for field ".to_owned();
            message.append(field.as_str());
            return Err(DBError::PutError(message));
        }
        let n = args.data_row;
        // read the id high-water mark so that the id-space cap is enforced
        // before any side effect
        let key = crate::scalar::id_max_key_bytes();
        let c0: u64 = match self.scalar_storage.get(key.as_slice()) {
            Ok(Some(bytes)) => {
                if bytes.len() != 8 {
                    return Err(
                        DBError::GetError("stored id high-water mark is not 8 bytes".to_owned()),
                    );
                }
                crate::bytes::u64_from_be_bytes(bytes.as_slice())
            },
            Ok(None) => 0,
            Err(_) => {
                return Err(DBError::GetError("unable to read id high-water mark".to_owned()));
            },
        };
        if c0 > u32::MAX as u64 || n as u64 > u32::MAX as u64 - c0 {
            return Err(DBError::PutError("id space exhausted".to_owned()));
        }
        if self.persistence.get_log_id() == u64::MAX {
            return Err(DBError::PutError("WAL log-id space exhausted".to_owned()));
        }
        let ids: Vec<u64> = match self.scalar_storage.gen_incr_ids(n) {
            Ok(ids) => ids,
            Err(e) => {
                proof {
                    assert(false);
                }
                return Err(e);
            },
        };
        let ghost idseq = Seq::new(n as nat, |t: int| (c0 + 1 + t) as u64);
        let ghost flat0 = args.flat_data@;
        proof {
            assert(ids@ =~= idseq);
            assert(idseq =~= upsert_ids(args, *old(self)));
        }
        let (docs_bytes, pairs_rows) = build_rows(args.docs, args.attributes, &ids);
        // write ahead: one record embedding the ids and everything replay
        // needs
        let payload = UpsertPayload {
            ids: copy_u64s(&ids),
            dim: args.data_dim as u64,
            flat: copy_u32s(&args.flat_data),
            docs: copy_blobs(&docs_bytes),
            attrs: copy_pairs_rows(&pairs_rows),
        };
        let data = payload.encode();
        let wid: u64 = match self.persistence.write_wal(
            crate::persistence::WALOperation::Upsert,
            data,
        ) {
            Ok(id) => id,
            Err(_) => {
                proof {
                    assert(false);
                }
                return Err(DBError::PutError("unable to append to the WAL".to_owned()));
            },
        };
        let wal_key = crate::scalar::wal_id_key_bytes();
        let wid_bytes = crate::bytes::u64_to_be_bytes(wid);
        match self.scalar_storage.put(wal_key.as_slice(), wid_bytes.as_slice()) {
            Ok(()) => {},
            Err(_) => {},
        }
        let ghost mid = *self;
        let ghost ghost_args_attributes = args.attributes@;
        // the vector insert; if the backing index rejects it the ids stay
        // burned and the WAL record stands, so recovery retries the intent
        let params = InsertParams {
            data: args.flat_data,
            rows: n,
            dim: args.data_dim,
            labels: copy_u64s(&ids),
            hnsw_params: args.hnsw_params,
        };
        match self.vector_index.insert(&params) {
            Ok(()) => {},
            Err(_) => {
                proof {
                    assert(params.labels@ =~= idseq);
                    assert(!orig.vector_index.accepts_of(n as int, args.data_dim as int, idseq, flat0));
                    assert(idseq =~= upsert_ids(args, orig));
                    lemma_burned_wf(orig, *self, (c0 + n as u64) as u64, wid);
                    lemma_seq_prefix_append(orig.persistence.pending(), self.persistence.pending().skip(orig.persistence.pending().len() as int));
                    assert(orig.persistence.pending() + self.persistence.pending().skip(orig.persistence.pending().len() as int) =~= self.persistence.pending());
                }
                return Err(DBError::PutError("unable to upsert vector data".to_owned()));
            },
        }
        store_docs(&mut self.scalar_storage, &ids, &docs_bytes);
        apply_attr_updates(&mut self.filter_index, &ids, &pairs_rows);
        proof {
            self.rows_total@ = self.rows_total@ + n as nat;
        }
        proof {
            let dviews = crate::wal_payload::doc_views(docs_bytes@);
            let ipairs = Seq::new(
                n as nat,
                |t: int| indexed_pairs(row_attr_fields(ghost_args_attributes, t)),
            );
            let pviews = Seq::new(pairs_rows@.len(), |t: int| pair_views(pairs_rows@[t]));
            assert(pviews =~= ipairs);
            // the reserved keys and the new documents stand in the store
            assert(id_max_key().len() == 10 && wal_id_key().len() == 10);
            assert forall|t: int| 0 <= t < n implies id_max_key() != be64(#[trigger] idseq[t])
                && wal_id_key() != be64(idseq[t]) by {
                assert(be64(idseq[t]).len() == 8);
            }
            assert forall|t: int|
                0 <= t < ids@.len() implies id_max_key() != be64(#[trigger] ids@[t])
                && wal_id_key() != be64(ids@[t]) by {
                assert(be64(ids@[t]).len() == 8);
            }
            assert(mid.scalar_storage.smap().contains_key(id_max_key())
                && mid.scalar_storage.smap()[id_max_key()] == be64((c0 + n as u64) as u64));
            assert(mid.scalar_storage.smap().contains_key(wal_id_key())
                && mid.scalar_storage.smap()[wal_id_key()] == be64(wid));
            assert(self.scalar_storage.smap().contains_key(id_max_key()));
            assert(self.scalar_storage.smap()[id_max_key()] == be64((c0 + n as u64) as u64));
            assert(self.scalar_storage.smap().contains_key(wal_id_key()));
            assert(self.scalar_storage.smap()[wal_id_key()] == be64(wid));
            lemma_upsert_wf(orig, *self, c0, n as int, idseq, wid);
            // the WAL line carries exactly the encoded payload
            assert(payload.ids@ =~= idseq);
            assert(payload.flat@ =~= flat0);
            assert(crate::wal_payload::doc_views(payload.docs@) =~= dviews);
            assert(crate::wal_payload::attr_views(payload.attrs@) =~= ipairs);
            assert(self.persistence.pending() == orig.persistence.pending()
                + crate::persistence::wal_line_parts(
                wid,
                orig.persistence.version_of(),
                crate::persistence::WALOperation::Upsert,
                crate::wal_payload::payload_bytes(
                    idseq,
                    args.data_dim as u64,
                    flat0,
                    dviews,
                    ipairs,
                ),
            ));
            assert(dviews.len() == n);
            assert forall|t: int| 0 <= t < n implies doc_bytes_ok(
                #[trigger] dviews[t],
                orig_doc_fields(args.docs@, t),
                idseq[t],
                row_attr_fields(ghost_args_attributes, t),
            ) by {
                assert(dviews[t] == docs_bytes@[t]@);
            }
            assert forall|t: int| 0 <= t < n implies self.scalar_storage.smap().contains_key(
                be64(#[trigger] idseq[t]),
            ) && self.scalar_storage.smap()[be64(idseq[t])] == dviews[t] by {
                assert(dviews[t] == docs_bytes@[t]@);
            }
            // every filter cell gained exactly the new ids of its rows
            assert forall|g: Seq<char>, w: i64| #[trigger]
                self.filter_index.ids_at(g, w) == orig.filter_index.ids_at(g, w).union(
                    Set::new(
                        |x: u32|
                            exists|t: int|
                                0 <= t < n && #[trigger] indexed_pairs(
                                    row_attr_fields(ghost_args_attributes, t),
                                ).contains((g, w)) && x == (idseq[t]) as u32,
                    ),
                ) by {
                assert(filter_contrib(pviews, idseq, g, w, n as int) =~= Set::new(
                    |x: u32|
                        exists|t: int|
                            0 <= t < n && #[trigger] indexed_pairs(
                                row_attr_fields(ghost_args_attributes, t),
                            ).contains((g, w)) && x == (idseq[t]) as u32,
                )) by {
                    assert forall|x: u32|
                        filter_contrib(pviews, idseq, g, w, n as int).contains(x) implies Set::new(
                        |x2: u32|
                            exists|t: int|
                                0 <= t < n && #[trigger] indexed_pairs(
                                    row_attr_fields(ghost_args_attributes, t),
                                ).contains((g, w)) && x2 == (idseq[t]) as u32,
                    ).contains(x) by {
                        let t = choose|t: int|
                            0 <= t < n && (#[trigger] pviews[t]).contains((g, w)) && x == (
                            idseq[t]) as u32;
                        assert(indexed_pairs(row_attr_fields(ghost_args_attributes, t)).contains(
                            (g, w),
                        ));
                    }
                    assert forall|x: u32|
                        Set::new(
                            |x2: u32|
                                exists|t: int|
                                    0 <= t < n && #[trigger] indexed_pairs(
                                        row_attr_fields(ghost_args_attributes, t),
                                    ).contains((g, w)) && x2 == (idseq[t]) as u32,
                        ).contains(x) implies filter_contrib(pviews, idseq, g, w, n as int).contains(
                        x,
                    ) by {
                        let t = choose|t: int|
                            0 <= t < n && #[trigger] indexed_pairs(
                                row_attr_fields(ghost_args_attributes, t),
                            ).contains((g, w)) && x == (idseq[t]) as u32;
                        assert(pviews[t].contains((g, w)));
                    }
                }
            }
        }
        Ok(())
    }
}


/// Over any sequence of successful upserts, the vector index holds exactly
/// one label per upserted row and the scalar store holds exactly one document
/// per held label: the vector count, the document count and the sum of the
/// upserted rows coincide.
pub proof fn lemma_vector_document_counts<I: Index>(db: VectorDatabase<I>)
    requires
        db.wf(),
    ensures
        db.index_labels().len() == db.total_rows(),
        forall|i: int, j: int|
            0 <= i < j < db.index_labels().len() ==> #[trigger] db.index_labels()[i]
                != #[trigger] db.index_labels()[j],
        forall|i: int|
            0 <= i < db.index_labels().len() ==> db.doc_present(#[trigger] db.index_labels()[i]),
        forall|id: u64| #[trigger] db.doc_present(id) ==> db.index_labels().contains(id),
{
    assert forall|id: u64| #[trigger] db.doc_present(id) implies db.index_labels().contains(
        id,
    ) by {
        assert(be64(id).len() == 8);
        let i = choose|i: int|
            0 <= i < db.index_labels().len() && be64(id) == be64(#[trigger] db.index_labels()[i]);
        crate::bytes::lemma_be64_injective(id, db.index_labels()[i]);
    }
}

/// When a query's only predicate is `Equal(f, v)`, every label a sound
/// search returns under the composed restriction lies in the filter's
/// `(f, v)` bitmap.
pub proof fn lemma_equal_filter_subset(
    fi: IntFilterIndex,
    input: IntFilterInput,
    res: SearchResult,
    labels: Seq<u64>,
    q: SearchQuery,
    k: usize,
)
    requires
        input.op == FilterOp::Equal,
        q.id_filter is Some,
        q.id_filter->0.ids() == composed_ids(fi, seq![input]),
        search_result_sound(res, labels, q, k),
    ensures
        forall|i: int|
            0 <= i < res.labels@.len() ==> fi.ids_at(input.field@, input.target).contains(
                (#[trigger] res.labels@[i]) as u32,
            ),
{
    assert(seq![input].len() == 1);
    assert(seq![input].drop_last() =~= Seq::<IntFilterInput>::empty());
    assert(seq![input].last() == input);
    assert(composed_ids(fi, Seq::<IntFilterInput>::empty()) =~= Set::<u32>::empty());
    assert(composed_ids(fi, seq![input]) == composed_ids(
        fi,
        Seq::<IntFilterInput>::empty(),
    ).union(fi.selected(input)));
    assert(Set::<u32>::empty().union(fi.selected(input)) =~= fi.selected(input));
    assert(composed_ids(fi, seq![input]) =~= fi.ids_at(input.field@, input.target));
    assert forall|i: int| 0 <= i < res.labels@.len() implies fi.ids_at(
        input.field@,
        input.target,
    ).contains((#[trigger] res.labels@[i]) as u32) by {
        assert(admitted(q, res.labels@[i]));
    }
}


/// The integer a single attribute value contributes to the filter index:
/// a signed integer as itself, an unsigned one when it fits, nothing for any
/// other numeric literal.
pub open spec fn attr_int_value(v: JsonValue) -> Option<i64> {
    match v {
        JsonValue::Int(i) => Some(i),
        JsonValue::UInt(u) => if u <= i64::MAX as u64 {
            Some(u as i64)
        } else {
            None
        },
        _ => None,
    }
}

/// Whether an attribute value is acceptable: exactly the values the filter
/// index can record, the integers with an `i64` representation; any other
/// value fails the upsert.
pub open spec fn attr_value_ok(v: JsonValue) -> bool {
    attr_int_value(v) is Some
}

pub open spec fn attrs_row_ok(row: Option<DocMap>) -> bool {
    match row {
        Some(m) => forall|j: int| 0 <= j < m@.len() ==> attr_value_ok((#[trigger] m@[j]).1),
        None => true,
    }
}

pub open spec fn attrs_ok(attrs: Seq<Option<DocMap>>) -> bool {
    forall|t: int| 0 <= t < attrs.len() ==> attrs_row_ok(#[trigger] attrs[t])
}

/// The `(field, value)` pairs of an attribute map that the filter index
/// records, in order.
pub open spec fn indexed_pairs(s: Seq<(String, JsonValue)>) -> Seq<(Seq<char>, i64)>
    decreases s.len(),
{
    if s.len() == 0 {
        Seq::empty()
    } else {
        indexed_pairs(s.drop_last()) + (match attr_int_value(s.last().1) {
            Some(w) => seq![(s.last().0@, w)],
            None => Seq::empty(),
        })
    }
}

/// The attribute fields of row `t`: empty when no attributes came at all or
/// the row's map is absent.
pub open spec fn row_attr_fields(attrs: Seq<Option<DocMap>>, t: int) -> Seq<(String, JsonValue)> {
    if attrs.len() == 0 || !(0 <= t < attrs.len()) {
        Seq::empty()
    } else {
        match attrs[t] {
            Some(m) => m@,
            None => Seq::empty(),
        }
    }
}

/// The caller's document fields of row `t`.
pub open spec fn orig_doc_fields(docs: Seq<Option<DocMap>>, t: int) -> Seq<(String, JsonValue)> {
    if 0 <= t < docs.len() {
        match docs[t] {
            Some(d) => d@,
            None => Seq::empty(),
        }
    } else {
        Seq::empty()
    }
}

/// The caller's fields that survive injection: everything but `id` and
/// `attributes`.
pub open spec fn kept_fields(s: Seq<(String, JsonValue)>) -> Seq<(String, JsonValue)>
    decreases s.len(),
{
    if s.len() == 0 {
        Seq::empty()
    } else {
        (if s.first().0@ == "id"@ || s.first().0@ == "attributes"@ {
            Seq::empty()
        } else {
            seq![s.first()]
        }) + kept_fields(s.drop_first())
    }
}

/// The persisted form of a document: the caller's surviving fields followed
/// by the injected `id` number and `attributes` object.
pub open spec fn finalized_fields(
    out: Seq<(String, JsonValue)>,
    orig: Seq<(String, JsonValue)>,
    id: u64,
    attrs: Seq<(String, JsonValue)>,
) -> bool {
    let kept = kept_fields(orig);
    &&& out.len() == kept.len() + 2
    &&& out.take(kept.len() as int) == kept
    &&& out[out.len() - 2].0@ == "id"@
    &&& out[out.len() - 2].1 == JsonValue::UInt(id)
    &&& out[out.len() - 1].0@ == "attributes"@
    &&& out[out.len() - 1].1 is Obj
    &&& (out[out.len() - 1].1->Obj_0)@ == attrs
}

/// The stored bytes are the JSON encoding of some finalized form of the
/// document.
pub open spec fn doc_bytes_ok(
    stored: Seq<u8>,
    orig: Seq<(String, JsonValue)>,
    id: u64,
    attrs: Seq<(String, JsonValue)>,
) -> bool {
    exists|v: DocMap|
        finalized_fields(v@, orig, id, attrs) && stored == crate::json::json_bytes(
            JsonValue::Obj(v),
        )
}

/// The ids that rows below `tmax` contribute to filter cell `(g, w)`.
pub open spec fn filter_contrib(
    pairs: Seq<Seq<(Seq<char>, i64)>>,
    ids: Seq<u64>,
    g: Seq<char>,
    w: i64,
    tmax: int,
) -> Set<u32> {
    Set::new(
        |x: u32|
            exists|t: int|
                0 <= t < tmax && (#[trigger] pairs[t]).contains((g, w)) && x == (ids[t]) as u32,
    )
}

/// Checks every attribute value, so that a bad one is rejected before any
/// side effect; returns the first offending field's name.
fn check_attrs(attrs: &Vec<Option<DocMap>>) -> (r: Option<String>)
    ensures
        r is None <==> attrs_ok(attrs@),
{
    let n = attrs.len();
    let mut t: usize = 0;
    while t < n
        invariant
            0 <= t <= n,
            n == attrs@.len(),
            forall|s: int| 0 <= s < t ==> attrs_row_ok(#[trigger] attrs@[s]),
        decreases n - t,
    {
        match &attrs[t] {
            Some(m) => {
                let k = m.len();
                let mut j: usize = 0;
                while j < k
                    invariant
                        0 <= j <= k,
                        0 <= t < attrs@.len(),
                        attrs@[t as int] is Some,
                        k == attrs@[t as int]->0@.len(),
                        *m == attrs@[t as int]->0,
                        forall|u: int|
                            0 <= u < j ==> attr_value_ok((#[trigger] m@[u]).1),
                    decreases k - j,
                {
                    let ok = match &m[j].1 {
                        JsonValue::Int(_) => true,
                        JsonValue::UInt(u) => *u <= i64::MAX as u64,
                        _ => false,
                    };
                    if !ok {
                        return Some(crate::persistence::clone_string(&m[j].0));
                    }
                    j = j + 1;
                }
            },
            None => {},
        }
        t = t + 1;
    }
    None
}

/// Extracts the indexable `(field, value)` pairs of one attribute map.
fn extract_pairs(row: &DocMap) -> (r: AttrPairs)
    ensures
        pair_views(r) =~= indexed_pairs(row@),
{
    let mut r: AttrPairs = Vec::new();
    let n = row.len();
    let mut j: usize = 0;
    while j < n
        invariant
            0 <= j <= n,
            n == row@.len(),
            pair_views(r) =~= indexed_pairs(row@.take(j as int)),
        decreases n - j,
    {
        match &row[j].1 {
            JsonValue::Int(i) => {
                let f = crate::persistence::clone_string(&row[j].0);
                r.push((f, *i));
            },
            JsonValue::UInt(u) => {
                if *u <= i64::MAX as u64 {
                    let f = crate::persistence::clone_string(&row[j].0);
                    r.push((f, *u as i64));
                }
            },
            _ => {},
        }
        j = j + 1;
        proof {
            assert(row@.take(j as int).drop_last() =~= row@.take(j - 1));
            assert(row@.take(j as int).last() == row@[j - 1]);
            assert(pair_views(r) =~= indexed_pairs(row@.take(j as int)));
        }
    }
    proof {
        assert(row@.take(n as int) =~= row@);
    }
    r
}

/// Builds the persisted form of one document: the caller's fields without
/// any `id` or `attributes` they supplied, then the injected `id` and
/// `attributes`.
fn finalize_doc(doc: DocMap, id: u64, attrs: DocMap) -> (r: DocMap)
    ensures
        finalized_fields(r@, doc@, id, attrs@),
{
    proof {
        reveal_strlit("id");
        reveal_strlit("attributes");
    }
    let mut rest = doc;
    let mut kept: DocMap = Vec::new();
    while rest.len() > 0
        invariant
            kept_fields(doc@) == kept@ + kept_fields(rest@),
        decreases rest@.len(),
    {
        let ghost rest_pre = rest@;
        let f = rest.remove(0);
        let is_id = string_eq_lit_id(&f.0);
        let is_attrs = string_eq_lit_attributes(&f.0);
        if !is_id && !is_attrs {
            kept.push(f);
        }
        proof {
            assert(rest@ =~= rest_pre.drop_first());
            assert(rest_pre.first() == f);
        }
    }
    proof {
        assert(kept_fields(rest@) =~= Seq::<(String, JsonValue)>::empty());
        assert(kept@ =~= kept_fields(doc@));
    }
    let mut out = kept;
    let id_key = str_to_string_id();
    out.push((id_key, JsonValue::UInt(id)));
    let attr_key = str_to_string_attributes();
    out.push((attr_key, JsonValue::Obj(attrs)));
    proof {
        assert(out@.take(kept_fields(doc@).len() as int) =~= kept_fields(doc@));
    }
    out
}

fn string_eq_lit_id(s: &String) -> (r: bool)
    ensures
        r == (s@ == "id"@),
{
    let lit: String = "id".to_owned();
    *s == lit
}

fn string_eq_lit_attributes(s: &String) -> (r: bool)
    ensures
        r == (s@ == "attributes"@),
{
    let lit: String = "attributes".to_owned();
    *s == lit
}

fn str_to_string_id() -> (r: String)
    ensures
        r@ == "id"@,
{
    "id".to_owned()
}

fn str_to_string_attributes() -> (r: String)
    ensures
        r@ == "attributes"@,
{
    "attributes".to_owned()
}

fn copy_u64s(v: &Vec<u64>) -> (r: Vec<u64>)
    ensures
        r@ == v@,
{
    let mut r: Vec<u64> = Vec::new();
    let n = v.len();
    let mut i: usize = 0;
    while i < n
        invariant
            0 <= i <= n,
            n == v@.len(),
            r@ =~= v@.take(i as int),
        decreases n - i,
    {
        r.push(v[i]);
        i = i + 1;
    }
    proof {
        assert(v@.take(n as int) =~= v@);
    }
    r
}

fn copy_u32s(v: &Vec<u32>) -> (r: Vec<u32>)
    ensures
        r@ == v@,
{
    let mut r: Vec<u32> = Vec::new();
    let n = v.len();
    let mut i: usize = 0;
    while i < n
        invariant
            0 <= i <= n,
            n == v@.len(),
            r@ =~= v@.take(i as int),
        decreases n - i,
    {
        r.push(v[i]);
        i = i + 1;
    }
    proof {
        assert(v@.take(n as int) =~= v@);
    }
    r
}

fn copy_blobs(v: &Vec<Vec<u8>>) -> (r: Vec<Vec<u8>>)
    ensures
        r@.len() == v@.len(),
        forall|i: int| 0 <= i < v@.len() ==> (#[trigger] r@[i])@ == v@[i]@,
{
    let mut r: Vec<Vec<u8>> = Vec::new();
    let n = v.len();
    let mut i: usize = 0;
    while i < n
        invariant
            0 <= i <= n,
            n == v@.len(),
            r@.len() == i,
            forall|j: int| 0 <= j < i ==> (#[trigger] r@[j])@ == v@[j]@,
        decreases n - i,
    {
        let mut b: Vec<u8> = Vec::new();
        let m = v[i].len();
        let mut j: usize = 0;
        while j < m
            invariant
                0 <= j <= m,
                0 <= i < v@.len(),
                m == v@[i as int]@.len(),
                b@ =~= v@[i as int]@.take(j as int),
            decreases m - j,
        {
            b.push(v[i][j]);
            j = j + 1;
        }
        proof {
            assert(v@[i as int]@.take(m as int) =~= v@[i as int]@);
        }
        r.push(b);
        i = i + 1;
    }
    r
}

fn copy_pairs_rows(v: &Vec<AttrPairs>) -> (r: Vec<AttrPairs>)
    ensures
        r@.len() == v@.len(),
        forall|i: int| 0 <= i < v@.len() ==> pair_views(#[trigger] r@[i]) == pair_views(v@[i]),
{
    let mut r: Vec<AttrPairs> = Vec::new();
    let n = v.len();
    let mut i: usize = 0;
    while i < n
        invariant
            0 <= i <= n,
            n == v@.len(),
            r@.len() == i,
            forall|j: int| 0 <= j < i ==> pair_views(#[trigger] r@[j]) == pair_views(v@[j]),
        decreases n - i,
    {
        let mut row: AttrPairs = Vec::new();
        let m = v[i].len();
        let mut j: usize = 0;
        while j < m
            invariant
                0 <= j <= m,
                0 <= i < v@.len(),
                m == v@[i as int]@.len(),
                row@.len() == j,
                forall|u: int|
                    0 <= u < j ==> (#[trigger] row@[u]).0@ == v@[i as int]@[u].0@ && row@[u].1
                        == v@[i as int]@[u].1,
            decreases m - j,
        {
            let f = crate::persistence::clone_string(&v[i][j].0);
            row.push((f, v[i][j].1));
            j = j + 1;
        }
        proof {
            assert(pair_views(row) =~= pair_views(v@[i as int]));
        }
        r.push(row);
        i = i + 1;
    }
    r
}


/// Builds, for every row, the persisted document bytes and the indexable
/// attribute pairs.
fn build_rows(docs: Vec<Option<DocMap>>, attributes: Vec<Option<DocMap>>, ids: &Vec<u64>) -> (r: (
    Vec<Vec<u8>>,
    Vec<AttrPairs>,
))
    requires
        ids@.len() == docs@.len(),
        attributes@.len() == 0 || attributes@.len() == docs@.len(),
    ensures
        r.0@.len() == docs@.len(),
        r.1@.len() == docs@.len(),
        forall|t: int|
            0 <= t < docs@.len() ==> doc_bytes_ok(
                (#[trigger] r.0@[t])@,
                orig_doc_fields(docs@, t),
                ids@[t],
                row_attr_fields(attributes@, t),
            ),
        forall|t: int|
            0 <= t < docs@.len() ==> pair_views(#[trigger] r.1@[t]) == indexed_pairs(
                row_attr_fields(attributes@, t),
            ),
{
    let ghost docs0 = docs@;
    let ghost attrs0 = attributes@;
    let n = docs.len();
    let attrs_present = attributes.len() > 0;
    let mut docs_in = docs;
    let mut attrs_in = attributes;
    let mut bytes_rev: Vec<Vec<u8>> = Vec::new();
    let mut pairs_rev: Vec<AttrPairs> = Vec::new();
    let mut t: usize = n;
    while t > 0
        invariant
            0 <= t <= n,
            n == docs0.len(),
            n == ids@.len(),
            attrs_present == (attrs0.len() > 0),
            attrs_present ==> attrs0.len() == n,
            docs_in@ =~= docs0.take(t as int),
            attrs_present ==> attrs_in@ =~= attrs0.take(t as int),
            bytes_rev@.len() == n - t,
            pairs_rev@.len() == n - t,
            forall|j: int|
                0 <= j < n - t ==> doc_bytes_ok(
                    (#[trigger] bytes_rev@[j])@,
                    orig_doc_fields(docs0, n - 1 - j),
                    ids@[n - 1 - j],
                    row_attr_fields(attrs0, n - 1 - j),
                ),
            forall|j: int|
                0 <= j < n - t ==> pair_views(#[trigger] pairs_rev@[j]) == indexed_pairs(
                    row_attr_fields(attrs0, n - 1 - j),
                ),
        decreases t,
    {
        t = t - 1;
        let doc_opt = match docs_in.pop() {
            Some(d) => d,
            None => None,
        };
        let attr_opt: Option<DocMap> = if attrs_present {
            match attrs_in.pop() {
                Some(a) => a,
                None => None,
            }
        } else {
            None
        };
        proof {
            assert(docs0.take(t + 1).last() == docs0[t as int]);
            assert(docs_in@ =~= docs0.take(t as int));
            if attrs_present {
                assert(attrs0.take(t + 1).last() == attrs0[t as int]);
                assert(attrs_in@ =~= attrs0.take(t as int));
            }
        }
        let attrs_vec: DocMap = match attr_opt {
            Some(m) => m,
            None => Vec::new(),
        };
        proof {
            assert(attrs_vec@ =~= row_attr_fields(attrs0, t as int));
        }
        let pairs = extract_pairs(&attrs_vec);
        let doc_fields: DocMap = match doc_opt {
            Some(d) => d,
            None => Vec::new(),
        };
        proof {
            assert(doc_fields@ =~= orig_doc_fields(docs0, t as int));
        }
        let fin = finalize_doc(doc_fields, ids[t], attrs_vec);
        let bytes = crate::json::json_to_bytes(&JsonValue::Obj(fin));
        bytes_rev.push(bytes);
        pairs_rev.push(pairs);
    }
    let mut docs_bytes: Vec<Vec<u8>> = Vec::new();
    let mut pairs_rows: Vec<AttrPairs> = Vec::new();
    let mut i: usize = 0;
    let mut bytes_rev = bytes_rev;
    let mut pairs_rev = pairs_rev;
    while i < n
        invariant
            0 <= i <= n,
            bytes_rev@.len() == n - i,
            pairs_rev@.len() == n - i,
            docs_bytes@.len() == i,
            pairs_rows@.len() == i,
            n == docs0.len(),
            n == ids@.len(),
            forall|j: int|
                0 <= j < n - i ==> doc_bytes_ok(
                    (#[trigger] bytes_rev@[j])@,
                    orig_doc_fields(docs0, n - 1 - j),
                    ids@[n - 1 - j],
                    row_attr_fields(attrs0, n - 1 - j),
                ),
            forall|j: int|
                0 <= j < n - i ==> pair_views(#[trigger] pairs_rev@[j]) == indexed_pairs(
                    row_attr_fields(attrs0, n - 1 - j),
                ),
            forall|t2: int|
                0 <= t2 < i ==> doc_bytes_ok(
                    (#[trigger] docs_bytes@[t2])@,
                    orig_doc_fields(docs0, t2),
                    ids@[t2],
                    row_attr_fields(attrs0, t2),
                ),
            forall|t2: int|
                0 <= t2 < i ==> pair_views(#[trigger] pairs_rows@[t2]) == indexed_pairs(
                    row_attr_fields(attrs0, t2),
                ),
        decreases n - i,
    {
        let b = match bytes_rev.pop() {
            Some(b) => b,
            None => Vec::new(),
        };
        let p = match pairs_rev.pop() {
            Some(p) => p,
            None => Vec::new(),
        };
        docs_bytes.push(b);
        pairs_rows.push(p);
        i = i + 1;
    }
    (docs_bytes, pairs_rows)
}

/// Writes every document under its big-endian id key; nothing else in the
/// store changes.
fn store_docs(st: &mut ScalarStorage, ids: &Vec<u64>, docs_bytes: &Vec<Vec<u8>>)
    requires
        old(st).wf(),
        ids@.len() == docs_bytes@.len(),
        forall|i: int, j: int| 0 <= i < j < ids@.len() ==> ids@[i] != ids@[j],
    ensures
        final(st).wf(),
        forall|t: int|
            0 <= t < ids@.len() ==> final(st).smap().contains_key(be64(#[trigger] ids@[t]))
                && final(st).smap()[be64(ids@[t])] == docs_bytes@[t]@,
        forall|k: Seq<u8>|
            (forall|t: int| 0 <= t < ids@.len() ==> k != be64(#[trigger] ids@[t])) ==> (
            #[trigger] final(st).smap().contains_key(k)) == old(st).smap().contains_key(k) && (
            final(st).smap().contains_key(k) ==> final(st).smap()[k] == old(st).smap()[k]),
{
    let n = ids.len();
    let mut t: usize = 0;
    while t < n
        invariant
            0 <= t <= n,
            n == ids@.len(),
            n == docs_bytes@.len(),
            st.wf(),
            forall|i: int, j: int| 0 <= i < j < n ==> ids@[i] != ids@[j],
            forall|s: int|
                0 <= s < t ==> st.smap().contains_key(be64(#[trigger] ids@[s]))
                    && st.smap()[be64(ids@[s])] == docs_bytes@[s]@,
            forall|k: Seq<u8>|
                (forall|s: int| 0 <= s < t ==> k != be64(#[trigger] ids@[s])) ==> (
                #[trigger] st.smap().contains_key(k)) == old(st).smap().contains_key(k) && (
                st.smap().contains_key(k) ==> st.smap()[k] == old(st).smap()[k]),
        decreases n - t,
    {
        let key = crate::bytes::u64_to_be_bytes(ids[t]);
        match st.put(key.as_slice(), docs_bytes[t].as_slice()) {
            Ok(()) => {},
            Err(_) => {},
        }
        t = t + 1;
        proof {
            assert forall|s: int|
                0 <= s < t implies st.smap().contains_key(be64(#[trigger] ids@[s]))
                && st.smap()[be64(ids@[s])] == docs_bytes@[s]@ by {
                if s < t - 1 {
                    if be64(ids@[s]) == be64(ids@[t - 1]) {
                        crate::bytes::lemma_be64_injective(ids@[s], ids@[t - 1]);
                    }
                }
            }
        }
    }
}

/// Records every row's indexable attribute pairs under that row's id: the
/// cell `(g, w)` gains exactly the ids of the rows carrying `(g, w)`.
fn apply_attr_updates(fi: &mut IntFilterIndex, ids: &Vec<u64>, pairs: &Vec<AttrPairs>)
    requires
        old(fi).wf(),
        ids@.len() == pairs@.len(),
    ensures
        final(fi).wf(),
        forall|g: Seq<char>, w: i64| #[trigger]
            final(fi).ids_at(g, w) == old(fi).ids_at(g, w).union(
                filter_contrib(
                    Seq::new(pairs@.len(), |t: int| pair_views(pairs@[t])),
                    ids@,
                    g,
                    w,
                    ids@.len() as int,
                ),
            ),
{
    let ghost pviews = Seq::new(pairs@.len(), |t: int| pair_views(pairs@[t]));
    let n = ids.len();
    let mut t: usize = 0;
    while t < n
        invariant
            0 <= t <= n,
            n == ids@.len(),
            n == pairs@.len(),
            fi.wf(),
            pviews == Seq::new(pairs@.len(), |t2: int| pair_views(pairs@[t2])),
            forall|g: Seq<char>, w: i64| #[trigger]
                fi.ids_at(g, w) == old(fi).ids_at(g, w).union(
                    filter_contrib(pviews, ids@, g, w, t as int),
                ),
        decreases n - t,
    {
        let row = &pairs[t];
        let m = row.len();
        let mut j: usize = 0;
        while j < m
            invariant
                0 <= j <= m,
                0 <= t < n,
                n == ids@.len(),
                n == pairs@.len(),
                fi.wf(),
                *row == pairs@[t as int],
                m == row@.len(),
                pviews == Seq::new(pairs@.len(), |t2: int| pair_views(pairs@[t2])),
                forall|g: Seq<char>, w: i64| #[trigger]
                    fi.ids_at(g, w) == old(fi).ids_at(g, w).union(
                        filter_contrib(pviews, ids@, g, w, t as int),
                    ).union(
                        Set::new(
                            |x: u32|
                                pair_views(pairs@[t as int]).take(j as int).contains((g, w)) && x
                                    == (ids@[t as int]) as u32,
                        ),
                    ),
            decreases m - j,
        {
            let ghost fi_pre = *fi;
            fi.upsert(row[j].0.as_str(), row[j].1, ids[t]);
            proof {
                let gj = row@[j as int].0@;
                let wj = row@[j as int].1;
                assert forall|g: Seq<char>, w: i64| #[trigger]
                    fi.ids_at(g, w) == old(fi).ids_at(g, w).union(
                        filter_contrib(pviews, ids@, g, w, t as int),
                    ).union(
                        Set::new(
                            |x: u32|
                                pair_views(pairs@[t as int]).take(j + 1).contains((g, w)) && x == (
                                ids@[t as int]) as u32,
                        ),
                    ) by {
                    if g == gj && w == wj {
                        assert(fi.ids_at(g, w) == fi_pre.ids_at(g, w).insert(
                            (ids@[t as int]) as u32,
                        ));
                        assert(pair_views(pairs@[t as int]).take(j + 1).contains((g, w))) by {
                            assert(pair_views(pairs@[t as int]).take(j + 1)[j as int] == (gj, wj));
                        }
                        assert(fi.ids_at(g, w) =~= old(fi).ids_at(g, w).union(
                            filter_contrib(pviews, ids@, g, w, t as int),
                        ).union(
                            Set::new(
                                |x: u32|
                                    pair_views(pairs@[t as int]).take(j + 1).contains((g, w)) && x
                                        == (ids@[t as int]) as u32,
                            ),
                        ));
                    } else {
                        assert(fi.ids_at(g, w) == fi_pre.ids_at(g, w));
                        assert(Set::new(
                            |x: u32|
                                pair_views(pairs@[t as int]).take(j + 1).contains((g, w)) && x == (
                                ids@[t as int]) as u32,
                        ) =~= Set::new(
                            |x: u32|
                                pair_views(pairs@[t as int]).take(j as int).contains((g, w)) && x
                                    == (ids@[t as int]) as u32,
                        )) by {
                            if pair_views(pairs@[t as int]).take(j + 1).contains((g, w)) {
                                let u = choose|u: int|
                                    0 <= u < j + 1 && #[trigger] pair_views(
                                        pairs@[t as int],
                                    ).take(j + 1)[u] == (g, w);
                                assert(u != j as int);
                                assert(pair_views(pairs@[t as int]).take(j as int)[u] == (g, w));
                            }
                        }
                    }
                }
            }
            j = j + 1;
        }
        t = t + 1;
        proof {
            assert(pair_views(pairs@[t - 1]).take(m as int) =~= pair_views(pairs@[t - 1]));
            assert forall|g: Seq<char>, w: i64| #[trigger]
                fi.ids_at(g, w) == old(fi).ids_at(g, w).union(
                    filter_contrib(pviews, ids@, g, w, t as int),
                ) by {
                assert(fi.ids_at(g, w) == old(fi).ids_at(g, w).union(
                    filter_contrib(pviews, ids@, g, w, t - 1),
                ).union(
                    Set::new(
                        |x: u32|
                            pair_views(pairs@[t - 1]).take(m as int).contains((g, w)) && x == (
                            ids@[t - 1]) as u32,
                    ),
                ));
                assert(filter_contrib(pviews, ids@, g, w, t as int) =~= filter_contrib(
                    pviews,
                    ids@,
                    g,
                    w,
                    t - 1,
                ).union(
                    Set::new(
                        |x: u32|
                            pair_views(pairs@[t - 1]).contains((g, w)) && x == (ids@[t - 1]) as u32,
                    ),
                )) by {
                    assert forall|x: u32|
                        filter_contrib(pviews, ids@, g, w, t as int).contains(x) implies
                        filter_contrib(pviews, ids@, g, w, t - 1).union(
                        Set::new(
                            |x2: u32|
                                pair_views(pairs@[t - 1]).contains((g, w)) && x2 == (
                                ids@[t - 1]) as u32,
                        ),
                    ).contains(x) by {
                        let u = choose|u: int|
                            0 <= u < t && (#[trigger] pviews[u]).contains((g, w)) && x == (
                            ids@[u]) as u32;
                        if u < t - 1 {
                        } else {
                            assert(pviews[t - 1] == pair_views(pairs@[t - 1]));
                        }
                    }
                    assert forall|x: u32|
                        filter_contrib(pviews, ids@, g, w, t - 1).union(
                            Set::new(
                                |x2: u32|
                                    pair_views(pairs@[t - 1]).contains((g, w)) && x2 == (
                                    ids@[t - 1]) as u32,
                            ),
                        ).contains(x) implies filter_contrib(pviews, ids@, g, w, t as int).contains(
                        x,
                    ) by {
                        if filter_contrib(pviews, ids@, g, w, t - 1).contains(x) {
                            let u = choose|u: int|
                                0 <= u < t - 1 && (#[trigger] pviews[u]).contains((g, w)) && x == (
                                ids@[u]) as u32;
                            assert(0 <= u < t && pviews[u].contains((g, w)));
                        } else {
                            assert(pviews[t - 1].contains((g, w)));
                        }
                    }
                }
                assert(fi.ids_at(g, w) =~= old(fi).ids_at(g, w).union(
                    filter_contrib(pviews, ids@, g, w, t as int),
                ));
            }
        }
    }
}



/// A sequence is a prefix of anything appended to it.
proof fn lemma_seq_prefix_append(a: Seq<u8>, c: Seq<u8>)
    ensures
        a.is_prefix_of(a + c),
{
    assert((a + c).take(a.len() as int) =~= a);
}

/// A sequence is a prefix of itself.
proof fn lemma_seq_prefix_refl(a: Seq<u8>)
    ensures
        a.is_prefix_of(a),
{
    assert(a.take(a.len() as int) =~= a);
}

/// Well-formedness after an upsert that failed at the vector insert: the ids
/// are burned (the high-water marks advanced, the WAL record stands) but no
/// label, document or filter cell changed.
proof fn lemma_burned_wf<I: Index>(
    pre: VectorDatabase<I>,
    cur: VectorDatabase<I>,
    newmax: u64,
    wid: u64,
)
    requires
        pre.wf(),
        cur.params == pre.params,
        cur.vector_index.inv(),
        cur.vector_index.dim_of() == pre.vector_index.dim_of(),
        cur.vector_index.label_seq() == pre.vector_index.label_seq(),
        cur.filter_index == pre.filter_index,
        cur.rows_total == pre.rows_total,
        cur.scalar_storage.wf(),
        cur.scalar_storage.smap() == pre.scalar_storage.smap().insert(
            id_max_key(),
            be64(newmax),
        ).insert(wal_id_key(), be64(wid)),
        counter_of(pre.scalar_storage.smap(), id_max_key()) <= newmax,
        cur.persistence.wf(),
    ensures
        cur.wf(),
{
    crate::bytes::lemma_be64_roundtrip(newmax);
    crate::bytes::lemma_be64_roundtrip(wid);
    assert(counter_of(cur.scalar_storage.smap(), id_max_key()) == newmax);
    assert forall|k: Seq<u8>|
        #[trigger] cur.scalar_storage.smap().contains_key(k) && k.len() == 8 implies exists|i: int|
        0 <= i < cur.index_labels().len() && k == be64(#[trigger] cur.index_labels()[i]) by {
        assert(id_max_key().len() == 10 && wal_id_key().len() == 10);
        assert(k != id_max_key() && k != wal_id_key());
        assert(pre.scalar_storage.smap().contains_key(k));
        let i = choose|i: int|
            0 <= i < pre.index_labels().len() && k == be64(#[trigger] pre.index_labels()[i]);
        assert(cur.index_labels()[i] == pre.index_labels()[i]);
        assert(k == be64(cur.index_labels()[i]));
    }
}

/// Well-formedness after a completed upsert: the new labels continue the
/// strictly increasing id sequence under the advanced high-water mark, every
/// new label has its document, and the filter cells grew only by new ids.
proof fn lemma_upsert_wf<I: Index>(
    pre: VectorDatabase<I>,
    cur: VectorDatabase<I>,
    c0: u64,
    n: int,
    ids: Seq<u64>,
    wid: u64,
)
    requires
        pre.wf(),
        0 <= n,
        c0 == counter_of(pre.scalar_storage.smap(), id_max_key()),
        c0 + n <= u32::MAX,
        ids == Seq::new(n as nat, |t: int| (c0 + 1 + t) as u64),
        cur.params == pre.params,
        cur.vector_index.inv(),
        cur.vector_index.dim_of() == pre.vector_index.dim_of(),
        cur.vector_index.label_seq() == pre.vector_index.label_seq() + ids,
        cur.rows_total@ == pre.rows_total@ + n,
        cur.filter_index.wf(),
        forall|g: Seq<char>, w: i64, x: u32|
            #[trigger] cur.filter_index.ids_at(g, w).contains(x)
                ==> pre.filter_index.ids_at(g, w).contains(x) || exists|t: int|
                0 <= t < n && x == (#[trigger] ids[t]) as u32,
        cur.scalar_storage.wf(),
        forall|t: int|
            0 <= t < n ==> cur.scalar_storage.smap().contains_key(be64(#[trigger] ids[t])),
        cur.scalar_storage.smap().contains_key(id_max_key()),
        cur.scalar_storage.smap()[id_max_key()] == be64((c0 + n) as u64),
        cur.scalar_storage.smap().contains_key(wal_id_key()),
        cur.scalar_storage.smap()[wal_id_key()] == be64(wid),
        forall|k: Seq<u8>|
            k != id_max_key() && k != wal_id_key() && (forall|t: int|
                0 <= t < n ==> k != be64(#[trigger] ids[t])) ==> (
            #[trigger] cur.scalar_storage.smap().contains_key(k))
                == pre.scalar_storage.smap().contains_key(k) && (
            cur.scalar_storage.smap().contains_key(k) ==> cur.scalar_storage.smap()[k]
                == pre.scalar_storage.smap()[k]),
        cur.persistence.wf(),
    ensures
        cur.wf(),
{
    crate::bytes::lemma_be64_roundtrip((c0 + n) as u64);
    assert(counter_of(cur.scalar_storage.smap(), id_max_key()) == c0 + n);
    let pl = pre.index_labels();
    let cl = cur.index_labels();
    assert forall|i: int, j: int| 0 <= i < j < cl.len() implies #[trigger] cl[i]
        < #[trigger] cl[j] by {
        if j >= pl.len() {
            if i < pl.len() {
                assert(cl[i] == pl[i] && pl[i] <= c0);
            }
        }
    }
    assert forall|i: int|
        0 <= i < cl.len() implies 1 <= #[trigger] cl[i] <= counter_of(
        cur.scalar_storage.smap(),
        id_max_key(),
    ) by {
        if i < pl.len() {
            assert(cl[i] == pl[i]);
        }
    }
    assert forall|i: int| 0 <= i < cl.len() implies cur.doc_present(#[trigger] cl[i]) by {
        if i < pl.len() {
            assert(cl[i] == pl[i]);
            assert(pre.doc_present(pl[i]));
            assert(be64(pl[i]).len() == 8);
            assert(be64(pl[i]) != id_max_key() && be64(pl[i]) != wal_id_key());
            assert forall|t: int| 0 <= t < n implies be64(pl[i]) != be64(#[trigger] ids[t]) by {
                if be64(pl[i]) == be64(ids[t]) {
                    crate::bytes::lemma_be64_injective(pl[i], ids[t]);
                }
            }
        } else {
            assert(cl[i] == ids[i - pl.len()]);
        }
    }
    assert forall|k: Seq<u8>|
        #[trigger] cur.scalar_storage.smap().contains_key(k) && k.len() == 8 implies exists|i: int|
        0 <= i < cl.len() && k == be64(#[trigger] cl[i]) by {
        assert(k != id_max_key() && k != wal_id_key());
        if exists|t: int| 0 <= t < n && k == be64(#[trigger] ids[t]) {
            let t = choose|t: int| 0 <= t < n && k == be64(#[trigger] ids[t]);
            assert(cl[pl.len() + t] == ids[t]);
        } else {
            assert(pre.scalar_storage.smap().contains_key(k));
            let i = choose|i: int| 0 <= i < pl.len() && k == be64(#[trigger] pl[i]);
            assert(cl[i] == pl[i]);
        }
    }
    assert forall|g: Seq<char>, w: i64, x: u32|
        #[trigger] cur.filter_index.ids_at(g, w).contains(x) implies exists|i: int|
        0 <= i < cl.len() && (#[trigger] cl[i]) as u32 == x && cl[i] <= u32::MAX by {
        if pre.filter_index.ids_at(g, w).contains(x) {
            let i = choose|i: int|
                0 <= i < pl.len() && (#[trigger] pl[i]) as u32 == x && pl[i] <= u32::MAX;
            assert(cl[i] == pl[i]);
        } else {
            let t = choose|t: int| 0 <= t < n && x == (#[trigger] ids[t]) as u32;
            assert(cl[pl.len() + t] == ids[t]);
            assert(ids[t] <= u32::MAX);
        }
    }
}


/// Replays one WAL record into the database. An `Upsert` record is restored
/// at its recorded ids — nothing is allocated and nothing is appended to the
/// WAL; the id and log-id high-water marks advance to cover the record. A
/// `Delete` record is rejected: the operation is declared but unsupported.
#[verifier::rlimit(100)]
pub fn apply_wal_record<I: Index>(record: WALRecord, vec_db: &mut VectorDatabase<I>) -> (r:
    Result<(), crate::merror::DataError>)
    requires
        old(vec_db).wf(),
    ensures
        final(vec_db).wf(),
        final(vec_db).persistence.pending() == old(vec_db).persistence.pending(),
        final(vec_db).params == old(vec_db).params,
        // a successful replay restored exactly what the record's payload
        // bytes encode — allocating nothing and appending nothing
        r is Ok ==> applied_one(*old(vec_db), record, *final(vec_db)),
        // a rejected record leaves everything as it was
        r is Err ==> ({
            &&& final(vec_db).vector_index.label_seq() == old(vec_db).vector_index.label_seq()
            &&& final(vec_db).scalar_storage == old(vec_db).scalar_storage
            &&& final(vec_db).filter_index == old(vec_db).filter_index
            &&& final(vec_db).persistence == old(vec_db).persistence
            &&& final(vec_db).rows_total == old(vec_db).rows_total
        }),
{
    let ghost orig = *vec_db;
    match record.operation {
        WALOperation::Delete => Err(
            crate::merror::DataError("Delete operations cannot be replayed".to_owned()),
        ),
        WALOperation::Upsert => {
            let p = match crate::wal_payload::decode_payload(record.data.as_slice()) {
                Some(p) => p,
                None => {
                    return Err(
                        crate::merror::DataError("malformed WAL upsert payload".to_owned()),
                    );
                },
            };
            if p.dim > usize::MAX as u64 {
                return Err(crate::merror::DataError("payload dimension too large".to_owned()));
            }
            // the recorded ids must continue the id sequence: strictly
            // ascending, within the filter id space, above the current mark
            let key = crate::scalar::id_max_key_bytes();
            let c0: u64 = match vec_db.scalar_storage.get(key.as_slice()) {
                Ok(Some(bytes)) => {
                    if bytes.len() != 8 {
                        return Err(
                            crate::merror::DataError(
                                "stored id high-water mark is not 8 bytes".to_owned(),
                            ),
                        );
                    }
                    crate::bytes::u64_from_be_bytes(bytes.as_slice())
                },
                Ok(None) => 0,
                Err(_) => {
                    return Err(
                        crate::merror::DataError(
                            "unable to read id high-water mark".to_owned(),
                        ),
                    );
                },
            };
            let n = p.ids.len();
            let mut t: usize = 0;
            while t < n
                invariant
                    0 <= t <= n,
                    n == p.ids@.len(),
                    *vec_db == orig,
                    orig == *old(vec_db),
                    orig.wf(),
                    forall|s: int| 0 <= s < t ==> #[trigger] p.ids@[s] <= u32::MAX,
                    forall|s: int| 0 <= s < t ==> #[trigger] p.ids@[s] > c0,
                    forall|s1: int, s2: int|
                        0 <= s1 < s2 < t ==> #[trigger] p.ids@[s1] < #[trigger] p.ids@[s2],
                decreases n - t,
            {
                if p.ids[t] > u32::MAX as u64 || p.ids[t] <= c0 {
                    return Err(
                        crate::merror::DataError("replayed ids do not fit the id space".to_owned()),
                    );
                }
                if t > 0 {
                    if p.ids[t] <= p.ids[t - 1] {
                        return Err(
                            crate::merror::DataError("replayed ids are not ascending".to_owned()),
                        );
                    }
                }
                t = t + 1;
            }
            let newmax: u64 = if n == 0 {
                c0
            } else {
                let last = p.ids[n - 1];
                if last > c0 {
                    last
                } else {
                    c0
                }
            };
            let params = InsertParams {
                data: p.flat,
                rows: n,
                dim: p.dim as usize,
                labels: copy_u64s(&p.ids),
                hnsw_params: None,
            };
            match vec_db.vector_index.insert(&params) {
                Ok(()) => {},
                Err(_) => {
                    proof {
                        assert(vec_db.scalar_storage == orig.scalar_storage);
                        assert(vec_db.filter_index == orig.filter_index);
                        assert(vec_db.persistence == orig.persistence);
                        assert(vec_db.index_labels() == orig.index_labels());
                        assert(vec_db.wf());
                    }
                    return Err(
                        crate::merror::DataError(
                            "unable to restore vectors from the WAL".to_owned(),
                        ),
                    );
                },
            }
            let newmax_bytes = crate::bytes::u64_to_be_bytes(newmax);
            match vec_db.scalar_storage.put(key.as_slice(), newmax_bytes.as_slice()) {
                Ok(()) => {},
                Err(_) => {},
            }
            let wlid: u64 = if record.log_id > vec_db.persistence.get_log_id() {
                record.log_id
            } else {
                vec_db.persistence.get_log_id()
            };
            vec_db.persistence.set_log_id(wlid);
            let wal_key = crate::scalar::wal_id_key_bytes();
            let wlid_bytes = crate::bytes::u64_to_be_bytes(wlid);
            match vec_db.scalar_storage.put(wal_key.as_slice(), wlid_bytes.as_slice()) {
                Ok(()) => {},
                Err(_) => {},
            }
            store_docs(&mut vec_db.scalar_storage, &p.ids, &p.docs);
            apply_attr_updates(&mut vec_db.filter_index, &p.ids, &p.attrs);
            proof {
                vec_db.rows_total@ = vec_db.rows_total@ + n as nat;
            }
            proof {
                assert(id_max_key().len() == 10 && wal_id_key().len() == 10);
                assert forall|s: int|
                    0 <= s < p.ids@.len() implies id_max_key() != be64(#[trigger] p.ids@[s])
                    && wal_id_key() != be64(p.ids@[s]) by {
                    assert(be64(p.ids@[s]).len() == 8);
                }
                assert(vec_db.scalar_storage.smap().contains_key(id_max_key()));
                assert(vec_db.scalar_storage.smap()[id_max_key()] == be64(newmax));
                assert(vec_db.scalar_storage.smap().contains_key(wal_id_key()));
                assert(vec_db.scalar_storage.smap()[wal_id_key()] == be64(wlid));
                lemma_replay_wf(orig, *vec_db, c0, p.ids@, newmax);
                assert(record.data@ == p.bytes_spec() && p.consistent() && vec_db.index_labels()
                    == orig.index_labels() + p.ids@);
                assert forall|t: int|
                    0 <= t < p.ids@.len() implies vec_db.scalar_storage.smap().contains_key(
                    be64(#[trigger] p.ids@[t]),
                ) && vec_db.scalar_storage.smap()[be64(p.ids@[t])]
                    == crate::wal_payload::doc_views(p.docs@)[t] by {
                    assert(crate::wal_payload::doc_views(p.docs@)[t] == p.docs@[t]@);
                }
                assert(payload_applied(orig, p, record, *vec_db));
            }
            Ok(())
        },
    }
}


/// The observable state of the database: what replay is answerable for.
/// (The vector index value itself may differ internally between two states
/// that hold the same labels; everything the contracts speak of is here.)
pub open spec fn same_observables<I: Index>(a: VectorDatabase<I>, b: VectorDatabase<I>) -> bool {
    &&& b.params == a.params
    &&& b.index_labels() == a.index_labels()
    &&& b.scalar_storage.smap() == a.scalar_storage.smap()
    &&& b.filter_index == a.filter_index
    &&& b.persistence.pending() == a.persistence.pending()
}

/// What applying the payload `p` of one upsert record does to the observable
/// state: the recorded ids join the index in order and each recorded
/// document stands under its id; nothing joins the WAL.
pub open spec fn payload_applied<I: Index>(
    pre: VectorDatabase<I>,
    p: UpsertPayload,
    record: WALRecord,
    post: VectorDatabase<I>,
) -> bool {
    &&& record.data@ == p.bytes_spec()
    &&& p.consistent()
    &&& post.index_labels() == pre.index_labels() + p.ids@
    &&& forall|t: int|
        0 <= t < p.ids@.len() ==> post.scalar_storage.smap().contains_key(
            be64(#[trigger] p.ids@[t]),
        ) && post.scalar_storage.smap()[be64(p.ids@[t])] == crate::wal_payload::doc_views(
            p.docs@,
        )[t]
}

/// What replaying one record does: it is an `Upsert` whose payload the
/// record's bytes encode exactly, applied as `payload_applied` says, with
/// the parameters kept and nothing appended to the WAL.
pub open spec fn applied_one<I: Index>(
    pre: VectorDatabase<I>,
    record: WALRecord,
    post: VectorDatabase<I>,
) -> bool {
    &&& record.operation is Upsert
    &&& post.params == pre.params
    &&& post.persistence.pending() == pre.persistence.pending()
    &&& exists|p: UpsertPayload| payload_applied(pre, p, record, post)
}

/// The fold of `applied_one` over a record list, oldest first: the final
/// state is what applying every record in order to the initial state gives.
pub open spec fn replayed<I: Index>(
    pre: VectorDatabase<I>,
    records: Seq<WALRecord>,
    post: VectorDatabase<I>,
) -> bool
    decreases records.len(),
{
    if records.len() == 0 {
        same_observables(pre, post)
    } else {
        exists|mid: VectorDatabase<I>|
            replayed(pre, records.drop_last(), mid) && applied_one(mid, records.last(), post)
    }
}

/// `replayed` only reads the observable state of its endpoint, so it carries
/// over to any state with the same observables.
proof fn lemma_replayed_stable<I: Index>(
    pre: VectorDatabase<I>,
    records: Seq<WALRecord>,
    a: VectorDatabase<I>,
    b: VectorDatabase<I>,
)
    requires
        replayed(pre, records, a),
        same_observables(a, b),
    ensures
        replayed(pre, records, b),
    decreases records.len(),
{
    if records.len() == 0 {
        assert(same_observables(pre, b));
    } else {
        let mid = choose|mid: VectorDatabase<I>|
            replayed(pre, records.drop_last(), mid) && applied_one(mid, records.last(), a);
        let p = choose|p: UpsertPayload| payload_applied(mid, p, records.last(), a);
        assert(payload_applied(mid, p, records.last(), b));
        assert(applied_one(mid, records.last(), b));
    }
}

/// Well-formedness after a replayed upsert: the restored labels continue the
/// strictly increasing sequence under the advanced high-water mark, each has
/// its restored document, and the filter grew only by restored ids.
proof fn lemma_replay_wf<I: Index>(
    pre: VectorDatabase<I>,
    cur: VectorDatabase<I>,
    c0: u64,
    ids: Seq<u64>,
    newmax: u64,
)
    requires
        pre.wf(),
        c0 == counter_of(pre.scalar_storage.smap(), id_max_key()),
        forall|s: int| 0 <= s < ids.len() ==> #[trigger] ids[s] <= u32::MAX,
        forall|s: int| 0 <= s < ids.len() ==> #[trigger] ids[s] > c0,
        forall|s1: int, s2: int|
            0 <= s1 < s2 < ids.len() ==> #[trigger] ids[s1] < #[trigger] ids[s2],
        newmax >= c0,
        forall|s: int| 0 <= s < ids.len() ==> #[trigger] ids[s] <= newmax,
        cur.params == pre.params,
        cur.vector_index.inv(),
        cur.vector_index.dim_of() == pre.vector_index.dim_of(),
        cur.vector_index.label_seq() == pre.vector_index.label_seq() + ids,
        cur.rows_total@ == pre.rows_total@ + ids.len(),
        cur.filter_index.wf(),
        forall|g: Seq<char>, w: i64, x: u32|
            #[trigger] cur.filter_index.ids_at(g, w).contains(x)
                ==> pre.filter_index.ids_at(g, w).contains(x) || exists|t: int|
                0 <= t < ids.len() && x == (#[trigger] ids[t]) as u32,
        cur.scalar_storage.wf(),
        forall|t: int|
            0 <= t < ids.len() ==> cur.scalar_storage.smap().contains_key(
                be64(#[trigger] ids[t]),
            ),
        cur.scalar_storage.smap().contains_key(id_max_key()),
        cur.scalar_storage.smap()[id_max_key()] == be64(newmax),
        forall|k: Seq<u8>|
            k != id_max_key() && k != wal_id_key() && (forall|t: int|
                0 <= t < ids.len() ==> k != be64(#[trigger] ids[t])) ==> (
            #[trigger] cur.scalar_storage.smap().contains_key(k))
                == pre.scalar_storage.smap().contains_key(k) && (
            cur.scalar_storage.smap().contains_key(k) ==> cur.scalar_storage.smap()[k]
                == pre.scalar_storage.smap()[k]),
        cur.persistence.wf(),
    ensures
        cur.wf(),
{
    crate::bytes::lemma_be64_roundtrip(newmax);
    assert(counter_of(cur.scalar_storage.smap(), id_max_key()) == newmax);
    let pl = pre.index_labels();
    let cl = cur.index_labels();
    assert forall|i: int, j: int| 0 <= i < j < cl.len() implies #[trigger] cl[i]
        < #[trigger] cl[j] by {
        if j >= pl.len() {
            if i < pl.len() {
                assert(cl[i] == pl[i] && pl[i] <= c0);
                assert(cl[j] == ids[j - pl.len()]);
            }
        }
    }
    assert forall|i: int|
        0 <= i < cl.len() implies 1 <= #[trigger] cl[i] <= counter_of(
        cur.scalar_storage.smap(),
        id_max_key(),
    ) by {
        if i < pl.len() {
            assert(cl[i] == pl[i]);
        } else {
            assert(cl[i] == ids[i - pl.len()]);
        }
    }
    assert forall|i: int| 0 <= i < cl.len() implies cur.doc_present(#[trigger] cl[i]) by {
        if i < pl.len() {
            assert(cl[i] == pl[i]);
            assert(pre.doc_present(pl[i]));
            assert(be64(pl[i]).len() == 8);
            assert(be64(pl[i]) != id_max_key() && be64(pl[i]) != wal_id_key());
            assert forall|t: int| 0 <= t < ids.len() implies be64(pl[i]) != be64(
                #[trigger] ids[t],
            ) by {
                if be64(pl[i]) == be64(ids[t]) {
                    crate::bytes::lemma_be64_injective(pl[i], ids[t]);
                }
            }
        } else {
            assert(cl[i] == ids[i - pl.len()]);
        }
    }
    assert forall|k: Seq<u8>|
        #[trigger] cur.scalar_storage.smap().contains_key(k) && k.len() == 8 implies exists|i: int|
        0 <= i < cl.len() && k == be64(#[trigger] cl[i]) by {
        assert(k != id_max_key() && k != wal_id_key());
        if exists|t: int| 0 <= t < ids.len() && k == be64(#[trigger] ids[t]) {
            let t = choose|t: int| 0 <= t < ids.len() && k == be64(#[trigger] ids[t]);
            assert(cl[pl.len() + t] == ids[t]);
        } else {
            assert(pre.scalar_storage.smap().contains_key(k));
            let i = choose|i: int| 0 <= i < pl.len() && k == be64(#[trigger] pl[i]);
            assert(cl[i] == pl[i]);
        }
    }
    assert forall|g: Seq<char>, w: i64, x: u32|
        #[trigger] cur.filter_index.ids_at(g, w).contains(x) implies exists|i: int|
        0 <= i < cl.len() && (#[trigger] cl[i]) as u32 == x && cl[i] <= u32::MAX by {
        if pre.filter_index.ids_at(g, w).contains(x) {
            let i = choose|i: int|
                0 <= i < pl.len() && (#[trigger] pl[i]) as u32 == x && pl[i] <= u32::MAX;
            assert(cl[i] == pl[i]);
        } else {
            let t = choose|t: int| 0 <= t < ids.len() && x == (#[trigger] ids[t]) as u32;
            assert(cl[pl.len() + t] == ids[t]);
        }
    }
}

} // verus!
