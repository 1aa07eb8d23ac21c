//! The vector-index surface: the kinds and metrics an index can have, search
//! and insert parameters with their option builders, and the `Index` contract
//! both index variants serve.
//!
//! Vector components are raw `f32` bit patterns (`u32`); a returned distance
//! is an order-preserving `u32` key, so that smaller keys mean closer
//! vectors under the index's metric.

use vstd::prelude::*;

use crate::filter::IdFilter;
use crate::merror::IndexError;

verus! {

/// The two index variants.
#[derive(Debug, Clone, Copy, PartialEq, Eq, Structural)]
pub enum IndexType {
    Flat,
    Hnsw,
}

/// The distance metric an index is built with: inner product (negated, so
/// smaller is closer) or squared Euclidean.
#[derive(Debug, Clone, Copy, PartialEq, Eq, Structural)]
pub enum MetricType {
    IP,
    L2,
}

/// What a search returns: one distance key per label, ascending.
#[derive(Debug, Clone, PartialEq)]
pub struct SearchResult {
    pub distances: Vec<u32>,
    pub labels: Vec<u64>,
}

/// The per-query knobs of an HNSW search.
#[derive(Debug, Clone, Copy, PartialEq, Eq, Structural)]
pub struct HnswSearchOption {
    pub ef_search: u32,
}

/// The per-insert knobs of an HNSW insert.
#[derive(Debug, Clone, Copy, PartialEq, Eq, Structural)]
pub struct HnswParams {
    pub parallel: bool,
}

/// The construction parameters of an HNSW index; an absent field takes the
/// default.
#[derive(Debug, Clone, Copy, PartialEq, Eq, Structural)]
pub struct HnswIndexOption {
    pub ef_construction: Option<u32>,
    pub max_elements: Option<u32>,
    pub max_nb_connection: Option<u32>,
    pub max_layer: Option<u32>,
}

pub const DEFAULT_EF_CONSTRUCTION: u32 = 200;

pub const DEFAULT_MAX_ELEMENTS: u32 = 500;

pub const DEFAULT_MAX_NB_CONNECTION: u32 = 16;

pub const DEFAULT_MAX_LAYER: u32 = 3;

/// The resolved construction parameters of an HNSW index.
#[derive(Debug, Clone, Copy, PartialEq, Eq, Structural)]
pub struct HnswIndexSetting {
    pub ef_construction: u32,
    pub max_elements: u32,
    pub max_nb_connection: u32,
    pub max_layer: u32,
}

impl HnswIndexSetting {
    /// Fills absent fields with the defaults.
    pub fn from_option(option: &HnswIndexOption) -> (r: HnswIndexSetting)
        ensures
            r.ef_construction == option.ef_construction.unwrap_or(DEFAULT_EF_CONSTRUCTION),
            r.max_elements == option.max_elements.unwrap_or(DEFAULT_MAX_ELEMENTS),
            r.max_nb_connection == option.max_nb_connection.unwrap_or(DEFAULT_MAX_NB_CONNECTION),
            r.max_layer == option.max_layer.unwrap_or(DEFAULT_MAX_LAYER),
    {
        HnswIndexSetting {
            ef_construction: match option.ef_construction {
                Some(v) => v,
                None => DEFAULT_EF_CONSTRUCTION,
            },
            max_elements: match option.max_elements {
                Some(v) => v,
                None => DEFAULT_MAX_ELEMENTS,
            },
            max_nb_connection: match option.max_nb_connection {
                Some(v) => v,
                None => DEFAULT_MAX_NB_CONNECTION,
            },
            max_layer: match option.max_layer {
                Some(v) => v,
                None => DEFAULT_MAX_LAYER,
            },
        }
    }
}

/// One search request: the query vector (as bit patterns), an optional id
/// restriction, and the HNSW knobs when the index is an HNSW one.
pub struct SearchQuery {
    pub vector: Vec<u32>,
    pub id_filter: Option<IdFilter>,
    pub hnsw: Option<HnswSearchOption>,
}

/// Something that can be folded into a search query.
pub trait SearchOption {
    /// How the query after `set_query` relates to the query before.
    spec fn applies(&self, pre: SearchQuery, post: SearchQuery) -> bool;

    fn set_query(&self, query: &mut SearchQuery)
        ensures
            self.applies(*old(query), *final(query)),
    ;
}

impl SearchOption for HnswSearchOption {
    open spec fn applies(&self, pre: SearchQuery, post: SearchQuery) -> bool {
        post == SearchQuery { hnsw: Some(*self), ..pre }
    }

    fn set_query(&self, query: &mut SearchQuery) {
        query.hnsw = Some(*self);
    }
}

impl SearchOption for IdFilter {
    open spec fn applies(&self, pre: SearchQuery, post: SearchQuery) -> bool {
        &&& post.vector == pre.vector
        &&& post.hnsw == pre.hnsw
        &&& post.id_filter is Some
        &&& post.id_filter->0.ids() == self.ids()
    }

    fn set_query(&self, query: &mut SearchQuery) {
        query.id_filter = Some(self.clone_filter());
    }
}

impl SearchQuery {
    pub fn new(vector: Vec<u32>) -> (r: Self)
        ensures
            r.vector == vector,
            r.id_filter is None,
            r.hnsw is None,
    {
        SearchQuery { vector, hnsw: None, id_filter: None }
    }

    /// Folds one option into the query.
    pub fn with<O: SearchOption>(self, option: &O) -> (r: Self)
        ensures
            option.applies(self, r),
    {
        let mut q = self;
        option.set_query(&mut q);
        q
    }

    /// The HNSW knobs; required when searching an HNSW index, so their
    /// absence is an error.
    pub fn get_hnsw(&self) -> (r: Result<&HnswSearchOption, IndexError>)
        ensures
            match r {
                Ok(o) => self.hnsw == Some(*o),
                Err(e) => self.hnsw is None && e is QueryError,
            },
    {
        match &self.hnsw {
            Some(o) => Ok(o),
            None => Err(IndexError::QueryError("HNSW search option is not set".to_owned())),
        }
    }
}

/// One insert request: `rows` vectors of `dim` components in one flat
/// buffer, one label per row, and the HNSW insert knobs when wanted.
pub struct InsertParams {
    pub data: Vec<u32>,
    pub rows: usize,
    pub dim: usize,
    pub labels: Vec<u64>,
    pub hnsw_params: Option<HnswParams>,
}

/// Something that can be folded into insert parameters.
pub trait InsertOption: Sized {
    /// How the parameters after `set_params` relate to those before.
    spec fn applies(&self, pre: InsertParams, post: InsertParams) -> bool;

    fn set_params(self, params: &mut InsertParams)
        ensures
            self.applies(*old(params), *final(params)),
    ;
}

impl InsertOption for HnswParams {
    open spec fn applies(&self, pre: InsertParams, post: InsertParams) -> bool {
        post == InsertParams { hnsw_params: Some(*self), ..pre }
    }

    fn set_params(self, params: &mut InsertParams) {
        params.hnsw_params = Some(self);
    }
}

impl<T: InsertOption> InsertOption for Option<T> {
    open spec fn applies(&self, pre: InsertParams, post: InsertParams) -> bool {
        match *self {
            Some(p) => p.applies(pre, post),
            None => post == pre,
        }
    }

    fn set_params(self, params: &mut InsertParams) {
        if let Some(p) = self {
            p.set_params(params);
        }
    }
}

impl InsertParams {
    pub fn new(data: Vec<u32>, rows: usize, dim: usize, labels: Vec<u64>) -> (r: Self)
        ensures
            r.data == data,
            r.rows == rows,
            r.dim == dim,
            r.labels == labels,
            r.hnsw_params is None,
    {
        InsertParams { data, rows, dim, labels, hnsw_params: None }
    }

    /// Folds one option into the parameters.
    pub fn with<O: InsertOption>(self, option: O) -> (r: Self)
        ensures
            option.applies(self, r),
    {
        let mut p = self;
        option.set_params(&mut p);
        p
    }
}

/// Valid insert parameters for an index of dimension `dim`: one label per
/// row and a flat buffer of exactly `rows * dim` components.
pub open spec fn insert_params_valid(p: InsertParams, dim: nat) -> bool {
    &&& p.labels@.len() == p.rows
    &&& p.dim == dim
    &&& p.data@.len() == p.rows * p.dim
}

/// Whether the query's restriction admits a label; without a restriction
/// every label is admitted.
pub open spec fn admitted(query: SearchQuery, label: u64) -> bool {
    match query.id_filter {
        Some(f) => f.ids().contains(label as u32),
        None => true,
    }
}

/// How many of the held labels the query's restriction admits.
pub open spec fn admitted_count(labels: Seq<u64>, query: SearchQuery) -> nat
    decreases labels.len(),
{
    if labels.len() == 0 {
        0
    } else {
        admitted_count(labels.drop_last(), query) + (if admitted(query, labels.last()) {
            1nat
        } else {
            0nat
        })
    }
}

/// Without a restriction, every held label is admitted.
pub proof fn lemma_admitted_count_unrestricted(labels: Seq<u64>, query: SearchQuery)
    requires
        query.id_filter is None,
    ensures
        admitted_count(labels, query) == labels.len(),
    decreases labels.len(),
{
    if labels.len() > 0 {
        lemma_admitted_count_unrestricted(labels.drop_last(), query);
    }
}

pub open spec fn min_k(a: int, b: int) -> int {
    if a < b {
        a
    } else {
        b
    }
}

/// What every index variant guarantees of a successful search: distances and
/// labels pair up and come back ascending by distance, at most `k` results
/// come back, no more than the index holds, and every returned label is held
/// by the index and admitted by the restriction.
pub open spec fn search_result_sound(
    res: SearchResult,
    labels: Seq<u64>,
    query: SearchQuery,
    k: usize,
) -> bool {
    &&& res.distances@.len() == res.labels@.len()
    &&& forall|i: int, j: int|
        0 <= i < j < res.distances@.len() ==> #[trigger] res.distances@[i]
            <= #[trigger] res.distances@[j]
    &&& res.labels@.len() <= k
    &&& res.labels@.len() <= labels.len()
    &&& forall|i: int| 0 <= i < res.labels@.len() ==> labels.contains(#[trigger] res.labels@[i])
    &&& forall|i: int| 0 <= i < res.labels@.len() ==> admitted(query, #[trigger] res.labels@[i])
}

/// The contract both index variants serve: an insert appends exactly the
/// given labels (or changes nothing and fails), and a search answers soundly
/// with respect to the held labels and the restriction.
pub trait Index: Sized {
    /// The variant's internal well-formedness. The defaults below serve an
    /// implementation that lives outside the verifier (an approximate graph
    /// index over floating-point data): it inherits vacuous instantiations
    /// and is trusted to behave as the method contracts say. A verified
    /// implementation overrides them with its real model.
    open spec fn inv(&self) -> bool {
        true
    }

    /// The dimension the index was created with; it never changes.
    open spec fn dim_of(&self) -> nat {
        0
    }

    /// The labels of the vectors held, in insertion order.
    open spec fn label_seq(&self) -> Seq<u64> {
        Seq::empty()
    }

    /// When this implementation promises to accept an insert of the given
    /// shape. The verified flat index overrides it with its exact acceptance
    /// condition; the default promises nothing.
    open spec fn accepts_of(&self, rows: int, dim: int, labels: Seq<u64>, data: Seq<u32>) -> bool {
        false
    }

    /// When this implementation promises complete answers: a well-typed
    /// search succeeds and returns `min(k, admitted)` results. The exhaustive
    /// flat index overrides it to promise that always; the default promises
    /// nothing.
    open spec fn search_complete(&self) -> bool {
        false
    }

    fn insert(&mut self, params: &InsertParams) -> (r: Result<(), IndexError>)
        requires
            old(self).inv(),
        ensures
            final(self).inv(),
            final(self).dim_of() == old(self).dim_of(),
            match r {
                Ok(()) => insert_params_valid(*params, old(self).dim_of())
                    && final(self).label_seq() == old(self).label_seq() + params.labels@,
                Err(_) => final(self).label_seq() == old(self).label_seq(),
            },
            old(self).accepts_of(
                params.rows as int,
                params.dim as int,
                params.labels@,
                params.data@,
            ) ==> r is Ok,
    ;

    fn search(&mut self, query: &SearchQuery, k: usize) -> (r: Result<SearchResult, IndexError>)
        requires
            old(self).inv(),
        ensures
            final(self).inv(),
            final(self).dim_of() == old(self).dim_of(),
            final(self).label_seq() == old(self).label_seq(),
            match r {
                Ok(res) => search_result_sound(res, old(self).label_seq(), *query, k) && (old(
                    self,
                ).search_complete() ==> res.labels@.len() == min_k(
                    k as int,
                    admitted_count(old(self).label_seq(), *query) as int,
                )),
                Err(_) => true,
            },
            old(self).search_complete() && query.vector@.len() == old(self).dim_of() ==> r is Ok,
    ;
}

} // verus!
