//! The exact (flat-scan) vector index.
//!
//! The index holds every inserted row and label. A search asks the caller's
//! distance oracle for one order-preserving key per row, keeps the rows the
//! id restriction admits, and returns the `k` closest under `(key, label)`
//! order — so ties break toward the lower label, and the selection is exact
//! with respect to the oracle's keys.

use vstd::prelude::*;

use crate::index::{
    admitted, admitted_count, insert_params_valid, min_k, search_result_sound, Index,
    InsertParams, MetricType, SearchQuery, SearchResult,
};
use crate::merror::IndexError;

verus! {

broadcast use vstd::seq_lib::group_to_multiset_ensures;

/// Pair order on `(distance key, label)`: by key, then by label.
pub open spec fn pair_le(a: (u32, u64), b: (u32, u64)) -> bool {
    a.0 < b.0 || (a.0 == b.0 && a.1 <= b.1)
}

/// Ascending under `pair_le`.
pub open spec fn pairs_sorted(s: Seq<(u32, u64)>) -> bool {
    forall|i: int, j: int| 0 <= i < j < s.len() ==> pair_le(#[trigger] s[i], #[trigger] s[j])
}

/// The `(key, label)` pairs the restriction admits, in row order.
pub open spec fn eligible_pairs(keys: Seq<u32>, labels: Seq<u64>, query: SearchQuery) -> Seq<
    (u32, u64),
>
    decreases labels.len(),
{
    if labels.len() == 0 {
        Seq::empty()
    } else {
        eligible_pairs(keys.drop_last(), labels.drop_last(), query) + (
        if admitted(query, labels.last()) {
            seq![(keys.last(), labels.last())]
        } else {
            Seq::empty()
        })
    }
}

/// The result rows as `(distance, label)` pairs.
pub open spec fn result_pairs(res: SearchResult) -> Seq<(u32, u64)> {
    Seq::new(res.labels@.len(), |i: int| (res.distances@[i], res.labels@[i]))
}

/// The result is exactly the first `min(k, |elig|)` entries of a sorted
/// arrangement of the eligible pairs.
pub open spec fn exact_top_k(res: SearchResult, elig: Seq<(u32, u64)>, k: int) -> bool {
    exists|perm: Seq<(u32, u64)>|
        {
            &&& perm.to_multiset() == elig.to_multiset()
            &&& pairs_sorted(perm)
            &&& res.distances@.len() == res.labels@.len()
            &&& result_pairs(res) == perm.take(min_k(k, elig.len() as int))
        }
}

/// The keys the oracle can answer for the query against each row.
pub open spec fn keys_from<F: Fn(&Vec<u32>, &Vec<u32>) -> u32>(
    f: F,
    q: Vec<u32>,
    rows: Seq<Vec<u32>>,
    keys: Seq<u32>,
) -> bool {
    &&& keys.len() == rows.len()
    &&& forall|i: int|
        0 <= i < rows.len() ==> call_ensures(f, (&q, &rows[i]), #[trigger] keys[i])
}

/// The exhaustive index: every row and its label, with the caller's distance
/// oracle.
pub struct FlatIndex<F> where F: Fn(&Vec<u32>, &Vec<u32>) -> u32 {
    dim: u32,
    metric: MetricType,
    rows: Vec<Vec<u32>>,
    labels: Vec<u64>,
    distf: F,
}

impl<F> FlatIndex<F> where F: Fn(&Vec<u32>, &Vec<u32>) -> u32 {
    /// Well-formedness: one label per row, every row of the index's
    /// dimension, and a distance oracle that answers every pair of vectors.
    pub closed spec fn inv_flat(&self) -> bool {
        &&& self.labels@.len() == self.rows@.len()
        &&& forall|i: int| 0 <= i < self.rows@.len() ==> (#[trigger] self.rows@[i])@.len() == self.dim
        &&& forall|a: &Vec<u32>, b: &Vec<u32>| call_requires(self.distf, (a, b))
    }

    pub closed spec fn dim_spec(&self) -> nat {
        self.dim as nat
    }

    pub closed spec fn labels_spec(&self) -> Seq<u64> {
        self.labels@
    }

    /// The stored rows.
    pub closed spec fn row_vecs(&self) -> Seq<Vec<u32>> {
        self.rows@
    }

    /// The distance oracle.
    pub closed spec fn dist_fn(&self) -> F {
        self.distf
    }

    pub closed spec fn metric_spec(&self) -> MetricType {
        self.metric
    }

    /// Builds an empty index of the given dimension; the oracle must answer
    /// every pair of vectors and is expected to realize the metric.
    pub fn new(dim: u32, metric_type: MetricType, distf: F) -> (r: Result<Self, IndexError>)
        requires
            forall|a: &Vec<u32>, b: &Vec<u32>| call_requires(distf, (a, b)),
        ensures
            match r {
                Ok(idx) => {
                    &&& idx.inv_flat()
                    &&& idx.dim_spec() == dim
                    &&& idx.labels_spec() =~= Seq::<u64>::empty()
                    &&& idx.metric_spec() == metric_type
                    &&& idx.dist_fn() == distf
                },
                Err(_) => false,
            },
    {
        Ok(
            FlatIndex {
                dim,
                metric: metric_type,
                rows: Vec::new(),
                labels: Vec::new(),
                distf,
            },
        )
    }

    /// Appends the given rows under the given labels; rejected (leaving the
    /// index unchanged) exactly when the parameters do not describe
    /// `rows x dim` vectors with one label each.
    pub fn insert_rows(&mut self, params: &InsertParams) -> (r: Result<(), IndexError>)
        requires
            old(self).inv_flat(),
        ensures
            final(self).inv_flat(),
            final(self).dim_spec() == old(self).dim_spec(),
            final(self).metric_spec() == old(self).metric_spec(),
            final(self).dist_fn() == old(self).dist_fn(),
            r is Ok <==> insert_params_valid(*params, old(self).dim_spec()),
            match r {
                Ok(()) => {
                    &&& final(self).labels_spec() == old(self).labels_spec() + params.labels@
                    &&& final(self).row_vecs().len() == old(self).row_vecs().len() + params.rows
                    &&& forall|t: int|
                        0 <= t < old(self).row_vecs().len() ==> #[trigger] final(self).row_vecs()[t]
                            == old(self).row_vecs()[t]
                    &&& forall|t: int|
                        0 <= t < params.rows ==> (#[trigger] final(self).row_vecs()[old(
                            self,
                        ).row_vecs().len() + t])@ == params.data@.subrange(
                            t * params.dim,
                            (t + 1) * params.dim,
                        )
                },
                Err(_) => *final(self) == *old(self),
            },
    {
        if params.labels.len() != params.rows {
            return Err(
                IndexError::InsertionError("data rows and labels do not match".to_owned()),
            );
        }
        if params.dim != self.dim as usize {
            return Err(
                IndexError::InsertionError(
                    "data dimension does not match index dimension".to_owned(),
                ),
            );
        }
        let dl = params.data.len();
        let expected: usize = match params.rows.checked_mul(params.dim) {
            Some(v) => v,
            None => {
                proof {
                    assert(dl < params.rows * params.dim);
                }
                return Err(
                    IndexError::InsertionError("flat data does not match shape".to_owned()),
                );
            },
        };
        if dl != expected {
            return Err(
                IndexError::InsertionError("flat data does not match shape".to_owned()),
            );
        }
        let ghost orig = *self;
        let dim = params.dim;
        let n = params.rows;
        let mut t: usize = 0;
        while t < n
            invariant
                0 <= t <= n,
                n * dim == params.data@.len(),
                params.data@.len() <= usize::MAX,
                dim == old(self).dim_spec(),
                n == params.labels@.len(),
                orig == *old(self),
                self.dim == orig.dim,
                self.metric == orig.metric,
                self.distf == orig.distf,
                self.inv_flat(),
                self.labels@ == orig.labels@ + params.labels@.take(t as int),
                self.rows@.len() == orig.rows@.len() + t,
                forall|u: int|
                    0 <= u < orig.rows@.len() ==> #[trigger] self.rows@[u] == orig.rows@[u],
                forall|u: int|
                    0 <= u < t ==> (#[trigger] self.rows@[orig.rows@.len() + u])@
                        == params.data@.subrange(u * dim, (u + 1) * dim),
            decreases n - t,
        {
            proof {
                vstd::arithmetic::mul::lemma_mul_inequality(t as int, n as int, dim as int);
                vstd::arithmetic::mul::lemma_mul_inequality(t + 1, n as int, dim as int);
                vstd::arithmetic::mul::lemma_mul_is_distributive_add_other_way(
                    dim as int,
                    t as int,
                    1,
                );
                assert((t + 1) * dim == t * dim + dim) by (nonlinear_arith);
            }
            let offset: usize = t * dim;
            let mut row: Vec<u32> = Vec::new();
            let mut c: usize = 0;
            while c < dim
                invariant
                    0 <= c <= dim,
                    offset == t * dim,
                    offset + dim <= params.data@.len(),
                    params.data@.len() <= usize::MAX,
                    row@ =~= params.data@.subrange(offset as int, offset + c),
                decreases dim - c,
            {
                row.push(params.data[offset + c]);
                proof {
                    i_step_subrange(params.data@, offset as int, c as int);
                }
                c = c + 1;
            }
            self.rows.push(row);
            self.labels.push(params.labels[t]);
            t = t + 1;
            proof {
                assert(params.labels@.take(t as int) =~= params.labels@.take(t - 1).push(
                    params.labels@[t - 1],
                ));
                assert(self.labels@ =~= orig.labels@ + params.labels@.take(t as int));
            }
        }
        proof {
            assert(params.labels@.take(n as int) =~= params.labels@);
        }
        Ok(())
    }

    /// The exact search: the oracle keys every row, the restriction selects
    /// the eligible ones, and exactly the `min(k, eligible)` smallest come
    /// back in ascending `(key, label)` order. Fails only on a query of the
    /// wrong dimension; an empty index answers an empty result.
    pub fn search_exact(&mut self, query: &SearchQuery, k: usize) -> (r: Result<
        SearchResult,
        IndexError,
    >)
        requires
            old(self).inv_flat(),
        ensures
            *final(self) == *old(self),
            r is Ok <==> query.vector@.len() == old(self).dim_spec(),
            match r {
                Ok(res) => {
                    &&& search_result_sound(res, old(self).labels_spec(), *query, k)
                    &&& exists|keys: Seq<u32>|
                        {
                            &&& keys_from(
                                old(self).dist_fn(),
                                query.vector,
                                old(self).row_vecs(),
                                keys,
                            )
                            &&& exact_top_k(
                                res,
                                eligible_pairs(keys, old(self).labels_spec(), *query),
                                k as int,
                            )
                            &&& res.labels@.len() == min_k(
                                k as int,
                                eligible_pairs(keys, old(self).labels_spec(), *query).len() as int,
                            )
                        }
                    &&& res.labels@.len() == min_k(
                        k as int,
                        admitted_count(old(self).labels_spec(), *query) as int,
                    )
                    &&& query.id_filter is None ==> res.labels@.len() == min_k(
                        k as int,
                        old(self).labels_spec().len() as int,
                    )
                },
                Err(e) => e is QueryError,
            },
    {
        if query.vector.len() != self.dim as usize {
            return Err(
                IndexError::QueryError(
                    "query vector length does not match index dimension".to_owned(),
                ),
            );
        }
        let n = self.rows.len();
        let mut keys: Vec<u32> = Vec::new();
        let mut i: usize = 0;
        while i < n
            invariant
                0 <= i <= n,
                n == self.rows@.len(),
                *self == *old(self),
                self.inv_flat(),
                keys@.len() == i,
                forall|t: int|
                    0 <= t < i ==> call_ensures(
                        self.dist_fn(),
                        (&query.vector, &self.rows@[t]),
                        #[trigger] keys@[t],
                    ),
            decreases n - i,
        {
            let key = (self.distf)(&query.vector, &self.rows[i]);
            keys.push(key);
            i = i + 1;
        }
        let mut cands: Vec<(u32, u64)> = Vec::new();
        let mut i: usize = 0;
        while i < n
            invariant
                0 <= i <= n,
                n == self.rows@.len(),
                *self == *old(self),
                self.inv_flat(),
                keys@.len() == n,
                cands@ == eligible_pairs(keys@.take(i as int), self.labels@.take(i as int), *query),
            decreases n - i,
        {
            let keep = match &query.id_filter {
                Some(f) => f.filter(&self.labels[i]),
                None => true,
            };
            if keep {
                cands.push((keys[i], self.labels[i]));
            }
            i = i + 1;
            proof {
                assert(keys@.take(i as int).drop_last() =~= keys@.take(i - 1));
                assert(self.labels@.take(i as int).drop_last() =~= self.labels@.take(i - 1));
                assert(cands@ =~= eligible_pairs(
                    keys@.take(i as int),
                    self.labels@.take(i as int),
                    *query,
                ));
            }
        }
        proof {
            assert(keys@.take(n as int) =~= keys@);
            assert(self.labels@.take(n as int) =~= self.labels@);
        }
        let ghost elig = cands@;
        let sorted = sort_pairs(cands);
        let m: usize = if k < sorted.len() {
            k
        } else {
            sorted.len()
        };
        let mut distances: Vec<u32> = Vec::new();
        let mut labels: Vec<u64> = Vec::new();
        let mut i: usize = 0;
        while i < m
            invariant
                0 <= i <= m <= sorted@.len(),
                distances@.len() == i,
                labels@.len() == i,
                forall|t: int|
                    0 <= t < i ==> distances@[t] == (#[trigger] sorted@[t]).0 && labels@[t]
                        == sorted@[t].1,
            decreases m - i,
        {
            distances.push(sorted[i].0);
            labels.push(sorted[i].1);
            i = i + 1;
        }
        let res = SearchResult { distances, labels };
        proof {
            lemma_eligible_props(keys@, self.labels@, *query);
            assert(keys_from(old(self).dist_fn(), query.vector, old(self).row_vecs(), keys@));
            assert(result_pairs(res) =~= sorted@.take(m as int));
            assert(m as int == min_k(k as int, elig.len() as int));
            assert forall|a: int, b: int|
                0 <= a < b < res.distances@.len() implies #[trigger] res.distances@[a]
                <= #[trigger] res.distances@[b] by {
                assert(pair_le(sorted@[a], sorted@[b]));
                assert(result_pairs(res)[a] == sorted@[a] && result_pairs(res)[b] == sorted@[b]);
            }
            assert(sorted@.to_multiset() == elig.to_multiset() && pairs_sorted(sorted@)
                && res.distances@.len() == res.labels@.len() && result_pairs(res) == sorted@.take(
                min_k(k as int, elig.len() as int),
            ));
            assert(exact_top_k(res, elig, k as int));
            assert forall|t: int| 0 <= t < res.labels@.len() implies self.labels@.contains(
                #[trigger] res.labels@[t],
            ) && admitted(*query, res.labels@[t]) by {
                assert(sorted@[t] == result_pairs(res)[t]);
                assert(sorted@.contains(sorted@[t]));
                assert(sorted@.to_multiset().contains(sorted@[t]));
                assert(elig.to_multiset().contains(sorted@[t]));
                assert(elig.contains(sorted@[t]));
                assert(res.labels@[t] == sorted@[t].1);
            }
        }
        Ok(res)
    }
}

/// Pushing one element onto a subrange prefix extends the subrange by one.
proof fn i_step_subrange(data: Seq<u32>, offset: int, c: int)
    requires
        0 <= offset,
        0 <= c,
        offset + c + 1 <= data.len(),
    ensures
        data.subrange(offset, offset + c).push(data[offset + c]) =~= data.subrange(
            offset,
            offset + c + 1,
        ),
{
}

fn pair_le_exec(a: (u32, u64), b: (u32, u64)) -> (r: bool)
    ensures
        r == pair_le(a, b),
{
    a.0 < b.0 || (a.0 == b.0 && a.1 <= b.1)
}

/// Sorts the pairs ascending under `(key, label)` order, keeping exactly the
/// same multiset of pairs.
fn sort_pairs(cands: Vec<(u32, u64)>) -> (r: Vec<(u32, u64)>)
    ensures
        r@.to_multiset() == cands@.to_multiset(),
        pairs_sorted(r@),
        r@.len() == cands@.len(),
{
    let mut rest = cands;
    let mut sorted: Vec<(u32, u64)> = Vec::new();
    while rest.len() > 0
        invariant
            sorted@.to_multiset().add(rest@.to_multiset()) == cands@.to_multiset(),
            sorted@.len() + rest@.len() == cands@.len(),
            pairs_sorted(sorted@),
            forall|a: int, b: int|
                0 <= a < sorted@.len() && 0 <= b < rest@.len() ==> pair_le(
                    #[trigger] sorted@[a],
                    #[trigger] rest@[b],
                ),
        decreases rest@.len(),
    {
        let mut mi: usize = 0;
        let mut j: usize = 1;
        while j < rest.len()
            invariant
                0 <= mi < rest@.len(),
                1 <= j <= rest@.len(),
                forall|t: int| 0 <= t < j ==> pair_le(rest@[mi as int], #[trigger] rest@[t]),
            decreases rest@.len() - j,
        {
            if pair_le_exec(rest[j], rest[mi]) {
                mi = j;
            }
            j = j + 1;
        }
        let ghost rest_pre = rest@;
        let ghost sorted_pre = sorted@;
        let p = rest.remove(mi);
        sorted.push(p);
        proof {
            assert(rest@ =~= rest_pre.remove(mi as int));
            assert(rest_pre.remove(mi as int).to_multiset() =~= rest_pre.to_multiset().remove(p));
            assert(sorted@.to_multiset() =~= sorted_pre.to_multiset().insert(p));
            assert(rest_pre.to_multiset().contains(p));
            assert(sorted@.to_multiset().add(rest@.to_multiset()) =~= sorted_pre.to_multiset().add(
                rest_pre.to_multiset(),
            ));
            assert forall|a: int, b: int|
                0 <= a < sorted@.len() && 0 <= b < rest@.len() implies pair_le(
                #[trigger] sorted@[a],
                #[trigger] rest@[b],
            ) by {
                assert(rest@[b] == if b < mi as int {
                    rest_pre[b]
                } else {
                    rest_pre[b + 1]
                });
                if a < sorted_pre.len() {
                } else {
                    assert(sorted@[a] == p);
                }
            }
            assert(pairs_sorted(sorted@)) by {
                assert forall|a: int, b: int|
                    0 <= a < b < sorted@.len() implies pair_le(
                    #[trigger] sorted@[a],
                    #[trigger] sorted@[b],
                ) by {
                    if b == sorted@.len() - 1 {
                        assert(sorted@[b] == p);
                        assert(sorted_pre[a] == sorted@[a]);
                    }
                }
            }
        }
    }
    sorted
}

/// The eligible pairs: no more than the rows, exactly the rows when there is
/// no restriction, and each one a held label the restriction admits.
proof fn lemma_eligible_props(keys: Seq<u32>, labels: Seq<u64>, q: SearchQuery)
    requires
        keys.len() == labels.len(),
    ensures
        eligible_pairs(keys, labels, q).len() <= labels.len(),
        eligible_pairs(keys, labels, q).len() == admitted_count(labels, q),
        q.id_filter is None ==> eligible_pairs(keys, labels, q).len() == labels.len(),
        forall|p: (u32, u64)| #[trigger]
            eligible_pairs(keys, labels, q).contains(p) ==> labels.contains(p.1) && admitted(q, p.1),
    decreases labels.len(),
{
    if labels.len() > 0 {
        lemma_eligible_props(keys.drop_last(), labels.drop_last(), q);
        let elig = eligible_pairs(keys, labels, q);
        let pre = eligible_pairs(keys.drop_last(), labels.drop_last(), q);
        assert forall|p: (u32, u64)| #[trigger] elig.contains(p) implies labels.contains(p.1)
            && admitted(q, p.1) by {
            let t = choose|t: int| 0 <= t < elig.len() && elig[t] == p;
            if t < pre.len() {
                assert(pre.contains(p));
                let u = choose|u: int| 0 <= u < labels.drop_last().len() && labels.drop_last()[u]
                    == p.1;
                assert(labels[u] == p.1);
            } else {
                assert(p == (keys.last(), labels.last()));
                assert(labels[labels.len() - 1] == p.1);
            }
        }
    }
}

/// The trait view of a flat index is its own model: its invariant, dimension
/// and labels, an acceptance condition that is exactly shape validity, and
/// complete answers always.
pub proof fn lemma_flat_index_model<F: Fn(&Vec<u32>, &Vec<u32>) -> u32>(idx: &FlatIndex<F>)
    ensures
        idx.inv() == idx.inv_flat(),
        idx.dim_of() == idx.dim_spec(),
        idx.label_seq() == idx.labels_spec(),
        idx.search_complete(),
        forall|rows: int, dim: int, labels: Seq<u64>, data: Seq<u32>|
            #[trigger] idx.accepts_of(rows, dim, labels, data) <==> (labels.len() == rows && dim
                == idx.dim_spec() && data.len() == rows * dim),
{
}

impl<F> Index for FlatIndex<F> where F: Fn(&Vec<u32>, &Vec<u32>) -> u32 {
    open spec fn inv(&self) -> bool {
        self.inv_flat()
    }

    open spec fn dim_of(&self) -> nat {
        self.dim_spec()
    }

    open spec fn label_seq(&self) -> Seq<u64> {
        self.labels_spec()
    }

    open spec fn accepts_of(&self, rows: int, dim: int, labels: Seq<u64>, data: Seq<u32>) -> bool {
        &&& labels.len() == rows
        &&& dim == self.dim_spec()
        &&& data.len() == rows * dim
    }

    open spec fn search_complete(&self) -> bool {
        true
    }

    fn insert(&mut self, params: &InsertParams) -> (r: Result<(), IndexError>) {
        self.insert_rows(params)
    }

    fn search(&mut self, query: &SearchQuery, k: usize) -> (r: Result<SearchResult, IndexError>) {
        self.search_exact(query, k)
    }
}

} // verus!
