//! The attribute inverted index: for each field name and integer value, the
//! roaring bitmap of the ids whose record carries that attribute.
//!
//! `Equal` and `NotEqual` predicates compose into an accumulator bitmap by
//! set union, so a list of predicates selects the union of their id sets.

use vstd::prelude::*;

use crate::filter::{bitmap_clone, bitmap_ids, bitmap_insert, bitmap_new, bitmap_union};

verus! {

/// The predicate kinds a filter input can carry.
#[derive(Debug, Clone, Copy, PartialEq, Eq, Structural)]
pub enum FilterOp {
    Equal,
    NotEqual,
}

/// One attribute predicate: a field name, a comparison, and a target value.
#[derive(Debug, Clone)]
pub struct IntFilterInput {
    pub field: String,
    pub op: FilterOp,
    pub target: i64,
}

struct ValueEntry {
    value: i64,
    bitmap: roaring::RoaringBitmap,
}

struct FieldEntry {
    field: String,
    values: Vec<ValueEntry>,
}

/// The inverted map `field -> (integer value -> bitmap of ids)`.
pub struct IntFilterIndex {
    int_field_filters: Vec<FieldEntry>,
}

spec fn values_unique(vs: Seq<ValueEntry>) -> bool {
    forall|j1: int, j2: int|
        0 <= j1 < j2 < vs.len() ==> (#[trigger] vs[j1]).value != (#[trigger] vs[j2]).value
}

/// Whether position `(i, j)` of the index holds `idv` under field `f`, with
/// the value there equal to `v` (when `eq`) or different from `v` (when not).
spec fn cell_sel(s: Seq<FieldEntry>, f: Seq<char>, eq: bool, v: i64, idv: u32, i: int, j: int) -> bool {
    &&& 0 <= i < s.len()
    &&& 0 <= j < s[i].values@.len()
    &&& s[i].field@ == f
    &&& (if eq {
        s[i].values@[j].value == v
    } else {
        s[i].values@[j].value != v
    })
    &&& bitmap_ids(s[i].values@[j].bitmap).contains(idv)
}

spec fn sel_set(s: Seq<FieldEntry>, f: Seq<char>, eq: bool, v: i64) -> Set<u32> {
    Set::new(|idv: u32| exists|i: int, j: int| cell_sel(s, f, eq, v, idv, i, j))
}

impl IntFilterIndex {
    /// Well-formedness: one entry per field, and one entry per value inside a
    /// field.
    pub closed spec fn wf(&self) -> bool {
        &&& forall|i1: int, i2: int|
            0 <= i1 < i2 < self.int_field_filters@.len() ==> (
            #[trigger] self.int_field_filters@[i1]).field@ != (
            #[trigger] self.int_field_filters@[i2]).field@
        &&& forall|i: int|
            0 <= i < self.int_field_filters@.len() ==> values_unique(
                (#[trigger] self.int_field_filters@[i]).values@,
            )
    }

    /// The ids recorded under field `f` with value `v`; empty when the field
    /// or the value is unknown.
    pub closed spec fn ids_at(&self, f: Seq<char>, v: i64) -> Set<u32> {
        sel_set(self.int_field_filters@, f, true, v)
    }

    /// The ids recorded under field `f` with any value other than `v`; empty
    /// when the field is unknown.
    pub closed spec fn ids_not_at(&self, f: Seq<char>, v: i64) -> Set<u32> {
        sel_set(self.int_field_filters@, f, false, v)
    }

    /// What a predicate selects from this index, before union with the
    /// accumulator.
    pub open spec fn selected(&self, input: IntFilterInput) -> Set<u32> {
        match input.op {
            FilterOp::Equal => self.ids_at(input.field@, input.target),
            FilterOp::NotEqual => self.ids_not_at(input.field@, input.target),
        }
    }

    pub fn new() -> (r: Self)
        ensures
            r.wf(),
            forall|f: Seq<char>, v: i64| #[trigger] r.ids_at(f, v) == Set::<u32>::empty(),
            forall|f: Seq<char>, v: i64| #[trigger] r.ids_not_at(f, v) == Set::<u32>::empty(),
    {
        let r = IntFilterIndex { int_field_filters: Vec::new() };
        proof {
            assert forall|f: Seq<char>, v: i64| #[trigger]
                r.ids_at(f, v) == Set::<u32>::empty() by {
                assert(r.ids_at(f, v) =~= Set::<u32>::empty());
            }
            assert forall|f: Seq<char>, v: i64| #[trigger]
                r.ids_not_at(f, v) == Set::<u32>::empty() by {
                assert(r.ids_not_at(f, v) =~= Set::<u32>::empty());
            }
        }
        r
    }

    /// Records `id` under `(field, value)`, creating the field and value
    /// entries as needed; every other cell of the index stays as it was.
    pub fn upsert(&mut self, field: &str, value: i64, id: u64)
        requires
            old(self).wf(),
        ensures
            final(self).wf(),
            final(self).ids_at(field@, value) == old(self).ids_at(field@, value).insert(
                id as u32,
            ),
            forall|g: Seq<char>, w: i64|
                g != field@ ==> #[trigger] final(self).ids_at(g, w) == old(self).ids_at(g, w),
            forall|w: i64|
                w != value ==> #[trigger] final(self).ids_at(field@, w) == old(self).ids_at(
                    field@,
                    w,
                ),
            forall|g: Seq<char>, w: i64|
                g != field@ ==> #[trigger] final(self).ids_not_at(g, w) == old(self).ids_not_at(
                    g,
                    w,
                ),
            forall|w: i64|
                w != value ==> #[trigger] final(self).ids_not_at(field@, w) == old(
                    self,
                ).ids_not_at(field@, w).insert(id as u32),
            final(self).ids_not_at(field@, value) == old(self).ids_not_at(field@, value),
    {
        let ghost orig = *self;
        let fs: String = field.to_owned();
        let flen = self.int_field_filters.len();
        let mut fi: usize = 0;
        let mut found: bool = false;
        while !found && fi < flen
            invariant
                0 <= fi <= flen,
                flen == self.int_field_filters@.len(),
                fs@ == field@,
                *self == orig,
                forall|i: int|
                    0 <= i < fi ==> (#[trigger] self.int_field_filters@[i]).field@ != fs@,
                found ==> fi < flen && self.int_field_filters@[fi as int].field@ == fs@,
            decreases flen - fi + (if found { 0int } else { 1int }),
        {
            if self.int_field_filters[fi].field == fs {
                found = true;
            } else {
                fi = fi + 1;
            }
        }
        if !found {
            // unknown field: a fresh field entry with one value entry
            let mut b = bitmap_new();
            bitmap_insert(&mut b, id as u32);
            let mut values: Vec<ValueEntry> = Vec::new();
            values.push(ValueEntry { value, bitmap: b });
            self.int_field_filters.push(FieldEntry { field: fs, values });
            proof {
                lemma_upsert_effect(
                    orig,
                    *self,
                    orig.int_field_filters@.len() as int,
                    field@,
                    value,
                    id,
                );
            }
        } else {
            let mut entry = self.int_field_filters.remove(fi);
            let vlen = entry.values.len();
            let mut vi: usize = 0;
            let mut vfound: bool = false;
            while !vfound && vi < vlen
                invariant
                    0 <= vi <= vlen,
                    vlen == entry.values@.len(),
                    forall|j: int| 0 <= j < vi ==> (#[trigger] entry.values@[j]).value != value,
                    vfound ==> vi < vlen && entry.values@[vi as int].value == value,
                decreases vlen - vi + (if vfound { 0int } else { 1int }),
            {
                if entry.values[vi].value == value {
                    vfound = true;
                } else {
                    vi = vi + 1;
                }
            }
            let ghost entry_pre = entry;
            if !vfound {
                // known field, unknown value: a fresh value entry
                let mut b = bitmap_new();
                bitmap_insert(&mut b, id as u32);
                entry.values.push(ValueEntry { value, bitmap: b });
            } else {
                let mut ve = entry.values.remove(vi);
                bitmap_insert(&mut ve.bitmap, id as u32);
                entry.values.insert(vi, ve);
                proof {
                    assert(entry.values@ =~= entry_pre.values@.update(
                        vi as int,
                        entry.values@[vi as int],
                    ));
                }
            }
            self.int_field_filters.insert(fi, entry);
            proof {
                assert(self.int_field_filters@ =~= orig.int_field_filters@.update(
                    fi as int,
                    self.int_field_filters@[fi as int],
                ));
                lemma_upsert_effect(orig, *self, fi as int, field@, value, id);
            }
        }
    }

    /// Composes one predicate into the accumulator: the result holds the
    /// accumulator's ids together with the ids the predicate selects.
    pub fn apply(&self, input: &IntFilterInput, bitmap: &roaring::RoaringBitmap) -> (r:
        roaring::RoaringBitmap)
        requires
            self.wf(),
        ensures
            bitmap_ids(r) == bitmap_ids(*bitmap).union(self.selected(*input)),
    {
        let ghost s = self.int_field_filters@;
        let flen = self.int_field_filters.len();
        let mut fi: usize = 0;
        let mut found: bool = false;
        while !found && fi < flen
            invariant
                0 <= fi <= flen,
                flen == s.len(),
                s == self.int_field_filters@,
                forall|i: int| 0 <= i < fi ==> (#[trigger] s[i]).field@ != input.field@,
                found ==> fi < flen && s[fi as int].field@ == input.field@,
            decreases flen - fi + (if found { 0int } else { 1int }),
        {
            if self.int_field_filters[fi].field == input.field {
                found = true;
            } else {
                fi = fi + 1;
            }
        }
        if !found {
            // unknown field: both predicate kinds select nothing
            let r = bitmap_clone(bitmap);
            proof {
                assert forall|idv: u32| !self.selected(*input).contains(idv) by {
                    if self.selected(*input).contains(idv) {
                        let eq = (input.op == FilterOp::Equal);
                        let (i, j): (int, int) = choose|i: int, j: int|
                            cell_sel(s, input.field@, eq, input.target, idv, i, j);
                        assert(s[i].field@ != input.field@);
                    }
                }
                assert(bitmap_ids(r) =~= bitmap_ids(*bitmap).union(self.selected(*input)));
            }
            return r;
        }
        proof {
            assert forall|i: int|
                0 <= i < s.len() && (#[trigger] s[i]).field@ == input.field@ implies i
                == fi as int by {
                if i < fi as int {
                } else if i > fi as int {
                    assert(s[fi as int].field@ != s[i].field@);
                }
            }
        }
        let entry = &self.int_field_filters[fi];
        match input.op {
            FilterOp::Equal => {
                let vlen = entry.values.len();
                let mut vi: usize = 0;
                let mut vfound: bool = false;
                while !vfound && vi < vlen
                    invariant
                        0 <= vi <= vlen,
                        vlen == entry.values@.len(),
                        forall|j: int|
                            0 <= j < vi ==> (#[trigger] entry.values@[j]).value != input.target,
                        vfound ==> vi < vlen && entry.values@[vi as int].value == input.target,
                    decreases vlen - vi + (if vfound { 0int } else { 1int }),
                {
                    if entry.values[vi].value == input.target {
                        vfound = true;
                    } else {
                        vi = vi + 1;
                    }
                }
                if !vfound {
                    // unknown value: the predicate selects nothing
                    let r = bitmap_clone(bitmap);
                    proof {
                        assert forall|idv: u32|
                            !self.ids_at(input.field@, input.target).contains(idv) by {
                            if self.ids_at(input.field@, input.target).contains(idv) {
                                let (i, j): (int, int) = choose|i: int, j: int|
                                    cell_sel(s, input.field@, true, input.target, idv, i, j);
                            }
                        }
                        assert(bitmap_ids(r) =~= bitmap_ids(*bitmap).union(self.selected(*input)));
                    }
                    return r;
                }
                let r = bitmap_union(bitmap, &entry.values[vi].bitmap);
                proof {
                    let b = bitmap_ids(entry.values@[vi as int].bitmap);
                    assert forall|idv: u32|
                        self.ids_at(input.field@, input.target).contains(idv) implies b.contains(
                        idv,
                    ) by {
                        let (i, j): (int, int) = choose|i: int, j: int|
                            cell_sel(s, input.field@, true, input.target, idv, i, j);
                        assert(i == fi as int);
                        assert(values_unique(s[i].values@));
                        assert(j == vi as int);
                    }
                    assert forall|idv: u32| b.contains(idv) implies self.ids_at(
                        input.field@,
                        input.target,
                    ).contains(idv) by {
                        assert(cell_sel(
                            s,
                            input.field@,
                            true,
                            input.target,
                            idv,
                            fi as int,
                            vi as int,
                        ));
                    }
                    assert(self.ids_at(input.field@, input.target) =~= b);
                    assert(bitmap_ids(r) =~= bitmap_ids(*bitmap).union(self.selected(*input)));
                }
                r
            },
            FilterOp::NotEqual => {
                let vlen = entry.values.len();
                let mut acc = bitmap_clone(bitmap);
                let mut vi: usize = 0;
                while vi < vlen
                    invariant
                        0 <= vi <= vlen,
                        vlen == entry.values@.len(),
                        0 <= (fi as int) < s.len(),
                        *entry == s[fi as int],
                        bitmap_ids(acc) == bitmap_ids(*bitmap).union(
                            Set::new(
                                |idv: u32|
                                    exists|j: int|
                                        {
                                            &&& 0 <= j < vi
                                            &&& (#[trigger] entry.values@[j]).value != input.target
                                            &&& bitmap_ids(entry.values@[j].bitmap).contains(idv)
                                        },
                            ),
                        ),
                    decreases vlen - vi,
                {
                    if entry.values[vi].value != input.target {
                        let next = bitmap_union(&acc, &entry.values[vi].bitmap);
                        proof {
                            assert(bitmap_ids(next) =~= bitmap_ids(*bitmap).union(
                                Set::new(
                                    |idv: u32|
                                        exists|j: int|
                                            {
                                                &&& 0 <= j < vi + 1
                                                &&& (#[trigger] entry.values@[j]).value
                                                    != input.target
                                                &&& bitmap_ids(entry.values@[j].bitmap).contains(
                                                    idv,
                                                )
                                            },
                                ),
                            ));
                        }
                        acc = next;
                    } else {
                        proof {
                            assert(bitmap_ids(acc) =~= bitmap_ids(*bitmap).union(
                                Set::new(
                                    |idv: u32|
                                        exists|j: int|
                                            {
                                                &&& 0 <= j < vi + 1
                                                &&& (#[trigger] entry.values@[j]).value
                                                    != input.target
                                                &&& bitmap_ids(entry.values@[j].bitmap).contains(
                                                    idv,
                                                )
                                            },
                                ),
                            ));
                        }
                    }
                    vi = vi + 1;
                }
                proof {
                    let inner = Set::new(
                        |idv: u32|
                            exists|j: int|
                                {
                                    &&& 0 <= j < vlen
                                    &&& (#[trigger] entry.values@[j]).value != input.target
                                    &&& bitmap_ids(entry.values@[j].bitmap).contains(idv)
                                },
                    );
                    assert forall|idv: u32|
                        self.ids_not_at(input.field@, input.target).contains(idv) implies
                        inner.contains(idv) by {
                        let (i, j): (int, int) = choose|i: int, j: int|
                            cell_sel(s, input.field@, false, input.target, idv, i, j);
                        assert(i == fi as int);
                    }
                    assert forall|idv: u32| inner.contains(idv) implies self.ids_not_at(
                        input.field@,
                        input.target,
                    ).contains(idv) by {
                        let j = choose|j: int|
                            {
                                &&& 0 <= j < vlen
                                &&& (#[trigger] entry.values@[j]).value != input.target
                                &&& bitmap_ids(entry.values@[j].bitmap).contains(idv)
                            };
                        assert(cell_sel(s, input.field@, false, input.target, idv, fi as int, j));
                    }
                    assert(self.ids_not_at(input.field@, input.target) =~= inner);
                    assert(bitmap_ids(acc) =~= bitmap_ids(*bitmap).union(self.selected(*input)));
                }
                acc
            },
        }
    }
}

/// How a value-entry sequence changes when `id` is recorded under `v`: the
/// entry for `v` gains `id` (appended fresh when missing), the rest stay.
spec fn value_seq_upserted(pre: Seq<ValueEntry>, post: Seq<ValueEntry>, v: i64, id: u64) -> bool {
    ||| {
        // appended: v was not present
        &&& post.len() == pre.len() + 1
        &&& forall|j: int| 0 <= j < pre.len() ==> #[trigger] post[j] == pre[j]
        &&& forall|j: int| 0 <= j < pre.len() ==> (#[trigger] pre[j]).value != v
        &&& post[post.len() - 1].value == v
        &&& bitmap_ids(post[post.len() - 1].bitmap) == Set::<u32>::empty().insert(id as u32)
    }
    ||| exists|vi: int|
        {
            &&& 0 <= vi < pre.len()
            &&& post.len() == pre.len()
            &&& forall|j: int| 0 <= j < pre.len() && j != vi ==> #[trigger] post[j] == pre[j]
            &&& (#[trigger] pre[vi]).value == v
            &&& post[vi].value == v
            &&& bitmap_ids(post[vi].bitmap) == bitmap_ids(pre[vi].bitmap).insert(id as u32)
        }
}

/// The effect of one `upsert` that changed only the field entry at `fi` (or
/// appended it at `fi == old len`): the cell `(f, v)` gains `id` and every
/// other cell keeps its ids.
proof fn lemma_upsert_effect(
    pre: IntFilterIndex,
    post: IntFilterIndex,
    fi: int,
    f: Seq<char>,
    v: i64,
    id: u64,
)
    requires
        pre.wf(),
        0 <= fi <= pre.int_field_filters@.len(),
        fi < pre.int_field_filters@.len() ==> {
            &&& post.int_field_filters@.len() == pre.int_field_filters@.len()
            &&& forall|i: int|
                0 <= i < pre.int_field_filters@.len() && i != fi
                    ==> #[trigger] post.int_field_filters@[i] == pre.int_field_filters@[i]
            &&& pre.int_field_filters@[fi].field@ == f
            &&& post.int_field_filters@[fi].field@ == f
            &&& value_seq_upserted(
                pre.int_field_filters@[fi].values@,
                post.int_field_filters@[fi].values@,
                v,
                id,
            )
        },
        fi == pre.int_field_filters@.len() ==> {
            &&& post.int_field_filters@.len() == pre.int_field_filters@.len() + 1
            &&& forall|i: int|
                0 <= i < pre.int_field_filters@.len()
                    ==> #[trigger] post.int_field_filters@[i] == pre.int_field_filters@[i]
            &&& forall|i: int|
                0 <= i < pre.int_field_filters@.len() ==> (
                #[trigger] pre.int_field_filters@[i]).field@ != f
            &&& post.int_field_filters@[fi].field@ == f
            &&& value_seq_upserted(Seq::empty(), post.int_field_filters@[fi].values@, v, id)
        },
    ensures
        post.wf(),
        post.ids_at(f, v) == pre.ids_at(f, v).insert(id as u32),
        forall|g: Seq<char>, w: i64|
            g != f ==> #[trigger] post.ids_at(g, w) == pre.ids_at(g, w),
        forall|w: i64| w != v ==> #[trigger] post.ids_at(f, w) == pre.ids_at(f, w),
        forall|g: Seq<char>, w: i64|
            g != f ==> #[trigger] post.ids_not_at(g, w) == pre.ids_not_at(g, w),
        forall|w: i64|
            w != v ==> #[trigger] post.ids_not_at(f, w) == pre.ids_not_at(f, w).insert(id as u32),
        post.ids_not_at(f, v) == pre.ids_not_at(f, v),
{
    let ps = pre.int_field_filters@;
    let qs = post.int_field_filters@;
    let pvals: Seq<ValueEntry> = if fi < ps.len() {
        ps[fi].values@
    } else {
        Seq::empty()
    };
    let qvals = qs[fi].values@;
    // the changed value entry in qvals: either appended at the end or updated
    let appended = qvals.len() == pvals.len() + 1;
    let ci: int = if appended {
        qvals.len() - 1
    } else {
        choose|vi: int|
            {
                &&& 0 <= vi < pvals.len()
                &&& qvals.len() == pvals.len()
                &&& forall|j: int| 0 <= j < pvals.len() && j != vi ==> #[trigger] qvals[j] == pvals[j]
                &&& (#[trigger] pvals[vi]).value == v
                &&& qvals[vi].value == v
                &&& bitmap_ids(qvals[vi].bitmap) == bitmap_ids(pvals[vi].bitmap).insert(id as u32)
            }
    };
    assert(qvals[ci].value == v);
    assert(forall|j: int| 0 <= j < qvals.len() && j != ci ==> 0 <= j < pvals.len() && #[trigger] qvals[j] == pvals[j]);
    assert(bitmap_ids(qvals[ci].bitmap) == (if appended {
        Set::<u32>::empty().insert(id as u32)
    } else {
        bitmap_ids(pvals[ci].bitmap).insert(id as u32)
    }));
    // uniqueness: only row fi of post carries field f
    assert forall|i: int| 0 <= i < qs.len() && (#[trigger] qs[i]).field@ == f implies i == fi by {
        if i != fi {
            if i < ps.len() && fi < ps.len() {
                if i < fi {
                    assert(ps[i].field@ != ps[fi].field@);
                } else {
                    assert(ps[fi].field@ != ps[i].field@);
                }
            }
        }
    }
    assert(post.wf()) by {
        assert(values_unique(qvals)) by {
            if appended {
                assert(forall|j: int| 0 <= j < pvals.len() ==> (#[trigger] pvals[j]).value != v);
            }
        }
        assert forall|i: int|
            0 <= i < qs.len() implies values_unique((#[trigger] qs[i]).values@) by {
            if i != fi {
                assert(qs[i] == ps[i]);
            }
        }
        assert forall|i1: int, i2: int|
            0 <= i1 < i2 < qs.len() implies (#[trigger] qs[i1]).field@ != (
        #[trigger] qs[i2]).field@ by {
            if i1 != fi && i2 != fi {
                assert(qs[i1] == ps[i1]);
                assert(qs[i2] == ps[i2]);
            }
        }
    }
    // (f, v) gains id
    assert forall|idv: u32| #[trigger]
        post.ids_at(f, v).contains(idv) implies pre.ids_at(f, v).insert(id as u32).contains(
        idv,
    ) by {
        let (i, j): (int, int) = choose|i: int, j: int| cell_sel(qs, f, true, v, idv, i, j);
        assert(i == fi);
        if j == ci {
            if idv != id as u32 {
                if !appended {
                    assert(cell_sel(ps, f, true, v, idv, fi, ci));
                }
            }
        } else {
            assert(qvals[j] == pvals[j]);
            assert(cell_sel(ps, f, true, v, idv, fi, j));
        }
    }
    assert forall|idv: u32|
        pre.ids_at(f, v).insert(id as u32).contains(idv) implies #[trigger] post.ids_at(
        f,
        v,
    ).contains(idv) by {
        if idv == id as u32 {
            assert(cell_sel(qs, f, true, v, idv, fi, ci));
        } else {
            let (i, j): (int, int) = choose|i: int, j: int| cell_sel(ps, f, true, v, idv, i, j);
            assert(0 <= i < ps.len());
            assert(ps[i].field@ == f);
            if fi < ps.len() {
                assert(i == fi) by {
                    if i != fi {
                        if i < fi {
                            assert(ps[i].field@ != ps[fi].field@);
                        } else {
                            assert(ps[fi].field@ != ps[i].field@);
                        }
                    }
                }
                if j == ci && !appended {
                    assert(cell_sel(qs, f, true, v, idv, fi, ci));
                } else {
                    assert(qvals[j] == pvals[j]);
                    assert(cell_sel(qs, f, true, v, idv, fi, j));
                }
            }
        }
    }
    assert(post.ids_at(f, v) =~= pre.ids_at(f, v).insert(id as u32));
    // cells under other fields keep their ids, for both predicate kinds
    assert forall|g: Seq<char>, w: i64, eq: bool|
        g != f implies sel_set(qs, g, eq, w) == sel_set(ps, g, eq, w) by {
        assert forall|idv: u32| #[trigger]
            sel_set(qs, g, eq, w).contains(idv) implies sel_set(ps, g, eq, w).contains(idv) by {
            let (i, j): (int, int) = choose|i: int, j: int| cell_sel(qs, g, eq, w, idv, i, j);
            assert(i != fi);
            assert(qs[i] == ps[i]);
            assert(cell_sel(ps, g, eq, w, idv, i, j));
        }
        assert forall|idv: u32| #[trigger]
            sel_set(ps, g, eq, w).contains(idv) implies sel_set(qs, g, eq, w).contains(idv) by {
            let (i, j): (int, int) = choose|i: int, j: int| cell_sel(ps, g, eq, w, idv, i, j);
            assert(i != fi || fi == ps.len());
            assert(qs[i] == ps[i]);
            assert(cell_sel(qs, g, eq, w, idv, i, j));
        }
        assert(sel_set(qs, g, eq, w) =~= sel_set(ps, g, eq, w));
    }
    assert(forall|g: Seq<char>, w: i64|
        g != f ==> #[trigger] post.ids_at(g, w) == pre.ids_at(g, w));
    assert(forall|g: Seq<char>, w: i64|
        g != f ==> #[trigger] post.ids_not_at(g, w) == pre.ids_not_at(g, w));
    // other values of field f: equality cells unchanged
    assert forall|w: i64| w != v implies #[trigger] post.ids_at(f, w) == pre.ids_at(f, w) by {
        assert forall|idv: u32| #[trigger]
            post.ids_at(f, w).contains(idv) implies pre.ids_at(f, w).contains(idv) by {
            let (i, j): (int, int) = choose|i: int, j: int| cell_sel(qs, f, true, w, idv, i, j);
            assert(i == fi);
            assert(j != ci);
            assert(qvals[j] == pvals[j]);
            assert(cell_sel(ps, f, true, w, idv, fi, j));
        }
        assert forall|idv: u32| #[trigger]
            pre.ids_at(f, w).contains(idv) implies post.ids_at(f, w).contains(idv) by {
            let (i, j): (int, int) = choose|i: int, j: int| cell_sel(ps, f, true, w, idv, i, j);
            assert(fi < ps.len());
            assert(i == fi) by {
                if i != fi {
                    if i < fi {
                        assert(ps[i].field@ != ps[fi].field@);
                    } else {
                        assert(ps[fi].field@ != ps[i].field@);
                    }
                }
            }
            assert(j != ci || appended);
            if j == ci {
                assert(cell_sel(qs, f, true, w, idv, fi, j));
            } else {
                assert(qvals[j] == pvals[j]);
                assert(cell_sel(qs, f, true, w, idv, fi, j));
            }
        }
        assert(post.ids_at(f, w) =~= pre.ids_at(f, w));
    }
    // inequality cells of field f against other targets gain id
    assert forall|w: i64| w != v implies #[trigger] post.ids_not_at(f, w) == pre.ids_not_at(
        f,
        w,
    ).insert(id as u32) by {
        assert forall|idv: u32| #[trigger]
            post.ids_not_at(f, w).contains(idv) implies pre.ids_not_at(f, w).insert(
            id as u32,
        ).contains(idv) by {
            let (i, j): (int, int) = choose|i: int, j: int| cell_sel(qs, f, false, w, idv, i, j);
            assert(i == fi);
            if j == ci {
                if idv != id as u32 {
                    if !appended {
                        assert(cell_sel(ps, f, false, w, idv, fi, ci));
                    }
                }
            } else {
                assert(qvals[j] == pvals[j]);
                assert(cell_sel(ps, f, false, w, idv, fi, j));
            }
        }
        assert forall|idv: u32|
            pre.ids_not_at(f, w).insert(id as u32).contains(idv) implies #[trigger]
            post.ids_not_at(f, w).contains(idv) by {
            if idv == id as u32 {
                assert(cell_sel(qs, f, false, w, idv, fi, ci));
            } else {
                let (i, j): (int, int) = choose|i: int, j: int|
                    cell_sel(ps, f, false, w, idv, i, j);
                assert(fi < ps.len());
                assert(i == fi) by {
                    if i != fi {
                        if i < fi {
                            assert(ps[i].field@ != ps[fi].field@);
                        } else {
                            assert(ps[fi].field@ != ps[i].field@);
                        }
                    }
                }
                if j == ci && !appended {
                    assert(cell_sel(qs, f, false, w, idv, fi, ci));
                } else {
                    assert(qvals[j] == pvals[j]);
                    assert(cell_sel(qs, f, false, w, idv, fi, j));
                }
            }
        }
        assert(post.ids_not_at(f, w) =~= pre.ids_not_at(f, w).insert(id as u32));
    }
    // the inequality cell against v itself does not change
    assert forall|idv: u32| #[trigger]
        post.ids_not_at(f, v).contains(idv) implies pre.ids_not_at(f, v).contains(idv) by {
        let (i, j): (int, int) = choose|i: int, j: int| cell_sel(qs, f, false, v, idv, i, j);
        assert(i == fi);
        assert(j != ci);
        assert(qvals[j] == pvals[j]);
        assert(cell_sel(ps, f, false, v, idv, fi, j));
    }
    assert forall|idv: u32| #[trigger]
        pre.ids_not_at(f, v).contains(idv) implies post.ids_not_at(f, v).contains(idv) by {
        let (i, j): (int, int) = choose|i: int, j: int| cell_sel(ps, f, false, v, idv, i, j);
        assert(fi < ps.len());
        assert(i == fi) by {
            if i != fi {
                if i < fi {
                    assert(ps[i].field@ != ps[fi].field@);
                } else {
                    assert(ps[fi].field@ != ps[i].field@);
                }
            }
        }
        assert(j != ci);
        assert(qvals[j] == pvals[j]);
        assert(cell_sel(qs, f, false, v, idv, fi, j));
    }
    assert(post.ids_not_at(f, v) =~= pre.ids_not_at(f, v));
}

} // verus!
