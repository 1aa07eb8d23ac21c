//! The payload a WAL upsert record carries: the allocated ids, the vector
//! data, the finalized document bytes, and the indexed attribute pairs of
//! each row — everything replay needs to restore the operation without
//! allocating ids anew.
//!
//! The framing is length-prefixed, every integer as 8 big-endian bytes;
//! `payload_bytes` states it exactly.

use vstd::prelude::*;
use vstd::string::StrSliceExecFns;
use vstd::utf8::encode_utf8;

use crate::bytes::{be64, be64_val, u64_from_be_bytes, u64_to_be_bytes};
use crate::json::append_bytes;

verus! {

/// One row's indexed attribute pairs: the field name and the integer value.
pub type AttrPairs = Vec<(String, i64)>;

/// What one upsert writes ahead: the ids it was assigned, the vector shape
/// and data, one finalized document per id, and one list of indexed
/// attribute pairs per id.
pub struct UpsertPayload {
    pub ids: Vec<u64>,
    pub dim: u64,
    pub flat: Vec<u32>,
    pub docs: Vec<Vec<u8>>,
    pub attrs: Vec<AttrPairs>,
}

pub open spec fn be64_list(s: Seq<u64>) -> Seq<u8>
    decreases s.len(),
{
    if s.len() == 0 {
        Seq::empty()
    } else {
        be64_list(s.drop_last()) + be64(s.last())
    }
}

pub open spec fn blob_list(s: Seq<Seq<u8>>) -> Seq<u8>
    decreases s.len(),
{
    if s.len() == 0 {
        Seq::empty()
    } else {
        blob_list(s.drop_last()) + be64(s.last().len() as u64) + s.last()
    }
}

pub open spec fn pair_bytes(p: (Seq<char>, i64)) -> Seq<u8> {
    be64(encode_utf8(p.0).len() as u64) + encode_utf8(p.0) + be64(p.1 as u64)
}

pub open spec fn pair_list(s: Seq<(Seq<char>, i64)>) -> Seq<u8>
    decreases s.len(),
{
    if s.len() == 0 {
        Seq::empty()
    } else {
        pair_list(s.drop_last()) + pair_bytes(s.last())
    }
}

pub open spec fn attr_rows_bytes(s: Seq<Seq<(Seq<char>, i64)>>) -> Seq<u8>
    decreases s.len(),
{
    if s.len() == 0 {
        Seq::empty()
    } else {
        attr_rows_bytes(s.drop_last()) + be64(s.last().len() as u64) + pair_list(s.last())
    }
}

/// The views of one row's attribute pairs.
pub open spec fn pair_views(row: AttrPairs) -> Seq<(Seq<char>, i64)> {
    Seq::new(row@.len(), |j: int| (row@[j].0@, row@[j].1))
}

/// The views of every row's attribute pairs.
pub open spec fn attr_views(attrs: Seq<AttrPairs>) -> Seq<Seq<(Seq<char>, i64)>> {
    Seq::new(attrs.len(), |t: int| pair_views(attrs[t]))
}

/// The exact payload framing.
pub open spec fn payload_bytes(
    ids: Seq<u64>,
    dim: u64,
    flat: Seq<u32>,
    docs: Seq<Seq<u8>>,
    attrs: Seq<Seq<(Seq<char>, i64)>>,
) -> Seq<u8> {
    be64(ids.len() as u64) + be64_list(ids) + be64(dim) + be64(flat.len() as u64) + be64_list(
        Seq::new(flat.len(), |i: int| flat[i] as u64),
    ) + be64(docs.len() as u64) + blob_list(docs) + be64(attrs.len() as u64) + attr_rows_bytes(
        attrs,
    )
}

/// The views of the documents held.
pub open spec fn doc_views(docs: Seq<Vec<u8>>) -> Seq<Seq<u8>> {
    Seq::new(docs.len(), |t: int| docs[t]@)
}

impl UpsertPayload {
    /// The payload's exact byte form.
    pub open spec fn bytes_spec(&self) -> Seq<u8> {
        payload_bytes(self.ids@, self.dim, self.flat@, doc_views(self.docs@), attr_views(self.attrs@))
    }

    /// Structural consistency: one document and one attribute row per id,
    /// and vector data of exactly `ids * dim` components.
    pub open spec fn consistent(&self) -> bool {
        &&& self.docs@.len() == self.ids@.len()
        &&& self.attrs@.len() == self.ids@.len()
        &&& self.flat@.len() == self.ids@.len() * self.dim
    }

    /// Encodes the payload; `bytes_spec` says exactly what comes out.
    pub fn encode(&self) -> (r: Vec<u8>)
        ensures
            r@ == self.bytes_spec(),
    {
        let mut out: Vec<u8> = Vec::new();
        let h = u64_to_be_bytes(self.ids.len() as u64);
        append_bytes(&mut out, &h);
        let ghost s0 = out@;
        let n = self.ids.len();
        let mut i: usize = 0;
        while i < n
            invariant
                0 <= i <= n,
                n == self.ids@.len(),
                out@ == s0 + be64_list(self.ids@.take(i as int)),
            decreases n - i,
        {
            let b = u64_to_be_bytes(self.ids[i]);
            append_bytes(&mut out, &b);
            i = i + 1;
            proof {
                assert(self.ids@.take(i as int).drop_last() =~= self.ids@.take(i - 1));
            }
        }
        proof {
            assert(self.ids@.take(n as int) =~= self.ids@);
        }
        let b = u64_to_be_bytes(self.dim);
        append_bytes(&mut out, &b);
        let b = u64_to_be_bytes(self.flat.len() as u64);
        append_bytes(&mut out, &b);
        let ghost fwide = Seq::new(self.flat@.len(), |i: int| self.flat@[i] as u64);
        let ghost s1 = out@;
        let n = self.flat.len();
        let mut i: usize = 0;
        while i < n
            invariant
                0 <= i <= n,
                n == self.flat@.len(),
                fwide == Seq::new(self.flat@.len(), |t: int| self.flat@[t] as u64),
                out@ == s1 + be64_list(fwide.take(i as int)),
            decreases n - i,
        {
            let b = u64_to_be_bytes(self.flat[i] as u64);
            append_bytes(&mut out, &b);
            i = i + 1;
            proof {
                assert(fwide.take(i as int).drop_last() =~= fwide.take(i - 1));
                assert(fwide.take(i as int).last() == fwide[i - 1]);
            }
        }
        proof {
            assert(fwide.take(n as int) =~= fwide);
        }
        let b = u64_to_be_bytes(self.docs.len() as u64);
        append_bytes(&mut out, &b);
        let ghost dviews = doc_views(self.docs@);
        let ghost s2 = out@;
        let n = self.docs.len();
        let mut i: usize = 0;
        while i < n
            invariant
                0 <= i <= n,
                n == self.docs@.len(),
                dviews == doc_views(self.docs@),
                out@ == s2 + blob_list(dviews.take(i as int)),
            decreases n - i,
        {
            let b = u64_to_be_bytes(self.docs[i].len() as u64);
            append_bytes(&mut out, &b);
            append_bytes(&mut out, &self.docs[i]);
            i = i + 1;
            proof {
                assert(dviews.take(i as int).drop_last() =~= dviews.take(i - 1));
                assert(dviews.take(i as int).last() == dviews[i - 1]);
            }
        }
        proof {
            assert(dviews.take(n as int) =~= dviews);
        }
        let b = u64_to_be_bytes(self.attrs.len() as u64);
        append_bytes(&mut out, &b);
        let ghost aviews = attr_views(self.attrs@);
        let ghost s3 = out@;
        let n = self.attrs.len();
        let mut i: usize = 0;
        while i < n
            invariant
                0 <= i <= n,
                n == self.attrs@.len(),
                aviews == attr_views(self.attrs@),
                out@ == s3 + attr_rows_bytes(aviews.take(i as int)),
            decreases n - i,
        {
            let row = &self.attrs[i];
            let b = u64_to_be_bytes(row.len() as u64);
            append_bytes(&mut out, &b);
            let ghost pviews = pair_views(*row);
            let ghost s4 = out@;
            let m = row.len();
            let mut j: usize = 0;
            while j < m
                invariant
                    0 <= j <= m,
                    m == row@.len(),
                    pviews == pair_views(*row),
                    out@ == s4 + pair_list(pviews.take(j as int)),
                decreases m - j,
            {
                let fb = row[j].0.as_str().as_bytes_vec();
                let b = u64_to_be_bytes(fb.len() as u64);
                append_bytes(&mut out, &b);
                append_bytes(&mut out, &fb);
                let b = u64_to_be_bytes(row[j].1 as u64);
                append_bytes(&mut out, &b);
                j = j + 1;
                proof {
                    assert(pviews.take(j as int).drop_last() =~= pviews.take(j - 1));
                    assert(pviews.take(j as int).last() == pviews[j - 1]);
                    assert(out@ =~= s4 + pair_list(pviews.take(j as int)));
                }
            }
            proof {
                assert(pviews.take(m as int) =~= pviews);
            }
            i = i + 1;
            proof {
                assert(aviews.take(i as int).drop_last() =~= aviews.take(i - 1));
                assert(aviews.take(i as int).last() == aviews[i - 1]);
                assert(out@ =~= s3 + attr_rows_bytes(aviews.take(i as int)));
            }
        }
        proof {
            assert(aviews.take(n as int) =~= aviews);
            assert(out@ =~= self.bytes_spec());
        }
        out
    }
}

/// Reads the 8-byte big-endian integer at `*pos`, advancing it.
fn read_u64(data: &[u8], pos: &mut usize) -> (r: Option<u64>)
    requires
        *old(pos) <= data@.len(),
    ensures
        match r {
            Some(v) => {
                &&& *old(pos) + 8 <= data@.len()
                &&& *final(pos) == *old(pos) + 8
                &&& v == be64_val(data@.subrange(*old(pos) as int, *old(pos) + 8))
            },
            None => {
                &&& *old(pos) + 8 > data@.len()
                &&& *final(pos) == *old(pos)
            },
        },
{
    if data.len() - *pos < 8 {
        return None;
    }
    let start = *pos;
    let mut buf: Vec<u8> = Vec::new();
    let mut i: usize = 0;
    while i < 8
        invariant
            0 <= i <= 8,
            start + 8 <= data@.len(),
            data@.len() <= usize::MAX,
            buf@ =~= data@.subrange(start as int, start + i),
        decreases 8 - i,
    {
        buf.push(data[start + i]);
        proof {
            assert(data@.subrange(start as int, start + i).push(data@[start + i]) =~= data@.subrange(
                start as int,
                start + i + 1,
            ));
        }
        i = i + 1;
    }
    let v = u64_from_be_bytes(buf.as_slice());
    *pos = start + 8;
    Some(v)
}

/// Reads `len` raw bytes at `*pos`, advancing it.
fn read_blob(data: &[u8], pos: &mut usize, len: usize) -> (r: Option<Vec<u8>>)
    requires
        *old(pos) <= data@.len(),
    ensures
        match r {
            Some(b) => {
                &&& *old(pos) + len <= data@.len()
                &&& *final(pos) == *old(pos) + len
                &&& b@ == data@.subrange(*old(pos) as int, *old(pos) + len)
            },
            None => *old(pos) + len > data@.len(),
        },
{
    if data.len() - *pos < len {
        return None;
    }
    let start = *pos;
    let mut buf: Vec<u8> = Vec::new();
    let mut i: usize = 0;
    while i < len
        invariant
            0 <= i <= len,
            start + len <= data@.len(),
            data@.len() <= usize::MAX,
            buf@ =~= data@.subrange(start as int, start + i),
        decreases len - i,
    {
        buf.push(data[start + i]);
        proof {
            assert(data@.subrange(start as int, start + i).push(data@[start + i]) =~= data@.subrange(
                start as int,
                start + i + 1,
            ));
        }
        i = i + 1;
    }
    *pos = start + len;
    Some(buf)
}

/// Relies on String::from_utf8: accepts a byte vector exactly when it is
/// valid UTF-8, and then returns the string those bytes encode.
#[verifier::external_body]
fn bytes_to_string(b: Vec<u8>) -> (r: Option<String>)
    ensures
        match r {
            Some(s) => encode_utf8(s@) == b@,
            None => true,
        },
{
    match String::from_utf8(b) {
        Ok(s) => Some(s),
        Err(_) => None,
    }
}

/// Splitting a prefix at an interior point.
proof fn lemma_take_split(data: Seq<u8>, p1: int, p2: int)
    requires
        0 <= p1 <= p2 <= data.len(),
    ensures
        data.take(p2) =~= data.take(p1) + data.subrange(p1, p2),
{
}

/// Decodes a payload: accepted input is exactly the encoding of the decoded
/// payload, which is structurally consistent; anything else is rejected.
#[verifier::rlimit(100)]
pub fn decode_payload(data: &[u8]) -> (r: Option<UpsertPayload>)
    ensures
        match r {
            Some(p) => p.consistent() && data@ == p.bytes_spec(),
            None => true,
        },
{
    let mut pos: usize = 0;
    let n64 = read_u64(data, &mut pos)?;
    proof {
        crate::bytes::lemma_be64_val_roundtrip(data@.subrange(0, 8));
        assert(data@.take(pos as int) =~= be64(n64));
    }
    if n64 > usize::MAX as u64 {
        return None;
    }
    let n = n64 as usize;
    let ghost seg0 = data@.take(pos as int);
    let mut ids: Vec<u64> = Vec::new();
    proof {
        assert(data@.take(pos as int) =~= seg0 + be64_list(ids@));
    }
    let mut i: usize = 0;
    while i < n
        invariant
            0 <= i <= n,
            pos <= data@.len(),
            ids@.len() == i,
            data@.take(pos as int) == seg0 + be64_list(ids@),
        decreases n - i,
    {
        let ghost pos0 = pos;
        let ghost ids_old = ids@;
        let v = read_u64(data, &mut pos)?;
        ids.push(v);
        i = i + 1;
        proof {
            crate::bytes::lemma_be64_val_roundtrip(data@.subrange(pos0 as int, pos0 + 8));
            lemma_take_split(data@, pos0 as int, pos as int);
            assert(data@.take(pos0 as int) == seg0 + be64_list(ids_old));
            assert(ids@.drop_last() =~= ids_old);
            assert(be64_list(ids@) == be64_list(ids@.drop_last()) + be64(v));
            assert(data@.take(pos as int) =~= (seg0 + be64_list(ids_old)) + be64(v));
            assert((seg0 + be64_list(ids_old)) + be64(v) =~= seg0 + (be64_list(ids_old) + be64(
                v,
            )));
        }
    }
    let ghost pos_ids = pos;
    let ghost seg1 = data@.take(pos as int);
    let dim = read_u64(data, &mut pos)?;
    proof {
        crate::bytes::lemma_be64_val_roundtrip(data@.subrange(pos_ids as int, pos_ids + 8));
        lemma_take_split(data@, pos_ids as int, pos as int);
        assert(data@.take(pos as int) =~= seg1 + be64(dim));
    }
    let ghost pos_dim = pos;
    let flen64 = read_u64(data, &mut pos)?;
    proof {
        crate::bytes::lemma_be64_val_roundtrip(data@.subrange(pos_dim as int, pos_dim + 8));
        lemma_take_split(data@, pos_dim as int, pos as int);
    }
    if flen64 > usize::MAX as u64 {
        return None;
    }
    let flen = flen64 as usize;
    let prod: u64 = match (n as u64).checked_mul(dim) {
        Some(p) => p,
        None => {
            return None;
        },
    };
    if flen as u64 != prod {
        return None;
    }
    let ghost seg2 = data@.take(pos as int);
    let mut flat: Vec<u32> = Vec::new();
    proof {
        assert(Seq::new(flat@.len(), |t: int| flat@[t] as u64) =~= Seq::<u64>::empty());
        assert(data@.take(pos as int) =~= seg2 + be64_list(
            Seq::new(flat@.len(), |t: int| flat@[t] as u64),
        ));
    }
    let mut i: usize = 0;
    while i < flen
        invariant
            0 <= i <= flen,
            pos <= data@.len(),
            flat@.len() == i,
            data@.take(pos as int) == seg2 + be64_list(
                Seq::new(flat@.len(), |t: int| flat@[t] as u64),
            ),
        decreases flen - i,
    {
        let ghost pos0 = pos;
        let ghost wide_old = Seq::new(flat@.len(), |t: int| flat@[t] as u64);
        let v = read_u64(data, &mut pos)?;
        if v > u32::MAX as u64 {
            return None;
        }
        flat.push(v as u32);
        i = i + 1;
        proof {
            crate::bytes::lemma_be64_val_roundtrip(data@.subrange(pos0 as int, pos0 + 8));
            lemma_take_split(data@, pos0 as int, pos as int);
            assert(data@.take(pos0 as int) == seg2 + be64_list(wide_old));
            let wide = Seq::new(flat@.len(), |t: int| flat@[t] as u64);
            assert(wide.last() == v);
            assert(wide.drop_last() =~= wide_old);
            assert(be64_list(wide) == be64_list(wide.drop_last()) + be64(v));
            assert(data@.take(pos as int) =~= (seg2 + be64_list(wide_old)) + be64(v));
            assert((seg2 + be64_list(wide_old)) + be64(v) =~= seg2 + (be64_list(wide_old) + be64(
                v,
            )));
        }
    }
    let ghost pos_fl = pos;
    let ghost seg3 = data@.take(pos as int);
    let dcount64 = read_u64(data, &mut pos)?;
    proof {
        crate::bytes::lemma_be64_val_roundtrip(data@.subrange(pos_fl as int, pos_fl + 8));
        lemma_take_split(data@, pos_fl as int, pos as int);
        assert(data@.take(pos as int) =~= seg3 + be64(dcount64));
    }
    if dcount64 != n as u64 {
        return None;
    }
    let ghost seg4 = data@.take(pos as int);
    let mut docs: Vec<Vec<u8>> = Vec::new();
    proof {
        assert(doc_views(docs@) =~= Seq::<Seq<u8>>::empty());
        assert(data@.take(pos as int) =~= seg4 + blob_list(doc_views(docs@)));
    }
    let mut i: usize = 0;
    while i < n
        invariant
            0 <= i <= n,
            pos <= data@.len(),
            docs@.len() == i,
            data@.take(pos as int) == seg4 + blob_list(doc_views(docs@)),
        decreases n - i,
    {
        let ghost pos0 = pos;
        let ghost dv_old = doc_views(docs@);
        let dlen64 = read_u64(data, &mut pos)?;
        if dlen64 > usize::MAX as u64 {
            return None;
        }
        let ghost pos1 = pos;
        let blob = read_blob(data, &mut pos, dlen64 as usize)?;
        let ghost blob_bytes = blob@;
        docs.push(blob);
        i = i + 1;
        proof {
            crate::bytes::lemma_be64_val_roundtrip(data@.subrange(pos0 as int, pos0 + 8));
            lemma_take_split(data@, pos0 as int, pos1 as int);
            lemma_take_split(data@, pos1 as int, pos as int);
            assert(data@.take(pos0 as int) == seg4 + blob_list(dv_old));
            let dv = doc_views(docs@);
            assert(dv.last() == blob_bytes);
            assert(dv.last().len() as u64 == dlen64);
            assert(dv.drop_last() =~= dv_old);
            assert(blob_list(dv) == blob_list(dv.drop_last()) + be64(dlen64) + dv.last());
            assert(data@.take(pos as int) =~= ((seg4 + blob_list(dv_old)) + be64(dlen64))
                + blob_bytes);
            assert(((seg4 + blob_list(dv_old)) + be64(dlen64)) + blob_bytes =~= seg4 + ((
            blob_list(dv_old) + be64(dlen64)) + blob_bytes));
        }
    }
    let ghost pos_docs = pos;
    let ghost seg5 = data@.take(pos as int);
    let acount64 = read_u64(data, &mut pos)?;
    proof {
        crate::bytes::lemma_be64_val_roundtrip(data@.subrange(pos_docs as int, pos_docs + 8));
        lemma_take_split(data@, pos_docs as int, pos as int);
        assert(data@.take(pos as int) =~= seg5 + be64(acount64));
    }
    if acount64 != n as u64 {
        return None;
    }
    let ghost seg6 = data@.take(pos as int);
    let mut attrs: Vec<AttrPairs> = Vec::new();
    proof {
        assert(attr_views(attrs@) =~= Seq::<Seq<(Seq<char>, i64)>>::empty());
        assert(data@.take(pos as int) =~= seg6 + attr_rows_bytes(attr_views(attrs@)));
    }
    let mut i: usize = 0;
    while i < n
        invariant
            0 <= i <= n,
            pos <= data@.len(),
            attrs@.len() == i,
            data@.take(pos as int) == seg6 + attr_rows_bytes(attr_views(attrs@)),
        decreases n - i,
    {
        let ghost pos0 = pos;
        let pcount64 = read_u64(data, &mut pos)?;
        proof {
            crate::bytes::lemma_be64_val_roundtrip(data@.subrange(pos0 as int, pos0 + 8));
            lemma_take_split(data@, pos0 as int, pos as int);
        }
        if pcount64 > usize::MAX as u64 {
            return None;
        }
        let pcount = pcount64 as usize;
        let ghost seg_row = data@.take(pos as int);
        let mut row: AttrPairs = Vec::new();
        proof {
            assert(pair_views(row) =~= Seq::<(Seq<char>, i64)>::empty());
            assert(data@.take(pos as int) =~= seg_row + pair_list(pair_views(row)));
        }
        let mut j: usize = 0;
        while j < pcount
            invariant
                0 <= j <= pcount,
                pos <= data@.len(),
                row@.len() == j,
                data@.take(pos as int) == seg_row + pair_list(pair_views(row)),
            decreases pcount - j,
        {
            let ghost posp = pos;
            let ghost pv_old = pair_views(row);
            let flen64 = read_u64(data, &mut pos)?;
            if flen64 > usize::MAX as u64 {
                return None;
            }
            let ghost posf = pos;
            let fb = read_blob(data, &mut pos, flen64 as usize)?;
            let ghost fbytes = fb@;
            let field = match bytes_to_string(fb) {
                Some(s) => s,
                None => {
                    return None;
                },
            };
            let ghost posv = pos;
            let v = read_u64(data, &mut pos)?;
            row.push((field, v as i64));
            j = j + 1;
            proof {
                crate::bytes::lemma_be64_val_roundtrip(data@.subrange(posp as int, posp + 8));
                crate::bytes::lemma_be64_val_roundtrip(data@.subrange(posv as int, posv + 8));
                lemma_take_split(data@, posp as int, posf as int);
                lemma_take_split(data@, posf as int, posv as int);
                lemma_take_split(data@, posv as int, pos as int);
                assert(data@.take(posp as int) == seg_row + pair_list(pv_old));
                let pv = pair_views(row);
                assert(((v as i64) as u64) == v) by (bit_vector);
                assert(pv.last() == (row@[j - 1].0@, row@[j - 1].1));
                assert(encode_utf8(pv.last().0) == fbytes);
                assert(pair_bytes(pv.last()) =~= (be64(flen64) + fbytes) + be64(v));
                assert(pv.drop_last() =~= pv_old);
                assert(pair_list(pv) == pair_list(pv.drop_last()) + pair_bytes(pv.last()));
                assert(data@.take(pos as int) =~= ((seg_row + pair_list(pv_old)) + (be64(flen64)
                    + fbytes)) + be64(v));
                assert(((seg_row + pair_list(pv_old)) + (be64(flen64) + fbytes)) + be64(v) =~=
                    seg_row + (pair_list(pv_old) + pair_bytes(pv.last())));
            }
        }
        let ghost av_old = attr_views(attrs@);
        let ghost row_views = pair_views(row);
        attrs.push(row);
        i = i + 1;
        proof {
            assert(data@.take(pos0 as int) == seg6 + attr_rows_bytes(av_old));
            let av = attr_views(attrs@);
            assert(av.last() =~= row_views);
            assert(av.last() == row_views);
            assert(av.last().len() as u64 == pcount64);
            assert(av.drop_last() =~= av_old);
            assert(attr_rows_bytes(av) == attr_rows_bytes(av.drop_last()) + be64(pcount64)
                + pair_list(av.last()));
            assert(row_views.take(pcount as int) =~= row_views);
            assert(data@.take(pos as int) =~= ((seg6 + attr_rows_bytes(av_old)) + be64(pcount64))
                + pair_list(row_views));
            assert(((seg6 + attr_rows_bytes(av_old)) + be64(pcount64)) + pair_list(row_views) =~=
                seg6 + ((attr_rows_bytes(av_old) + be64(pcount64)) + pair_list(row_views)));
        }
    }
    if pos != data.len() {
        return None;
    }
    let p = UpsertPayload { ids, dim, flat, docs, attrs };
    proof {
        assert(p.flat@.len() == p.ids@.len() * p.dim);
        assert(data@.take(data@.len() as int) =~= data@);
        assert(data@ =~= p.bytes_spec());
    }
    Some(p)
}

} // verus!
