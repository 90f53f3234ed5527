//! Pages: the byte-serialized form of one column's values. A page starts with
//! a shape tag and the row count, then the presence flags (one byte per row),
//! then the encoding-specific payload: dictionary block plus run-length pairs
//! for strings, bit-width header plus packed differences for integers.

use vstd::prelude::*;
use crate::bytes::{
    copy_range, le_bytes, le_val, lemma_le_bytes_len, lemma_le_round_trip, lemma_pow256_values,
    push_bytes, push_le_n, push_u64, read_le_n, read_u64,
};
use crate::codec::{
    bit_width, bit_width_spec, build_dictionary, clone_bytes, cums, delta_decode, delta_encode,
    deltas_of, dict_of, indices_of, lemma_bit_width_bound, lemma_dict_indices_in_range,
    lemma_dict_len, lemma_delta_round_trip, lemma_rle_len, lemma_rle_round_trip,
    lemma_width_bytes_fit, rle_encode, rle_expand, rle_expand_exec, rle_of, width_bytes,
};
use crate::model::{
    count_true, lemma_count_true_prefix, lemma_count_true_validity, lemma_max_of_ge,
    lemma_reassemble_round_trip, lemma_valids_null_count, max_of, reassemble, validity_of, valids,
    ColModel, ColumnData, FormatError, LogicalType,
};

verus! {

/// Page shape tag for dictionary-encoded string pages.
pub const TAG_UTF8: u8 = 0;

/// Page shape tag for delta-encoded integer pages.
pub const TAG_U64: u8 = 1;

/// The eight little-endian bytes of a 64-bit counter.
pub open spec fn enc64(v: nat) -> Seq<u8> {
    le_bytes(v, 8)
}

/// One byte per presence flag: 1 for a set row, 0 for a null row.
pub open spec fn vbytes(v: Seq<bool>) -> Seq<u8> {
    Seq::new(
        v.len(),
        |i: int|
            if v[i] {
                1u8
            } else {
                0u8
            },
    )
}

/// The dictionary block: each entry length-prefixed, in dictionary order.
pub open spec fn entries_bytes(d: Seq<Seq<u8>>) -> Seq<u8>
    decreases d.len(),
{
    if d.len() == 0 {
        Seq::empty()
    } else {
        entries_bytes(d.drop_last()) + enc64(d.last().len()) + d.last()
    }
}

/// The run block: (value, length) pairs, eight bytes each half.
pub open spec fn runs_bytes(r: Seq<(u64, u64)>) -> Seq<u8>
    decreases r.len(),
{
    if r.len() == 0 {
        Seq::empty()
    } else {
        runs_bytes(r.drop_last()) + enc64(r.last().0 as nat) + enc64(r.last().1 as nat)
    }
}

/// The packed differences: each in `nb` little-endian bytes.
pub open spec fn packed_bytes(ds: Seq<u64>, nb: nat) -> Seq<u8>
    decreases ds.len(),
{
    if ds.len() == 0 {
        Seq::empty()
    } else {
        packed_bytes(ds.drop_last(), nb) + le_bytes(ds.last() as nat, nb)
    }
}

/// The page bytes of a dictionary-encoded string column.
pub open spec fn page_utf8(col: Seq<Option<Seq<u8>>>) -> Seq<u8> {
    let vs = valids(col);
    let d = dict_of(vs);
    let runs = rle_of(indices_of(vs));
    seq![TAG_UTF8] + enc64(col.len()) + vbytes(validity_of(col)) + enc64(d.len()) + entries_bytes(d)
        + enc64(runs.len()) + runs_bytes(runs)
}

/// The page bytes of a delta-encoded integer column.
pub open spec fn page_u64(col: Seq<Option<u64>>) -> Seq<u8> {
    let vs = valids(col);
    seq![TAG_U64] + enc64(col.len()) + vbytes(validity_of(col)) + (if vs.len() == 0 {
        Seq::<u8>::empty()
    } else {
        let ds = deltas_of(vs);
        let w = bit_width_spec(max_of(ds) as nat);
        seq![w as u8] + enc64(vs[0] as nat) + packed_bytes(ds, width_bytes(w))
    })
}

/// The page bytes of a column.
pub open spec fn col_page(c: ColModel) -> Seq<u8> {
    match c {
        ColModel::Utf8(s) => page_utf8(s),
        ColModel::UInt64(s) => page_u64(s),
    }
}

pub proof fn lemma_runs_bytes_len(r: Seq<(u64, u64)>)
    ensures
        runs_bytes(r).len() == 16 * r.len(),
    decreases r.len(),
{
    if r.len() > 0 {
        lemma_runs_bytes_len(r.drop_last());
        lemma_le_bytes_len(r.last().0 as nat, 8);
        lemma_le_bytes_len(r.last().1 as nat, 8);
    }
}

pub proof fn lemma_packed_bytes_len(ds: Seq<u64>, nb: nat)
    ensures
        packed_bytes(ds, nb).len() == nb * ds.len(),
    decreases ds.len(),
{
    if ds.len() > 0 {
        lemma_packed_bytes_len(ds.drop_last(), nb);
        lemma_le_bytes_len(ds.last() as nat, nb);
        assert(nb * ds.len() == nb * (ds.len() - 1) + nb) by (nonlinear_arith);
    }
}

/// Appends the presence flags of a string column and returns the number of
/// set rows.
fn push_flags_utf8(out: &mut Vec<u8>, col: &Vec<Option<Vec<u8>>>) -> (nv: usize)
    ensures
        final(out)@ == old(out)@ + vbytes(validity_of(col.deep_view())),
        nv == valids(col.deep_view()).len(),
        nv <= col@.len(),
{
    let ghost dv = col.deep_view();
    let mut nv: usize = 0;
    let mut i: usize = 0;
    proof {
        assert(out@ =~= old(out)@ + vbytes(validity_of(dv)).take(0));
        assert(valids(dv.take(0)) =~= Seq::<Seq<u8>>::empty());
        assert(dv.take(0) =~= Seq::<Option<Seq<u8>>>::empty());
    }
    while i < col.len()
        invariant
            i <= col@.len(),
            dv == col.deep_view(),
            dv.len() == col@.len(),
            out@ == old(out)@ + vbytes(validity_of(dv)).take(i as int),
            nv == valids(dv.take(i as int)).len(),
            nv <= i,
        decreases col@.len() - i,
    {
        proof {
            assert(dv.take(i + 1).drop_last() =~= dv.take(i as int));
            assert(dv.take(i + 1).last() == dv[i as int]);
            assert(vbytes(validity_of(dv)).take(i as int).push(vbytes(validity_of(dv))[i as int])
                =~= vbytes(validity_of(dv)).take(i + 1));
            assert(old(out)@ + vbytes(validity_of(dv)).take(i as int) + seq![
                vbytes(validity_of(dv))[i as int],
            ] =~= old(out)@ + vbytes(validity_of(dv)).take(i + 1));
        }
        if col[i].is_some() {
            out.push(1u8);
            nv = nv + 1;
        } else {
            out.push(0u8);
        }
        i = i + 1;
    }
    proof {
        assert(vbytes(validity_of(dv)).take(dv.len() as int) =~= vbytes(validity_of(dv)));
        assert(dv.take(dv.len() as int) =~= dv);
    }
    nv
}

/// Appends the presence flags of an integer column and returns the number of
/// set rows.
fn push_flags_u64(out: &mut Vec<u8>, col: &Vec<Option<u64>>) -> (nv: usize)
    ensures
        final(out)@ == old(out)@ + vbytes(validity_of(col.deep_view())),
        nv == valids(col.deep_view()).len(),
        nv <= col@.len(),
{
    let ghost dv = col.deep_view();
    let mut nv: usize = 0;
    let mut i: usize = 0;
    proof {
        assert(out@ =~= old(out)@ + vbytes(validity_of(dv)).take(0));
        assert(dv.take(0) =~= Seq::<Option<u64>>::empty());
    }
    while i < col.len()
        invariant
            i <= col@.len(),
            dv == col.deep_view(),
            dv.len() == col@.len(),
            out@ == old(out)@ + vbytes(validity_of(dv)).take(i as int),
            nv == valids(dv.take(i as int)).len(),
            nv <= i,
        decreases col@.len() - i,
    {
        proof {
            assert(dv.take(i + 1).drop_last() =~= dv.take(i as int));
            assert(dv.take(i + 1).last() == dv[i as int]);
            assert(old(out)@ + vbytes(validity_of(dv)).take(i as int) + seq![
                vbytes(validity_of(dv))[i as int],
            ] =~= old(out)@ + vbytes(validity_of(dv)).take(i + 1));
        }
        if col[i].is_some() {
            out.push(1u8);
            nv = nv + 1;
        } else {
            out.push(0u8);
        }
        i = i + 1;
    }
    proof {
        assert(vbytes(validity_of(dv)).take(dv.len() as int) =~= vbytes(validity_of(dv)));
        assert(dv.take(dv.len() as int) =~= dv);
    }
    nv
}

/// Encodes one string column as a dictionary page.
pub fn encode_page_utf8(col: &Vec<Option<Vec<u8>>>) -> (out: Vec<u8>)
    ensures
        out@ == page_utf8(col.deep_view()),
{
    let ghost dv = col.deep_view();
    let mut out: Vec<u8> = Vec::new();
    out.push(TAG_UTF8);
    push_u64(&mut out, col.len() as u64);
    let _nv = push_flags_utf8(&mut out, col);
    // collect the valid values in row order
    let mut vv: Vec<Vec<u8>> = Vec::new();
    let mut i: usize = 0;
    proof {
        assert(dv.take(0) =~= Seq::<Option<Seq<u8>>>::empty());
        assert(vv.deep_view() =~= valids(dv.take(0)));
    }
    while i < col.len()
        invariant
            i <= col@.len(),
            dv == col.deep_view(),
            dv.len() == col@.len(),
            vv.deep_view() == valids(dv.take(i as int)),
        decreases col@.len() - i,
    {
        proof {
            assert(dv.take(i + 1).drop_last() =~= dv.take(i as int));
            assert(dv.take(i + 1).last() == dv[i as int]);
        }
        match &col[i] {
            Some(v) => {
                let c = clone_bytes(v);
                vv.push(c);
                proof {
                    assert(vv.deep_view() =~= valids(dv.take(i + 1)));
                }
            },
            None => {},
        }
        i = i + 1;
    }
    proof {
        assert(dv.take(dv.len() as int) =~= dv);
    }
    let (dict, idx) = build_dictionary(&vv);
    let ghost d = dict_of(valids(dv));
    push_u64(&mut out, dict.len() as u64);
    let ghost base = out@;
    let mut k: usize = 0;
    proof {
        assert(d.take(0) =~= Seq::<Seq<u8>>::empty());
        assert(out@ =~= base + entries_bytes(d.take(0)));
    }
    while k < dict.len()
        invariant
            k <= dict@.len(),
            dict.deep_view() == d,
            d.len() == dict@.len(),
            out@ == base + entries_bytes(d.take(k as int)),
        decreases dict@.len() - k,
    {
        push_u64(&mut out, dict[k].len() as u64);
        push_bytes(&mut out, &dict[k]);
        proof {
            assert(d.take(k + 1).drop_last() =~= d.take(k as int));
            assert(d.take(k + 1).last() == d[k as int]);
            assert(d[k as int] == dict@[k as int]@);
            assert(base + entries_bytes(d.take(k as int)) + enc64(dict@[k as int]@.len())
                + dict@[k as int]@ =~= base + entries_bytes(d.take(k + 1)));
        }
        k = k + 1;
    }
    proof {
        assert(d.take(d.len() as int) =~= d);
    }
    let runs = rle_encode(&idx);
    let ghost rs = rle_of(indices_of(valids(dv)));
    push_u64(&mut out, runs.len() as u64);
    let ghost base2 = out@;
    let mut k2: usize = 0;
    proof {
        assert(rs.take(0) =~= Seq::<(u64, u64)>::empty());
        assert(out@ =~= base2 + runs_bytes(rs.take(0)));
    }
    while k2 < runs.len()
        invariant
            k2 <= runs@.len(),
            runs@ == rs,
            out@ == base2 + runs_bytes(rs.take(k2 as int)),
        decreases runs@.len() - k2,
    {
        let (v, c) = runs[k2];
        push_u64(&mut out, v);
        push_u64(&mut out, c);
        proof {
            assert(rs.take(k2 + 1).drop_last() =~= rs.take(k2 as int));
            assert(rs.take(k2 + 1).last() == rs[k2 as int]);
            assert(base2 + runs_bytes(rs.take(k2 as int)) + enc64(v as nat) + enc64(c as nat) =~=
                base2 + runs_bytes(rs.take(k2 + 1)));
        }
        k2 = k2 + 1;
    }
    proof {
        assert(rs.take(rs.len() as int) =~= rs);
        assert(out@ =~= page_utf8(dv));
    }
    out
}

/// Encodes one integer column as a delta page.
pub fn encode_page_u64(col: &Vec<Option<u64>>) -> (out: Vec<u8>)
    ensures
        out@ == page_u64(col.deep_view()),
{
    let ghost dv = col.deep_view();
    proof {
        assert(dv =~= col@);
    }
    let mut out: Vec<u8> = Vec::new();
    out.push(TAG_U64);
    push_u64(&mut out, col.len() as u64);
    let _nv = push_flags_u64(&mut out, col);
    // collect the valid values in row order
    let mut vv: Vec<u64> = Vec::new();
    let mut i: usize = 0;
    proof {
        assert(dv.take(0) =~= Seq::<Option<u64>>::empty());
        assert(vv@ =~= valids(dv.take(0)));
    }
    while i < col.len()
        invariant
            i <= col@.len(),
            dv == col.deep_view(),
            dv.len() == col@.len(),
            vv@ == valids(dv.take(i as int)),
        decreases col@.len() - i,
    {
        proof {
            assert(dv.take(i + 1).drop_last() =~= dv.take(i as int));
            assert(dv.take(i + 1).last() == dv[i as int]);
        }
        match col[i] {
            Some(v) => {
                vv.push(v);
            },
            None => {},
        }
        i = i + 1;
    }
    proof {
        assert(dv.take(dv.len() as int) =~= dv);
    }
    if vv.len() == 0 {
        proof {
            assert(out@ =~= page_u64(dv));
        }
        return out;
    }
    let (ds, mx) = delta_encode(&vv);
    let w = bit_width(mx);
    out.push(w);
    push_u64(&mut out, vv[0]);
    let nb: usize = (w as usize + 7) / 8;
    let ghost dseq = deltas_of(valids(dv));
    let ghost base = out@;
    let mut k: usize = 0;
    proof {
        assert(dseq.take(0) =~= Seq::<u64>::empty());
        assert(out@ =~= base + packed_bytes(dseq.take(0), nb as nat));
    }
    while k < ds.len()
        invariant
            k <= ds@.len(),
            ds@ == dseq,
            out@ == base + packed_bytes(dseq.take(k as int), nb as nat),
        decreases ds@.len() - k,
    {
        push_le_n(&mut out, ds[k], nb);
        proof {
            assert(dseq.take(k + 1).drop_last() =~= dseq.take(k as int));
            assert(dseq.take(k + 1).last() == dseq[k as int]);
            assert(base + packed_bytes(dseq.take(k as int), nb as nat) + le_bytes(
                dseq[k as int] as nat,
                nb as nat,
            ) =~= base + packed_bytes(dseq.take(k + 1), nb as nat));
        }
        k = k + 1;
    }
    proof {
        assert(dseq.take(dseq.len() as int) =~= dseq);
        assert(nb as nat == width_bytes(bit_width_spec(max_of(dseq) as nat)));
        assert(out@ =~= page_u64(dv));
    }
    out
}

/// Encodes one column into its page bytes.
pub fn encode_page(c: &ColumnData) -> (out: Vec<u8>)
    ensures
        out@ == col_page(c.deep_view()),
{
    match c {
        ColumnData::Utf8(v) => encode_page_utf8(v),
        ColumnData::UInt64(v) => encode_page_u64(v),
    }
}

/// All presence-flag bytes in the region are 0 or 1.
pub open spec fn flags_ok(b: Seq<u8>, off: int, rows: nat) -> bool {
    forall|i: int| 0 <= i < rows ==> #[trigger] b[off + i] == 0 || b[off + i] == 1
}

/// The presence flags read from the region.
pub open spec fn flags_at(b: Seq<u8>, off: int, rows: nat) -> Seq<bool> {
    Seq::new(rows as nat, |i: int| b[off + i] == 1)
}

/// Parses `k` length-prefixed dictionary entries starting at `off`.
pub open spec fn p_entries(b: Seq<u8>, off: int, k: nat) -> Option<(Seq<Seq<u8>>, int)>
    decreases k,
{
    if k == 0 {
        Some((Seq::empty(), off))
    } else {
        match p_entries(b, off, (k - 1) as nat) {
            None => None,
            Some((es, o)) => {
                if o + 8 > b.len() {
                    None
                } else {
                    let l = le_val(b.subrange(o, o + 8));
                    if o + 8 + l > b.len() {
                        None
                    } else {
                        Some((es.push(b.subrange(o + 8, o + 8 + l)), o + 8 + l))
                    }
                }
            },
        }
    }
}

/// Parses `k` sixteen-byte (value, length) run pairs starting at `off`.
pub open spec fn p_runs(b: Seq<u8>, off: int, k: nat) -> Seq<(u64, u64)> {
    Seq::new(
        k,
        |i: int|
            (
                le_val(b.subrange(off + 16 * i, off + 16 * i + 8)) as u64,
                le_val(b.subrange(off + 16 * i + 8, off + 16 * i + 16)) as u64,
            ),
    )
}

/// Parses a dictionary page at `[off, off+len)`, expecting `rows` rows.
pub open spec fn p_page_utf8(b: Seq<u8>, off: int, len: int, rows: nat) -> Option<
    Seq<Option<Seq<u8>>>,
> {
    let end = off + len;
    if !(0 <= off && end <= b.len() && len >= 9) {
        None
    } else if b[off] != TAG_UTF8 {
        None
    } else if le_val(b.subrange(off + 1, off + 9)) != rows {
        None
    } else if off + 9 + rows > end {
        None
    } else if !flags_ok(b, off + 9, rows) {
        None
    } else {
        let flags = flags_at(b, off + 9, rows);
        let nv = count_true(flags);
        let o1 = off + 9 + rows;
        if o1 + 8 > end {
            None
        } else {
            let dlen = le_val(b.subrange(o1, o1 + 8));
            match p_entries(b, o1 + 8, dlen) {
                None => None,
                Some((dict, o2)) => {
                    if o2 + 8 > b.len() {
                        None
                    } else {
                        let rcount = le_val(b.subrange(o2, o2 + 8));
                        if o2 + 8 + 16 * rcount > b.len() {
                            None
                        } else if o2 + 8 + 16 * rcount != end {
                            None
                        } else {
                            let idx = rle_expand(p_runs(b, o2 + 8, rcount));
                            if idx.len() != nv {
                                None
                            } else if exists|i: int|
                                0 <= i < idx.len() && idx[i] as int >= dict.len() {
                                None
                            } else {
                                Some(
                                    reassemble(
                                        flags,
                                        Seq::new(idx.len(), |i: int| dict[idx[i] as int]),
                                    ),
                                )
                            }
                        }
                    }
                },
            }
        }
    }
}

/// Parses a delta page at `[off, off+len)`, expecting `rows` rows.
pub open spec fn p_page_u64(b: Seq<u8>, off: int, len: int, rows: nat) -> Option<Seq<Option<u64>>> {
    let end = off + len;
    if !(0 <= off && end <= b.len() && len >= 9) {
        None
    } else if b[off] != TAG_U64 {
        None
    } else if le_val(b.subrange(off + 1, off + 9)) != rows {
        None
    } else if off + 9 + rows > end {
        None
    } else if !flags_ok(b, off + 9, rows) {
        None
    } else {
        let flags = flags_at(b, off + 9, rows);
        let nv = count_true(flags);
        let o1 = off + 9 + rows;
        if nv == 0 {
            if o1 == end {
                Some(reassemble(flags, Seq::empty()))
            } else {
                None
            }
        } else if o1 + 9 > end {
            None
        } else {
            let w = b[o1];
            if w > 64 {
                None
            } else {
                let nb = width_bytes(w as nat);
                let base = le_val(b.subrange(o1 + 1, o1 + 9)) as u64;
                let o2 = o1 + 9;
                if o2 + nb * (nv - 1) != end {
                    None
                } else {
                    let ds = Seq::new(
                        (nv - 1) as nat,
                        |i: int| le_val(b.subrange(o2 + nb * i, o2 + nb * i + nb)) as u64,
                    );
                    Some(reassemble(flags, cums(base, ds)))
                }
            }
        }
    }
}

/// Parses a page of the shape that logical type `t` is stored with.
pub open spec fn p_page(b: Seq<u8>, off: int, len: int, rows: nat, t: LogicalType) -> Option<
    ColModel,
> {
    match t {
        LogicalType::Utf8Dict => match p_page_utf8(b, off, len, rows) {
            None => None,
            Some(s) => Some(ColModel::Utf8(s)),
        },
        LogicalType::UInt64 => match p_page_u64(b, off, len, rows) {
            None => None,
            Some(s) => Some(ColModel::UInt64(s)),
        },
    }
}

/// Once one entry fails to parse, every longer entry list fails too.
pub proof fn lemma_p_entries_stuck(b: Seq<u8>, off: int, k: nat, kk: nat)
    requires
        k < kk,
        p_entries(b, off, k) matches Some(pr) && (pr.1 + 8 > b.len() || pr.1 + 8 + le_val(
            b.subrange(pr.1, pr.1 + 8),
        ) > b.len()),
    ensures
        p_entries(b, off, kk) is None,
    decreases kk,
{
    if kk > k + 1 {
        lemma_p_entries_stuck(b, off, k, (kk - 1) as nat);
    }
}

/// Reads `rows` presence-flag bytes, rejecting any byte besides 0 and 1.
fn read_flags(b: &Vec<u8>, off: usize, rows: usize) -> (r: Option<(Vec<bool>, usize)>)
    requires
        off + rows <= b@.len(),
    ensures
        (r is Some) == flags_ok(b@, off as int, rows as nat),
        r matches Some(p) ==> p.0@ == flags_at(b@, off as int, rows as nat) && p.1 == count_true(
            flags_at(b@, off as int, rows as nat),
        ) && p.1 <= rows,
{
    let blen: usize = b.len();
    let ghost fl = flags_at(b@, off as int, rows as nat);
    let mut flags: Vec<bool> = Vec::new();
    let mut cnt: usize = 0;
    let mut i: usize = 0;
    proof {
        assert(flags@ =~= fl.take(0));
    }
    while i < rows
        invariant
            i <= rows,
            off + rows <= blen,
            blen == b@.len(),
            fl == flags_at(b@, off as int, rows as nat),
            forall|k: int| 0 <= k < i ==> #[trigger] b@[off + k] == 0 || b@[off + k] == 1,
            flags@ == fl.take(i as int),
            cnt == count_true(fl.take(i as int)),
            cnt <= i,
        decreases rows - i,
    {
        let by = b[off + i];
        if by != 0 && by != 1 {
            proof {
                assert(!flags_ok(b@, off as int, rows as nat));
            }
            return None;
        }
        proof {
            assert(fl.take(i + 1).drop_last() =~= fl.take(i as int));
            assert(fl.take(i + 1).last() == fl[i as int]);
            assert(fl.take(i as int).push(fl[i as int]) =~= fl.take(i + 1));
        }
        if by == 1 {
            flags.push(true);
            cnt = cnt + 1;
        } else {
            flags.push(false);
        }
        i = i + 1;
    }
    proof {
        assert(fl.take(rows as int) =~= fl);
    }
    Some((flags, cnt))
}

/// Decodes a dictionary page at `[off, off+len)`, expecting `rows` rows.
#[verifier::rlimit(100)]
#[verifier::loop_isolation(false)]
pub fn decode_page_utf8(b: &Vec<u8>, off: usize, len: usize, rows: u64) -> (r: Result<
    Vec<Option<Vec<u8>>>,
    FormatError,
>)
    ensures
        (r is Ok) == (p_page_utf8(b@, off as int, len as int, rows as nat) is Some),
        r matches Ok(col) ==> p_page_utf8(b@, off as int, len as int, rows as nat) == Some(
            col.deep_view(),
        ),
{
    let blen: usize = b.len();
    if off > blen || len > blen - off || len < 9 {
        return Err(FormatError::CorruptPage);
    }
    let end = off + len;
    if b[off] != TAG_UTF8 {
        return Err(FormatError::SchemaMismatch);
    }
    let nrows_v = read_u64(b, off + 1);
    if nrows_v != rows {
        return Err(FormatError::CorruptPage);
    }
    if rows > (end - (off + 9)) as u64 {
        return Err(FormatError::CorruptPage);
    }
    let rows_us: usize = rows as usize;
    let (flags, nv) = match read_flags(b, off + 9, rows_us) {
        None => {
            return Err(FormatError::CorruptPage);
        },
        Some(p) => p,
    };
    let ghost fl = flags_at(b@, (off + 9) as int, rows as nat);
    let o1 = off + 9 + rows_us;
    if end - o1 < 8 {
        return Err(FormatError::CorruptPage);
    }
    let dlen = read_u64(b, o1);
    // parse the dictionary block
    let mut dict: Vec<Vec<u8>> = Vec::new();
    let mut o: usize = o1 + 8;
    let mut k: u64 = 0;
    proof {
        assert(dict.deep_view() =~= Seq::<Seq<u8>>::empty());
    }
    while k < dlen
        invariant
            k <= dlen,
            o <= blen,
            blen == b@.len(),
            p_entries(b@, (o1 + 8) as int, k as nat) == Some((dict.deep_view(), o as int)),
        decreases dlen - k,
    {
        if blen - o < 8 {
            proof {
                lemma_p_entries_stuck(b@, (o1 + 8) as int, k as nat, dlen as nat);
                assert(p_entries(b@, (o1 + 8) as int, dlen as nat) is None);
            }
            return Err(FormatError::CorruptPage);
        }
        let l = read_u64(b, o);
        if l > (blen - (o + 8)) as u64 {
            proof {
                lemma_p_entries_stuck(b@, (o1 + 8) as int, k as nat, dlen as nat);
                assert(p_entries(b@, (o1 + 8) as int, dlen as nat) is None);
            }
            return Err(FormatError::CorruptPage);
        }
        let lus: usize = l as usize;
        let e = copy_range(b, o + 8, lus);
        let ghost pre = dict.deep_view();
        let ghost ev = e@;
        proof {
            assert(e.deep_view() =~= ev);
        }
        dict.push(e);
        proof {
            assert(dict.deep_view() =~= pre.push(ev));
        }
        o = o + 8 + lus;
        k = k + 1;
    }
    let ghost pe = p_entries(b@, (o1 + 8) as int, dlen as nat);
    // run block
    if blen - o < 8 {
        return Err(FormatError::CorruptPage);
    }
    let rcount = read_u64(b, o);
    let o2 = o + 8;
    if (rcount as u128) * 16 > (blen - o2) as u128 {
        return Err(FormatError::CorruptPage);
    }
    let rcount_us: usize = rcount as usize;
    let mut runs: Vec<(u64, u64)> = Vec::new();
    let mut j: usize = 0;
    let ghost rsp = p_runs(b@, o2 as int, rcount as nat);
    while j < rcount_us
        invariant
            j <= rcount_us,
            rcount_us == rcount,
            o2 + 16 * rcount_us <= blen,
            blen == b@.len(),
            rsp == p_runs(b@, o2 as int, rcount as nat),
            runs@.len() == j,
            forall|m: int| 0 <= m < j ==> runs@[m] == rsp[m],
        decreases rcount_us - j,
    {
        let v = read_u64(b, o2 + 16 * j);
        let c = read_u64(b, o2 + 16 * j + 8);
        runs.push((v, c));
        j = j + 1;
    }
    proof {
        assert(runs@ =~= rsp);
    }
    let o3 = o2 + 16 * rcount_us;
    if o3 != end {
        return Err(FormatError::CorruptPage);
    }
    let idx = match rle_expand_exec(&runs, nv) {
        Err(_) => {
            return Err(FormatError::CorruptPage);
        },
        Ok(v) => v,
    };
    // every stored index must be below the dictionary size
    let mut q: usize = 0;
    while q < idx.len()
        invariant
            q <= idx@.len(),
            forall|m: int| 0 <= m < q ==> (idx@[m] as int) < dict.deep_view().len(),
            dict.deep_view().len() == dict@.len(),
        decreases idx@.len() - q,
    {
        if idx[q] >= dict.len() as u64 {
            proof {
                let spec_idx = rle_expand(p_runs(b@, o2 as int, rcount as nat));
                assert(spec_idx[q as int] == idx@[q as int]);
                assert(0 <= q < spec_idx.len() && spec_idx[q as int] as int >= dict.deep_view().len());
            }
            return Err(FormatError::IndexOutOfRange);
        }
        q = q + 1;
    }
    let ghost vals_seq = Seq::new(idx@.len(), |i: int| dict.deep_view()[idx@[i] as int]);
    // materialize the rows
    let mut outv: Vec<Option<Vec<u8>>> = Vec::new();
    let mut pos: usize = 0;
    let mut i2: usize = 0;
    proof {
        assert(outv.deep_view() =~= reassemble(fl.take(0), vals_seq.take(0)));
        assert(count_true(fl.take(0)) == 0);
    }
    while i2 < rows_us
        invariant
            i2 <= rows_us,
            rows_us == rows,
            fl == flags_at(b@, (off + 9) as int, rows as nat),
            fl.len() == rows,
            flags@ == fl,
            pos == count_true(fl.take(i2 as int)),
            pos <= vals_seq.len(),
            pos <= i2,
            vals_seq.len() == count_true(fl),
            vals_seq == Seq::new(idx@.len(), |i: int| dict.deep_view()[idx@[i] as int]),
            idx@.len() == count_true(fl),
            forall|m: int| 0 <= m < idx@.len() ==> (idx@[m] as int) < dict.deep_view().len(),
            dict.deep_view().len() == dict@.len(),
            outv.deep_view() == reassemble(fl.take(i2 as int), vals_seq.take(pos as int)),
        decreases rows_us - i2,
    {
        proof {
            assert(fl.take(i2 + 1).drop_last() =~= fl.take(i2 as int));
            assert(fl.take(i2 + 1).last() == fl[i2 as int]);
            lemma_count_true_prefix(fl, i2 + 1);
        }
        let ghost pre = outv.deep_view();
        if flags[i2] {
            let v = clone_bytes(&dict[idx[pos] as usize]);
            outv.push(Some(v));
            pos = pos + 1;
            proof {
                assert(vals_seq.take(pos as int).drop_last() =~= vals_seq.take(pos - 1));
                assert(vals_seq.take(pos as int).last() == vals_seq[pos - 1]);
                assert(outv.deep_view() =~= pre.push(Some(vals_seq[pos - 1])));
                assert(outv.deep_view() =~= reassemble(fl.take(i2 + 1), vals_seq.take(pos as int)));
            }
        } else {
            outv.push(None);
            proof {
                assert(outv.deep_view() =~= pre.push(None::<Seq<u8>>));
                assert(outv.deep_view() =~= reassemble(fl.take(i2 + 1), vals_seq.take(pos as int)));
            }
        }
        i2 = i2 + 1;
    }
    proof {
        assert(fl.take(rows as int) =~= fl);
        assert(vals_seq.take(pos as int) =~= vals_seq);
        assert(outv.deep_view() == reassemble(fl, vals_seq));
    }
    Ok(outv)
}

/// Decodes a delta page at `[off, off+len)`, expecting `rows` rows.
#[verifier::rlimit(100)]
#[verifier::loop_isolation(false)]
pub fn decode_page_u64(b: &Vec<u8>, off: usize, len: usize, rows: u64) -> (r: Result<
    Vec<Option<u64>>,
    FormatError,
>)
    ensures
        (r is Ok) == (p_page_u64(b@, off as int, len as int, rows as nat) is Some),
        r matches Ok(col) ==> p_page_u64(b@, off as int, len as int, rows as nat) == Some(
            col.deep_view(),
        ),
{
    let blen: usize = b.len();
    if off > blen || len > blen - off || len < 9 {
        return Err(FormatError::CorruptPage);
    }
    let end = off + len;
    if b[off] != TAG_U64 {
        return Err(FormatError::SchemaMismatch);
    }
    let nrows_v = read_u64(b, off + 1);
    if nrows_v != rows {
        return Err(FormatError::CorruptPage);
    }
    if rows > (end - (off + 9)) as u64 {
        return Err(FormatError::CorruptPage);
    }
    let rows_us: usize = rows as usize;
    let (flags, nv) = match read_flags(b, off + 9, rows_us) {
        None => {
            return Err(FormatError::CorruptPage);
        },
        Some(p) => p,
    };
    let ghost fl = flags_at(b@, (off + 9) as int, rows as nat);
    let o1 = off + 9 + rows_us;
    let mut vals: Vec<u64> = Vec::new();
    if nv == 0 {
        if o1 != end {
            return Err(FormatError::CorruptPage);
        }
        proof {
            assert(vals@ =~= Seq::<u64>::empty());
        }
    } else {
        if end - o1 < 9 {
            return Err(FormatError::CorruptPage);
        }
        let w = b[o1];
        if w > 64 {
            return Err(FormatError::CorruptPage);
        }
        let base = read_u64(b, o1 + 1);
        let o2 = o1 + 9;
        let nb: usize = (w as usize + 7) / 8;
        proof {
            assert(nv >= 1);
            assert(o2 <= end);
            assert(nb <= 8);
            assert((nb as int) * ((nv - 1) as int) <= 8 * ((nv - 1) as int)) by (nonlinear_arith)
                requires
                    nb <= 8,
                    nv >= 1,
            ;
        }
        if (nb as u128) * ((nv - 1) as u128) != (end - o2) as u128 {
            return Err(FormatError::CorruptPage);
        }
        let ghost dsp = Seq::new(
            (nv - 1) as nat,
            |i: int| le_val(b@.subrange(o2 + nb * i, o2 + nb * i + nb)) as u64,
        );
        let mut ds: Vec<u64> = Vec::new();
        let mut j: usize = 0;
        while j < nv - 1
            invariant
                j <= nv - 1,
                nv >= 1,
                o2 + nb * (nv - 1) == end,
                end <= blen,
                blen == b@.len(),
                nb <= 8,
                dsp == Seq::new(
                    (nv - 1) as nat,
                    |i: int| le_val(b@.subrange(o2 + nb * i, o2 + nb * i + nb)) as u64,
                ),
                ds@.len() == j,
                forall|m: int| 0 <= m < j ==> ds@[m] == dsp[m],
            decreases nv - 1 - j,
        {
            proof {
                assert(nb * j + nb <= nb * (nv - 1)) by (nonlinear_arith)
                    requires
                        j + 1 <= nv - 1,
                        nb >= 0,
                ;
            }
            let d = read_le_n(b, o2 + nb * j, nb);
            ds.push(d);
            j = j + 1;
        }
        proof {
            assert(ds@ =~= dsp);
        }
        vals = delta_decode(base, &ds);
        proof {
            assert(vals@ == cums(base, dsp));
            crate::codec::lemma_cums_len(base, dsp);
            assert(vals@.len() == nv);
        }
    }
    // materialize the rows
    let ghost vals_seq = vals@;
    let mut outv: Vec<Option<u64>> = Vec::new();
    let mut pos: usize = 0;
    let mut i2: usize = 0;
    proof {
        assert(outv.deep_view() =~= reassemble(fl.take(0), vals_seq.take(0)));
        assert(count_true(fl.take(0)) == 0);
    }
    while i2 < rows_us
        invariant
            i2 <= rows_us,
            rows_us == rows,
            fl == flags_at(b@, (off + 9) as int, rows as nat),
            fl.len() == rows,
            flags@ == fl,
            pos == count_true(fl.take(i2 as int)),
            pos <= vals_seq.len(),
            pos <= i2,
            vals_seq == vals@,
            vals_seq.len() == count_true(fl),
            outv.deep_view() == reassemble(fl.take(i2 as int), vals_seq.take(pos as int)),
        decreases rows_us - i2,
    {
        proof {
            assert(fl.take(i2 + 1).drop_last() =~= fl.take(i2 as int));
            assert(fl.take(i2 + 1).last() == fl[i2 as int]);
            lemma_count_true_prefix(fl, i2 + 1);
        }
        let ghost pre = outv.deep_view();
        if flags[i2] {
            let v = vals[pos];
            outv.push(Some(v));
            pos = pos + 1;
            proof {
                assert(vals_seq.take(pos as int).drop_last() =~= vals_seq.take(pos - 1));
                assert(vals_seq.take(pos as int).last() == vals_seq[pos - 1]);
                assert(outv.deep_view() =~= pre.push(Some(vals_seq[pos - 1])));
                assert(outv.deep_view() =~= reassemble(fl.take(i2 + 1), vals_seq.take(pos as int)));
            }
        } else {
            outv.push(None);
            proof {
                assert(outv.deep_view() =~= pre.push(None::<u64>));
                assert(outv.deep_view() =~= reassemble(fl.take(i2 + 1), vals_seq.take(pos as int)));
            }
        }
        i2 = i2 + 1;
    }
    proof {
        assert(fl.take(rows as int) =~= fl);
        assert(vals_seq.take(pos as int) =~= vals_seq);
        assert(outv.deep_view() == reassemble(fl, vals_seq));
    }
    Ok(outv)
}

/// Decodes one column page of the shape that logical type `t` is stored with.
pub fn decode_page(b: &Vec<u8>, off: usize, len: usize, rows: u64, t: LogicalType) -> (r: Result<
    ColumnData,
    FormatError,
>)
    ensures
        (r is Ok) == (p_page(b@, off as int, len as int, rows as nat, t) is Some),
        r matches Ok(c) ==> p_page(b@, off as int, len as int, rows as nat, t) == Some(
            c.deep_view(),
        ),
{
    match t {
        LogicalType::Utf8Dict => match decode_page_utf8(b, off, len, rows) {
            Ok(v) => Ok(ColumnData::Utf8(v)),
            Err(e) => Err(e),
        },
        LogicalType::UInt64 => match decode_page_u64(b, off, len, rows) {
            Ok(v) => Ok(ColumnData::UInt64(v)),
            Err(e) => Err(e),
        },
    }
}

/// A sub-segment of a region equality.
pub proof fn lemma_seg(b: Seq<u8>, off: int, pg: Seq<u8>, s: int, e: int)
    requires
        0 <= off,
        0 <= s <= e <= pg.len(),
        off + pg.len() <= b.len(),
        b.subrange(off, off + pg.len()) == pg,
    ensures
        b.subrange(off + s, off + e) == pg.subrange(s, e),
{
    assert(b.subrange(off + s, off + e) =~= pg.subrange(s, e));
}

/// One byte of a region equality.
pub proof fn lemma_seg_byte(b: Seq<u8>, off: int, pg: Seq<u8>, i: int)
    requires
        0 <= off,
        0 <= i < pg.len(),
        off + pg.len() <= b.len(),
        b.subrange(off, off + pg.len()) == pg,
    ensures
        b[off + i] == pg[i],
{
    assert(b.subrange(off, off + pg.len())[i] == pg[i]);
}

/// Parsing the serialized dictionary block gives the dictionary back.
pub proof fn lemma_p_entries_round_trip(b: Seq<u8>, off: int, d: Seq<Seq<u8>>)
    requires
        0 <= off,
        b.len() < 0x10000000000000000,
        off + entries_bytes(d).len() <= b.len(),
        b.subrange(off, off + entries_bytes(d).len()) == entries_bytes(d),
    ensures
        p_entries(b, off, d.len()) == Some((d, off + entries_bytes(d).len())),
    decreases d.len(),
{
    if d.len() == 0 {
        assert(d =~= Seq::<Seq<u8>>::empty());
    } else {
        let dl = d.drop_last();
        let ee = entries_bytes(d);
        let e1 = entries_bytes(dl);
        let l = d.last().len() as int;
        lemma_le_bytes_len(d.last().len(), 8);
        assert(ee.len() == e1.len() + 8 + l);
        lemma_seg(b, off, ee, 0, e1.len() as int);
        assert(ee.subrange(0, e1.len() as int) =~= e1);
        lemma_p_entries_round_trip(b, off, dl);
        let o = off + e1.len();
        lemma_seg(b, off, ee, e1.len() as int, e1.len() as int + 8);
        assert(ee.subrange(e1.len() as int, e1.len() as int + 8) =~= enc64(d.last().len()));
        lemma_pow256_values();
        lemma_le_round_trip(d.last().len(), 8);
        assert(le_val(b.subrange(o, o + 8)) == d.last().len());
        lemma_seg(b, off, ee, e1.len() as int + 8, ee.len() as int);
        assert(ee.subrange(e1.len() as int + 8, ee.len() as int) =~= d.last());
        assert(dl.push(d.last()) =~= d);
    }
}

pub proof fn lemma_runs_bytes_index(r: Seq<(u64, u64)>, i: int)
    requires
        0 <= i < r.len(),
    ensures
        runs_bytes(r).subrange(16 * i, 16 * i + 8) == le_bytes(r[i].0 as nat, 8),
        runs_bytes(r).subrange(16 * i + 8, 16 * i + 16) == le_bytes(r[i].1 as nat, 8),
    decreases r.len(),
{
    lemma_runs_bytes_len(r);
    lemma_le_bytes_len(r[i].0 as nat, 8);
    lemma_le_bytes_len(r[i].1 as nat, 8);
    if i == r.len() - 1 {
        lemma_runs_bytes_len(r.drop_last());
        assert(runs_bytes(r).subrange(16 * i, 16 * i + 8) =~= le_bytes(r[i].0 as nat, 8));
        assert(runs_bytes(r).subrange(16 * i + 8, 16 * i + 16) =~= le_bytes(r[i].1 as nat, 8));
    } else {
        lemma_runs_bytes_index(r.drop_last(), i);
        lemma_runs_bytes_len(r.drop_last());
        assert(runs_bytes(r).subrange(16 * i, 16 * i + 8) =~= runs_bytes(r.drop_last()).subrange(
            16 * i,
            16 * i + 8,
        ));
        assert(runs_bytes(r).subrange(16 * i + 8, 16 * i + 16) =~= runs_bytes(
            r.drop_last(),
        ).subrange(16 * i + 8, 16 * i + 16));
    }
}

/// Parsing the serialized run block gives the runs back.
pub proof fn lemma_p_runs_round_trip(b: Seq<u8>, off: int, r: Seq<(u64, u64)>)
    requires
        0 <= off,
        off + 16 * r.len() <= b.len(),
        b.subrange(off, off + 16 * r.len()) == runs_bytes(r),
    ensures
        p_runs(b, off, r.len()) == r,
{
    lemma_runs_bytes_len(r);
    assert forall|i: int| 0 <= i < r.len() implies #[trigger] p_runs(b, off, r.len())[i]
        == r[i] by {
        lemma_runs_bytes_index(r, i);
        lemma_seg(b, off, runs_bytes(r), 16 * i, 16 * i + 8);
        lemma_seg(b, off, runs_bytes(r), 16 * i + 8, 16 * i + 16);
        lemma_pow256_values();
        lemma_le_round_trip(r[i].0 as nat, 8);
        lemma_le_round_trip(r[i].1 as nat, 8);
    }
    assert(p_runs(b, off, r.len()) =~= r);
}

pub proof fn lemma_packed_bytes_index(ds: Seq<u64>, nb: nat, i: int)
    requires
        0 <= i < ds.len(),
    ensures
        packed_bytes(ds, nb).subrange(nb * i, nb * i + nb) == le_bytes(ds[i] as nat, nb),
    decreases ds.len(),
{
    lemma_packed_bytes_len(ds, nb);
    lemma_le_bytes_len(ds[i] as nat, nb);
    if i == ds.len() - 1 {
        lemma_packed_bytes_len(ds.drop_last(), nb);
        assert(nb * i + nb == nb * ds.len()) by (nonlinear_arith)
            requires
                i == ds.len() - 1,
        ;
        assert(packed_bytes(ds, nb).subrange(nb * i, nb * i + nb) =~= le_bytes(ds[i] as nat, nb));
    } else {
        lemma_packed_bytes_index(ds.drop_last(), nb, i);
        lemma_packed_bytes_len(ds.drop_last(), nb);
        assert(nb * i + nb <= nb * (ds.len() - 1)) by (nonlinear_arith)
            requires
                i + 1 <= ds.len() - 1,
                nb >= 0,
        ;
        assert(packed_bytes(ds, nb).subrange(nb * i, nb * i + nb) =~= packed_bytes(
            ds.drop_last(),
            nb,
        ).subrange(nb * i, nb * i + nb));
    }
}

/// Parsing the page written for a string column gives the column back.
#[verifier::rlimit(100)]
pub proof fn lemma_page_utf8_round_trip(b: Seq<u8>, off: int, col: Seq<Option<Seq<u8>>>)
    requires
        0 <= off,
        b.len() < 0x10000000000000000,
        off + page_utf8(col).len() <= b.len(),
        b.subrange(off, off + page_utf8(col).len()) == page_utf8(col),
    ensures
        p_page_utf8(b, off, page_utf8(col).len() as int, col.len()) == Some(col),
{
    let n = col.len() as int;
    let vs = valids(col);
    let d = dict_of(vs);
    let idx = indices_of(vs);
    let runs = rle_of(idx);
    let pg = page_utf8(col);
    lemma_le_bytes_len(col.len(), 8);
    lemma_le_bytes_len(d.len(), 8);
    lemma_le_bytes_len(runs.len(), 8);
    lemma_runs_bytes_len(runs);
    let elen = entries_bytes(d).len() as int;
    assert(pg.len() == 25 + n + elen + 16 * runs.len());
    lemma_valids_null_count(col);
    lemma_dict_len(vs);
    lemma_rle_len(idx);
    let end = off + pg.len();
    // shape tag and row count
    lemma_seg_byte(b, off, pg, 0);
    assert(pg[0] == TAG_UTF8);
    lemma_seg(b, off, pg, 1, 9);
    assert(pg.subrange(1, 9) =~= enc64(col.len()));
    lemma_pow256_values();
    lemma_le_round_trip(col.len(), 8);
    // presence flags
    assert forall|i: int| 0 <= i < n implies #[trigger] b[off + 9 + i] == vbytes(
        validity_of(col),
    )[i] by {
        lemma_seg_byte(b, off, pg, 9 + i);
        assert(pg[9 + i] == vbytes(validity_of(col))[i]);
    }
    assert(flags_ok(b, off + 9, col.len()));
    assert(flags_at(b, off + 9, col.len()) =~= validity_of(col));
    lemma_count_true_validity(col);
    let nv = count_true(validity_of(col));
    assert(nv == vs.len());
    let o1 = off + 9 + n;
    // dictionary block
    lemma_seg(b, off, pg, 9 + n, 17 + n);
    assert(pg.subrange(9 + n, 17 + n) =~= enc64(d.len()));
    lemma_le_round_trip(d.len(), 8);
    assert(le_val(b.subrange(o1, o1 + 8)) == d.len());
    lemma_seg(b, off, pg, 17 + n, 17 + n + elen);
    assert(pg.subrange(17 + n, 17 + n + elen) =~= entries_bytes(d));
    lemma_p_entries_round_trip(b, o1 + 8, d);
    let o2 = o1 + 8 + elen;
    // run block
    lemma_seg(b, off, pg, 17 + n + elen, 25 + n + elen);
    assert(pg.subrange(17 + n + elen, 25 + n + elen) =~= enc64(runs.len()));
    lemma_le_round_trip(runs.len(), 8);
    assert(le_val(b.subrange(o2, o2 + 8)) == runs.len());
    lemma_seg(b, off, pg, 25 + n + elen, pg.len() as int);
    assert(pg.subrange(25 + n + elen, pg.len() as int) =~= runs_bytes(runs));
    lemma_p_runs_round_trip(b, o2 + 8, runs);
    assert(o2 + 8 + 16 * runs.len() == end);
    // expansion, bounds, lookup
    lemma_rle_round_trip(idx);
    assert(rle_expand(runs) == idx);
    assert(idx.len() == nv);
    lemma_dict_indices_in_range(vs);
    assert(!(exists|i: int| 0 <= i < idx.len() && idx[i] as int >= d.len()));
    assert(Seq::new(idx.len(), |i: int| d[idx[i] as int]) =~= vs);
    lemma_reassemble_round_trip(col);
    assert(p_page_utf8(b, off, pg.len() as int, col.len()) == Some(col));
}

/// Parsing the page written for an integer column gives the column back.
#[verifier::rlimit(100)]
pub proof fn lemma_page_u64_round_trip(b: Seq<u8>, off: int, col: Seq<Option<u64>>)
    requires
        0 <= off,
        b.len() < 0x10000000000000000,
        off + page_u64(col).len() <= b.len(),
        b.subrange(off, off + page_u64(col).len()) == page_u64(col),
    ensures
        p_page_u64(b, off, page_u64(col).len() as int, col.len()) == Some(col),
{
    let n = col.len() as int;
    let vs = valids(col);
    let pg = page_u64(col);
    lemma_le_bytes_len(col.len(), 8);
    lemma_valids_null_count(col);
    let end = off + pg.len();
    lemma_seg_byte(b, off, pg, 0);
    assert(pg[0] == TAG_U64);
    lemma_seg(b, off, pg, 1, 9);
    assert(pg.subrange(1, 9) =~= enc64(col.len()));
    lemma_pow256_values();
    lemma_le_round_trip(col.len(), 8);
    assert forall|i: int| 0 <= i < n implies #[trigger] b[off + 9 + i] == vbytes(
        validity_of(col),
    )[i] by {
        lemma_seg_byte(b, off, pg, 9 + i);
        assert(pg[9 + i] == vbytes(validity_of(col))[i]);
    }
    assert(flags_ok(b, off + 9, col.len()));
    assert(flags_at(b, off + 9, col.len()) =~= validity_of(col));
    lemma_count_true_validity(col);
    let nv = count_true(validity_of(col));
    assert(nv == vs.len());
    let o1 = off + 9 + n;
    lemma_reassemble_round_trip(col);
    if vs.len() == 0 {
        assert(pg.len() == 9 + n);
        assert(o1 == end);
        assert(valids(col) =~= Seq::<u64>::empty());
    } else {
        let ds = deltas_of(vs);
        let w = bit_width_spec(max_of(ds) as nat);
        let nb = width_bytes(w);
        crate::codec::lemma_bit_width_le_64(max_of(ds));
        lemma_packed_bytes_len(ds, nb);
        lemma_le_bytes_len(vs[0] as nat, 8);
        assert(pg.len() == 9 + n + 9 + nb * ds.len());
        lemma_seg_byte(b, off, pg, 9 + n);
        assert(pg[9 + n] == (w as u8));
        assert(b[o1] == (w as u8));
        assert(w <= 64);
        lemma_seg(b, off, pg, 10 + n, 18 + n);
        assert(pg.subrange(10 + n, 18 + n) =~= enc64(vs[0] as nat));
        lemma_le_round_trip(vs[0] as nat, 8);
        let o2 = o1 + 9;
        assert(ds.len() == nv - 1);
        assert(o2 + nb * (nv - 1) == end);
        lemma_seg(b, off, pg, 18 + n, pg.len() as int);
        assert(pg.subrange(18 + n, pg.len() as int) =~= packed_bytes(ds, nb));
        let dsp = Seq::new(
            (nv - 1) as nat,
            |i: int| le_val(b.subrange(o2 + nb * i, o2 + nb * i + nb)) as u64,
        );
        assert forall|i: int| 0 <= i < ds.len() implies #[trigger] dsp[i] == ds[i] by {
            lemma_packed_bytes_index(ds, nb, i);
            assert(nb * i >= 0 && nb * i + nb <= nb * ds.len()) by (nonlinear_arith)
                requires
                    0 <= i < ds.len(),
                    nb >= 0,
            ;
            lemma_seg(b, o2, packed_bytes(ds, nb), nb * i, nb * i + nb);
            assert(b.subrange(o2 + nb * i, o2 + nb * i + nb) == le_bytes(ds[i] as nat, nb));
            lemma_max_of_ge(ds);
            crate::codec::lemma_bit_width_bound(max_of(ds) as nat);
            lemma_width_bytes_fit(ds[i] as nat, w);
            lemma_le_round_trip(ds[i] as nat, nb);
        }
        assert(dsp =~= ds);
        lemma_delta_round_trip(vs);
        assert(cums(vs[0], ds) == vs);
    }
}

/// Parsing the page written for a column gives the column back.
pub proof fn lemma_page_round_trip(b: Seq<u8>, off: int, t: LogicalType, c: ColModel)
    requires
        crate::model::col_matches(t, c),
        0 <= off,
        b.len() < 0x10000000000000000,
        off + col_page(c).len() <= b.len(),
        b.subrange(off, off + col_page(c).len()) == col_page(c),
    ensures
        p_page(b, off, col_page(c).len() as int, crate::model::col_len(c), t) == Some(c),
{
    match c {
        ColModel::Utf8(s) => {
            lemma_page_utf8_round_trip(b, off, s);
        },
        ColModel::UInt64(s) => {
            lemma_page_u64_round_trip(b, off, s);
        },
    }
}

} // verus!
