//! File framing: one row group (one page per column), then the footer
//! (schema descriptor, row-group offset and length, per-column encoding,
//! byte range and statistics), then the footer's byte length, then the
//! magic marker.

use vstd::prelude::*;
use crate::bytes::{
    copy_range, le_bytes, le_val, lemma_le_bytes_len, lemma_le_round_trip, lemma_pow256_values,
    push_bytes, push_u64, read_u64,
};
use crate::model::{
    col_len, col_matches, column_stats, stats_of, wf_chunk, wf_schema, Chunk, ChunkModel,
    ColModel, ColumnData, Field, FieldModel, FormatError, LogicalType, Schema,
};
use crate::page::{col_page, decode_page, enc64, encode_page, p_page};

verus! {

/// The file's closing magic marker.
pub open spec fn magic() -> Seq<u8> {
    seq![67u8, 79u8, 76u8, 49u8]
}

/// The footer byte naming a logical type.
pub open spec fn type_tag(t: LogicalType) -> u8 {
    match t {
        LogicalType::Utf8Dict => 0,
        LogicalType::UInt64 => 1,
    }
}

/// The footer byte naming the encoding chosen for a logical type.
pub open spec fn enc_tag(t: LogicalType) -> u8 {
    match t {
        LogicalType::Utf8Dict => 0,
        LogicalType::UInt64 => 1,
    }
}

/// One schema field: length-prefixed name, type tag, nullability flag.
pub open spec fn field_bytes(f: FieldModel) -> Seq<u8> {
    enc64(f.name.len()) + f.name + seq![type_tag(f.dtype)] + seq![
        if f.nullable {
            1u8
        } else {
            0u8
        },
    ]
}

pub open spec fn fields_bytes(s: Seq<FieldModel>) -> Seq<u8>
    decreases s.len(),
{
    if s.len() == 0 {
        Seq::empty()
    } else {
        fields_bytes(s.drop_last()) + field_bytes(s.last())
    }
}

/// The row group: each column's page, in schema order.
pub open spec fn rg_bytes(cols: Seq<ColModel>) -> Seq<u8>
    decreases cols.len(),
{
    if cols.len() == 0 {
        Seq::empty()
    } else {
        rg_bytes(cols.drop_last()) + col_page(cols.last())
    }
}

/// The byte offset of column `i`'s page, relative to the row-group start.
pub open spec fn page_off(cols: Seq<ColModel>, i: int) -> int {
    rg_bytes(cols.take(i)).len() as int
}

/// One column's footer record: encoding, byte range, statistics.
pub open spec fn meta_bytes(sm: Seq<FieldModel>, cols: Seq<ColModel>, i: int) -> Seq<u8> {
    let st = stats_of(cols[i]);
    seq![enc_tag(sm[i].dtype)] + enc64(page_off(cols, i) as nat) + enc64(col_page(cols[i]).len())
        + enc64(st.null_count) + seq![
        if st.has_minmax {
            1u8
        } else {
            0u8
        },
    ] + enc64(st.min as nat) + enc64(st.max as nat)
}

pub open spec fn metas_bytes(sm: Seq<FieldModel>, cols: Seq<ColModel>, k: nat) -> Seq<u8>
    decreases k,
{
    if k == 0 {
        Seq::empty()
    } else {
        metas_bytes(sm, cols, (k - 1) as nat) + meta_bytes(sm, cols, k - 1)
    }
}

/// The footer: compression marker (none), field count, fields, row count,
/// row-group offset and length, per-column records.
pub open spec fn footer_bytes(sm: Seq<FieldModel>, cm: ChunkModel) -> Seq<u8> {
    seq![0u8] + enc64(sm.len()) + fields_bytes(sm) + enc64(cm.rows) + enc64(0) + enc64(
        rg_bytes(cm.cols).len(),
    ) + metas_bytes(sm, cm.cols, cm.cols.len())
}

/// The whole file.
pub open spec fn file_bytes(sm: Seq<FieldModel>, cm: ChunkModel) -> Seq<u8> {
    let f = footer_bytes(sm, cm);
    rg_bytes(cm.cols) + f + enc64(f.len()) + magic()
}

/// Parses one schema field at `o`.
pub open spec fn p_field(b: Seq<u8>, o: int) -> Option<(FieldModel, int)> {
    if o + 8 > b.len() {
        None
    } else {
        let nl = le_val(b.subrange(o, o + 8));
        if o + 8 + nl + 2 > b.len() {
            None
        } else {
            let name = b.subrange(o + 8, o + 8 + nl);
            let tb = b[o + 8 + nl];
            let nb = b[o + 8 + nl + 1];
            if tb != 0 && tb != 1 {
                None
            } else if nb != 0 && nb != 1 {
                None
            } else {
                Some(
                    (
                        FieldModel {
                            name,
                            dtype: if tb == 0 {
                                LogicalType::Utf8Dict
                            } else {
                                LogicalType::UInt64
                            },
                            nullable: nb == 1,
                        },
                        o + 8 + nl + 2,
                    ),
                )
            }
        }
    }
}

pub open spec fn p_fields(b: Seq<u8>, off: int, k: nat) -> Option<(Seq<FieldModel>, int)>
    decreases k,
{
    if k == 0 {
        Some((Seq::empty(), off))
    } else {
        match p_fields(b, off, (k - 1) as nat) {
            None => None,
            Some((fs, o)) => match p_field(b, o) {
                None => None,
                Some((f, o2)) => Some((fs.push(f), o2)),
            },
        }
    }
}

/// Parses `k` 42-byte column records at `off`: encoding byte, page offset,
/// page length (statistics follow but the reader does not depend on them).
pub open spec fn p_metas(b: Seq<u8>, off: int, k: nat) -> Seq<(u8, u64, u64)> {
    Seq::new(
        k,
        |i: int|
            (
                b[off + 42 * i],
                le_val(b.subrange(off + 42 * i + 1, off + 42 * i + 9)) as u64,
                le_val(b.subrange(off + 42 * i + 9, off + 42 * i + 17)) as u64,
            ),
    )
}

/// Parses the first `k` columns against the schema and records.
pub open spec fn p_cols(
    b: Seq<u8>,
    sm: Seq<FieldModel>,
    ms: Seq<(u8, u64, u64)>,
    rgo: int,
    rgl: nat,
    rows: nat,
    k: nat,
) -> Option<Seq<ColModel>>
    decreases k,
{
    if k == 0 {
        Some(Seq::empty())
    } else {
        match p_cols(b, sm, ms, rgo, rgl, rows, (k - 1) as nat) {
            None => None,
            Some(cs) => {
                let m = ms[k - 1];
                let f = sm[k - 1];
                if m.0 != enc_tag(f.dtype) {
                    None
                } else if m.1 + m.2 > rgl {
                    None
                } else {
                    match p_page(b, rgo + m.1, m.2 as int, rows, f.dtype) {
                        None => None,
                        Some(c) => Some(cs.push(c)),
                    }
                }
            },
        }
    }
}

/// Parses the framing and the footer: magic, footer length, compression
/// marker, schema fields, row count, row-group range, column records.
pub open spec fn p_footer(b: Seq<u8>) -> Option<
    (Seq<FieldModel>, nat, nat, nat, Seq<(u8, u64, u64)>),
> {
    if b.len() < 12 {
        None
    } else if b.subrange(b.len() - 4, b.len() as int) != magic() {
        None
    } else {
        let flen = le_val(b.subrange(b.len() - 12, b.len() - 4));
        if b.len() - 12 < flen {
            None
        } else {
            let fs = b.len() - 12 - flen;
            let fe = b.len() - 12;
            if fs + 9 > fe {
                None
            } else if b[fs as int] != 0 {
                None
            } else {
                let nf = le_val(b.subrange(fs + 1, fs + 9));
                match p_fields(b, fs + 9, nf) {
                    None => None,
                    Some((sm, o1)) => {
                        if o1 + 24 > fe {
                            None
                        } else {
                            let rows = le_val(b.subrange(o1, o1 + 8));
                            let rgo = le_val(b.subrange(o1 + 8, o1 + 16));
                            let rgl = le_val(b.subrange(o1 + 16, o1 + 24));
                            let o2 = o1 + 24;
                            if o2 + 42 * nf != fe {
                                None
                            } else if rows > usize::MAX {
                                None
                            } else if rgo + rgl > fs {
                                None
                            } else {
                                Some((sm, rows, rgo, rgl, p_metas(b, o2, nf)))
                            }
                        }
                    },
                }
            }
        }
    }
}

/// Parses a whole file: the footer first, then each column page.
pub open spec fn p_file(b: Seq<u8>) -> Option<(Seq<FieldModel>, ChunkModel)> {
    match p_footer(b) {
        None => None,
        Some((sm, rows, rgo, rgl, ms)) => {
            if ms.len() != sm.len() {
                None
            } else {
                match p_cols(b, sm, ms, rgo as int, rgl, rows, sm.len()) {
                    None => None,
                    Some(cols) => Some((sm, ChunkModel { rows, cols })),
                }
            }
        },
    }
}

/// A field list parse yields exactly the asked number of fields.
pub proof fn lemma_p_fields_len(b: Seq<u8>, off: int, k: nat)
    requires
        p_fields(b, off, k) is Some,
    ensures
        p_fields(b, off, k)->Some_0.0.len() == k,
    decreases k,
{
    if k > 0 {
        lemma_p_fields_len(b, off, (k - 1) as nat);
    }
}

/// Once one field fails to parse, every longer field list fails too.
pub proof fn lemma_p_fields_stuck(b: Seq<u8>, off: int, k: nat, kk: nat)
    requires
        k < kk,
        p_fields(b, off, k) matches Some(pr) && p_field(b, pr.1) is None,
    ensures
        p_fields(b, off, kk) is None,
    decreases kk,
{
    if kk > k + 1 {
        lemma_p_fields_stuck(b, off, k, (kk - 1) as nat);
    }
}

/// Once one column fails to parse, every longer column list fails too.
pub proof fn lemma_p_cols_stuck(
    b: Seq<u8>,
    sm: Seq<FieldModel>,
    ms: Seq<(u8, u64, u64)>,
    rgo: int,
    rgl: nat,
    rows: nat,
    k: nat,
    kk: nat,
)
    requires
        k < kk,
        p_cols(b, sm, ms, rgo, rgl, rows, (k + 1) as nat) is None,
        p_cols(b, sm, ms, rgo, rgl, rows, k) is Some,
    ensures
        p_cols(b, sm, ms, rgo, rgl, rows, kk) is None,
    decreases kk,
{
    if kk > k + 1 {
        lemma_p_cols_stuck(b, sm, ms, rgo, rgl, rows, k, (kk - 1) as nat);
    }
}

/// Appends the schema field descriptors.
#[verifier::loop_isolation(false)]
fn write_fields(out: &mut Vec<u8>, schema: &Schema)
    ensures
        final(out)@ == old(out)@ + fields_bytes(schema@),
{
    let ghost sm = schema@;
    let ghost base_f = out@;
    let mut j: usize = 0;
    proof {
        assert(sm.take(0) =~= Seq::<FieldModel>::empty());
        assert(out@ =~= base_f + fields_bytes(sm.take(0)));
    }
    while j < schema.fields.len()
        invariant
            j <= schema.fields@.len(),
            sm.len() == schema.fields@.len(),
            out@ == base_f + fields_bytes(sm.take(j as int)),
        decreases schema.fields@.len() - j,
    {
        let f = &schema.fields[j];
        push_u64(out, f.name.len() as u64);
        push_bytes(out, &f.name);
        match f.dtype {
            LogicalType::Utf8Dict => out.push(0u8),
            LogicalType::UInt64 => out.push(1u8),
        }
        if f.nullable {
            out.push(1u8);
        } else {
            out.push(0u8);
        }
        proof {
            assert(sm.take(j + 1).drop_last() =~= sm.take(j as int));
            assert(sm.take(j + 1).last() == sm[j as int]);
            assert(base_f + fields_bytes(sm.take(j as int)) + enc64(sm[j as int].name.len())
                + sm[j as int].name + seq![type_tag(sm[j as int].dtype)] + seq![
                if sm[j as int].nullable {
                    1u8
                } else {
                    0u8
                },
            ] =~= base_f + fields_bytes(sm.take(j + 1)));
        }
        j = j + 1;
    }
    proof {
        assert(sm.take(sm.len() as int) =~= sm);
    }
}

/// Appends the per-column footer records.
#[verifier::rlimit(100)]
#[verifier::loop_isolation(false)]
fn write_metas(out: &mut Vec<u8>, schema: &Schema, chunk: &Chunk, offs: &Vec<u64>, lens: &Vec<u64>)
    requires
        schema@.len() == chunk@.cols.len(),
        offs@.len() == chunk@.cols.len(),
        lens@.len() == chunk@.cols.len(),
        forall|k: int| 0 <= k < chunk@.cols.len() ==> offs@[k] as int == page_off(chunk@.cols, k),
        forall|k: int|
            0 <= k < chunk@.cols.len() ==> lens@[k] as nat == col_page(chunk@.cols[k]).len(),
    ensures
        final(out)@ == old(out)@ + metas_bytes(schema@, chunk@.cols, chunk@.cols.len()),
{
    let ghost sm = schema@;
    let ghost cols = chunk@.cols;
    let ghost base_m = out@;
    let mut j2: usize = 0;
    proof {
        assert(out@ =~= base_m + metas_bytes(sm, cols, 0));
    }
    while j2 < chunk.columns.len()
        invariant
            j2 <= chunk.columns@.len(),
            cols.len() == chunk.columns@.len(),
            out@ == base_m + metas_bytes(sm, cols, j2 as nat),
        decreases chunk.columns@.len() - j2,
    {
        match schema.fields[j2].dtype {
            LogicalType::Utf8Dict => out.push(0u8),
            LogicalType::UInt64 => out.push(1u8),
        }
        push_u64(out, offs[j2]);
        push_u64(out, lens[j2]);
        let st = column_stats(&chunk.columns[j2]);
        push_u64(out, st.null_count);
        match st.minmax {
            Some(mm) => {
                out.push(1u8);
                push_u64(out, mm.0);
                push_u64(out, mm.1);
            },
            None => {
                out.push(0u8);
                push_u64(out, 0u64);
                push_u64(out, 0u64);
            },
        }
        proof {
            assert(chunk.columns@[j2 as int].deep_view() == cols[j2 as int]);
            assert(out@ =~= base_m + metas_bytes(sm, cols, (j2 + 1) as nat));
        }
        j2 = j2 + 1;
    }
}

/// Serializes a schema and a conforming chunk into a finished file.
#[verifier::rlimit(100)]
#[verifier::loop_isolation(false)]
pub fn encode_file(schema: &Schema, chunk: &Chunk) -> (out: Vec<u8>)
    requires
        wf_schema(schema@),
        wf_chunk(schema@, chunk@),
    ensures
        out@ == file_bytes(schema@, chunk@),
{
    let ghost sm = schema@;
    let ghost cols = chunk@.cols;
    let mut out: Vec<u8> = Vec::new();
    // row group: one page per column, recording offsets and lengths
    let mut offs: Vec<u64> = Vec::new();
    let mut lens: Vec<u64> = Vec::new();
    let mut i: usize = 0;
    proof {
        assert(cols.take(0) =~= Seq::<ColModel>::empty());
        assert(out@ =~= rg_bytes(cols.take(0)));
    }
    while i < chunk.columns.len()
        invariant
            i <= chunk.columns@.len(),
            cols.len() == chunk.columns@.len(),
            out@ == rg_bytes(cols.take(i as int)),
            offs@.len() == i,
            lens@.len() == i,
            forall|k: int| 0 <= k < i ==> offs@[k] as int == page_off(cols, k),
            forall|k: int| 0 <= k < i ==> lens@[k] as nat == col_page(cols[k]).len(),
        decreases chunk.columns@.len() - i,
    {
        let pg = encode_page(&chunk.columns[i]);
        offs.push(out.len() as u64);
        lens.push(pg.len() as u64);
        push_bytes(&mut out, &pg);
        proof {
            assert(cols.take(i + 1).drop_last() =~= cols.take(i as int));
            assert(cols.take(i + 1).last() == cols[i as int]);
            assert(out@ == rg_bytes(cols.take(i + 1)));
        }
        i = i + 1;
    }
    proof {
        assert(cols.take(cols.len() as int) =~= cols);
    }
    let rg_len = out.len();
    // footer
    let fstart = out.len();
    out.push(0u8);
    push_u64(&mut out, schema.fields.len() as u64);
    write_fields(&mut out, schema);
    push_u64(&mut out, chunk.rows as u64);
    push_u64(&mut out, 0u64);
    push_u64(&mut out, rg_len as u64);
    write_metas(&mut out, schema, chunk, &offs, &lens);
    let flen = out.len() - fstart;
    push_u64(&mut out, flen as u64);
    out.push(67u8);
    out.push(79u8);
    out.push(76u8);
    out.push(49u8);
    proof {
        assert(out@ =~= file_bytes(sm, chunk@));
    }
    out
}

/// Parses the framing and the footer of a finished file.
#[verifier::rlimit(100)]
#[verifier::loop_isolation(false)]
fn parse_footer(b: &Vec<u8>) -> (r: Result<
    (Vec<Field>, u64, u64, u64, Vec<(u8, u64, u64)>),
    FormatError,
>)
    ensures
        (r is Ok) == (p_footer(b@) is Some),
        r matches Ok(p) ==> p_footer(b@) == Some(
            (p.0.deep_view(), p.1 as nat, p.2 as nat, p.3 as nat, p.4@),
        ),
        b@.len() < 12 ==> r == Err::<(Vec<Field>, u64, u64, u64, Vec<(u8, u64, u64)>), FormatError>(
            FormatError::NotAFileOfThisFormat,
        ),
        b@.len() >= 12 && b@.subrange(b@.len() - 4, b@.len() as int) != magic() ==> r == Err::<
            (Vec<Field>, u64, u64, u64, Vec<(u8, u64, u64)>),
            FormatError,
        >(FormatError::NotAFileOfThisFormat),
{
    let blen: usize = b.len();
    if blen < 12 {
        return Err(FormatError::NotAFileOfThisFormat);
    }
    if b[blen - 4] != 67 || b[blen - 3] != 79 || b[blen - 2] != 76 || b[blen - 1] != 49 {
        proof {
            assert(b@.subrange(b@.len() - 4, b@.len() as int) != magic()) by {
                assert(b@.subrange(b@.len() - 4, b@.len() as int)[0] == b@[b@.len() - 4]);
                assert(b@.subrange(b@.len() - 4, b@.len() as int)[1] == b@[b@.len() - 3]);
                assert(b@.subrange(b@.len() - 4, b@.len() as int)[2] == b@[b@.len() - 2]);
                assert(b@.subrange(b@.len() - 4, b@.len() as int)[3] == b@[b@.len() - 1]);
            }
        }
        return Err(FormatError::NotAFileOfThisFormat);
    }
    proof {
        assert(b@.subrange(b@.len() - 4, b@.len() as int) =~= magic());
    }
    let flen = read_u64(b, blen - 12);
    if flen > (blen - 12) as u64 {
        return Err(FormatError::NotAFileOfThisFormat);
    }
    let fs = blen - 12 - (flen as usize);
    let fe = blen - 12;
    if fe - fs < 9 {
        return Err(FormatError::CorruptPage);
    }
    if b[fs] != 0 {
        return Err(FormatError::CorruptPage);
    }
    let nf = read_u64(b, fs + 1);
    // schema fields
    let mut fields: Vec<Field> = Vec::new();
    let mut o: usize = fs + 9;
    let mut k: u64 = 0;
    proof {
        assert(fields.deep_view() =~= Seq::<FieldModel>::empty());
    }
    while k < nf
        invariant
            k <= nf,
            o <= blen,
            blen == b@.len(),
            p_fields(b@, (fs + 9) as int, k as nat) == Some((fields.deep_view(), o as int)),
        decreases nf - k,
    {
        if blen - o < 8 {
            proof {
                lemma_p_fields_stuck(b@, (fs + 9) as int, k as nat, nf as nat);
            }
            return Err(FormatError::CorruptPage);
        }
        let nl = read_u64(b, o);
        if nl > (blen - (o + 8)) as u64 || (blen as u64) - (o as u64) - 8 - nl < 2 {
            proof {
                lemma_p_fields_stuck(b@, (fs + 9) as int, k as nat, nf as nat);
            }
            return Err(FormatError::CorruptPage);
        }
        let nl_us = nl as usize;
        let name = copy_range(b, o + 8, nl_us);
        let tb = b[o + 8 + nl_us];
        let nb = b[o + 8 + nl_us + 1];
        if (tb != 0 && tb != 1) || (nb != 0 && nb != 1) {
            proof {
                lemma_p_fields_stuck(b@, (fs + 9) as int, k as nat, nf as nat);
            }
            return Err(FormatError::SchemaMismatch);
        }
        let dtype = if tb == 0 {
            LogicalType::Utf8Dict
        } else {
            LogicalType::UInt64
        };
        let ghost pre = fields.deep_view();
        let f = Field { name, dtype, nullable: nb == 1 };
        let ghost fm = f@;
        fields.push(f);
        proof {
            assert(fields.deep_view() =~= pre.push(fm));
        }
        o = o + 8 + nl_us + 2;
        k = k + 1;
    }
    // row count, row-group range
    if o > fe || fe - o < 24 {
        return Err(FormatError::CorruptPage);
    }
    let rows = read_u64(b, o);
    let rgo = read_u64(b, o + 8);
    let rgl = read_u64(b, o + 16);
    let o2 = o + 24;
    if (nf as u128) * 42 != (fe - o2) as u128 {
        return Err(FormatError::CorruptPage);
    }
    if rows > usize::MAX as u64 {
        return Err(FormatError::CorruptPage);
    }
    if rgo > fs as u64 || rgl > (fs as u64) - rgo {
        return Err(FormatError::CorruptPage);
    }
    let nf_us = nf as usize;
    // column records
    let ghost msp = p_metas(b@, o2 as int, nf as nat);
    let mut metas: Vec<(u8, u64, u64)> = Vec::new();
    let mut q: usize = 0;
    while q < nf_us
        invariant
            q <= nf_us,
            nf_us == nf,
            o2 + 42 * nf_us == fe,
            fe <= blen,
            blen == b@.len(),
            msp == p_metas(b@, o2 as int, nf as nat),
            metas@.len() == q,
            forall|m: int| 0 <= m < q ==> metas@[m] == msp[m],
        decreases nf_us - q,
    {
        let eb = b[o2 + 42 * q];
        let poff = read_u64(b, o2 + 42 * q + 1);
        let plen = read_u64(b, o2 + 42 * q + 9);
        metas.push((eb, poff, plen));
        q = q + 1;
    }
    proof {
        assert(metas@ =~= msp);
    }
    Ok((fields, rows, rgo, rgl, metas))
}

/// Reads a finished file back into its schema and chunk, validating the
/// magic marker, the footer framing, and every page against the footer.
#[verifier::rlimit(100)]
#[verifier::loop_isolation(false)]
pub fn decode_file(b: &Vec<u8>) -> (r: Result<(Schema, Chunk), FormatError>)
    ensures
        (r is Ok) == (p_file(b@) is Some),
        r matches Ok(p) ==> p_file(b@) == Some((p.0@, p.1@)),
        b@.len() < 12 ==> r == Err::<(Schema, Chunk), FormatError>(
            FormatError::NotAFileOfThisFormat,
        ),
        b@.len() >= 12 && b@.subrange(b@.len() - 4, b@.len() as int) != magic() ==> r == Err::<
            (Schema, Chunk),
            FormatError,
        >(FormatError::NotAFileOfThisFormat),
{
    let blen: usize = b.len();
    let (fields, rows, rgo, rgl, metas) = match parse_footer(b) {
        Ok(p) => p,
        Err(e) => {
            return Err(e);
        },
    };
    proof {
        lemma_p_fields_len(b@, (b@.len() - 12 - le_val(
            b@.subrange(b@.len() - 12, b@.len() - 4),
        ) + 9) as int, le_val(
            b@.subrange(
                b@.len() - 12 - le_val(b@.subrange(b@.len() - 12, b@.len() - 4)) + 1,
                b@.len() - 12 - le_val(b@.subrange(b@.len() - 12, b@.len() - 4)) + 9,
            ),
        ));
    }
    let nf_us = fields.len();
    proof {
        assert(metas@.len() == fields.deep_view().len());
    }
    let rgo_us = rgo as usize;
    let mut columns: Vec<ColumnData> = Vec::new();
    let mut c: usize = 0;
    proof {
        assert(columns.deep_view() =~= Seq::<ColModel>::empty());
    }
    while c < nf_us
        invariant
            c <= nf_us,
            blen == b@.len(),
            nf_us == fields@.len(),
            fields.deep_view().len() == fields@.len(),
            metas@.len() == nf_us,
            rgo_us == rgo,
            rgo + rgl <= blen,
            p_footer(b@) == Some(
                (fields.deep_view(), rows as nat, rgo as nat, rgl as nat, metas@),
            ),
            p_cols(b@, fields.deep_view(), metas@, rgo as int, rgl as nat, rows as nat, c as nat)
                == Some(columns.deep_view()),
        decreases nf_us - c,
    {
        let m = metas[c];
        let f = &fields[c];
        let expected: u8 = match f.dtype {
            LogicalType::Utf8Dict => 0,
            LogicalType::UInt64 => 1,
        };
        proof {
            assert(fields.deep_view()[c as int] == fields@[c as int]@);
        }
        if m.0 != expected {
            proof {
                lemma_p_cols_stuck(
                    b@,
                    fields.deep_view(),
                    metas@,
                    rgo as int,
                    rgl as nat,
                    rows as nat,
                    c as nat,
                    nf_us as nat,
                );
            }
            return Err(FormatError::SchemaMismatch);
        }
        if m.1 > rgl || m.2 > rgl - m.1 {
            proof {
                lemma_p_cols_stuck(
                    b@,
                    fields.deep_view(),
                    metas@,
                    rgo as int,
                    rgl as nat,
                    rows as nat,
                    c as nat,
                    nf_us as nat,
                );
            }
            return Err(FormatError::CorruptPage);
        }
        let col = match decode_page(b, rgo_us + m.1 as usize, m.2 as usize, rows, f.dtype) {
            Ok(cd) => cd,
            Err(e) => {
                proof {
                    lemma_p_cols_stuck(
                        b@,
                        fields.deep_view(),
                        metas@,
                        rgo as int,
                        rgl as nat,
                        rows as nat,
                        c as nat,
                        nf_us as nat,
                    );
                }
                return Err(e);
            },
        };
        let ghost pre = columns.deep_view();
        let ghost cv = col.deep_view();
        columns.push(col);
        proof {
            assert(columns.deep_view() =~= pre.push(cv));
        }
        c = c + 1;
    }
    let schema = Schema { fields };
    let chunk = Chunk { rows: rows as usize, columns };
    proof {
        assert(p_file(b@) == Some((schema@, chunk@)));
    }
    Ok((schema, chunk))
}


pub proof fn lemma_fields_bytes_len(s: Seq<FieldModel>)
    ensures
        fields_bytes(s).len() >= 10 * s.len(),
    decreases s.len(),
{
    if s.len() > 0 {
        lemma_fields_bytes_len(s.drop_last());
        lemma_le_bytes_len(s.last().name.len(), 8);
    }
}

pub proof fn lemma_meta_bytes_len(sm: Seq<FieldModel>, cols: Seq<ColModel>, i: int)
    ensures
        meta_bytes(sm, cols, i).len() == 42,
{
    lemma_le_bytes_len(page_off(cols, i) as nat, 8);
    lemma_le_bytes_len(col_page(cols[i]).len(), 8);
    lemma_le_bytes_len(stats_of(cols[i]).null_count, 8);
    lemma_le_bytes_len(stats_of(cols[i]).min as nat, 8);
    lemma_le_bytes_len(stats_of(cols[i]).max as nat, 8);
}

pub proof fn lemma_metas_bytes_len(sm: Seq<FieldModel>, cols: Seq<ColModel>, k: nat)
    ensures
        metas_bytes(sm, cols, k).len() == 42 * k,
    decreases k,
{
    if k > 0 {
        lemma_metas_bytes_len(sm, cols, (k - 1) as nat);
        lemma_meta_bytes_len(sm, cols, k - 1);
    }
}

pub proof fn lemma_metas_bytes_index(sm: Seq<FieldModel>, cols: Seq<ColModel>, k: nat, i: int)
    requires
        0 <= i < k,
    ensures
        metas_bytes(sm, cols, k).subrange(42 * i, 42 * i + 42) == meta_bytes(sm, cols, i),
    decreases k,
{
    lemma_metas_bytes_len(sm, cols, k);
    lemma_meta_bytes_len(sm, cols, i);
    if i == k - 1 {
        lemma_metas_bytes_len(sm, cols, (k - 1) as nat);
        assert(metas_bytes(sm, cols, k).subrange(42 * i, 42 * i + 42) =~= meta_bytes(
            sm,
            cols,
            i,
        ));
    } else {
        lemma_metas_bytes_index(sm, cols, (k - 1) as nat, i);
        lemma_metas_bytes_len(sm, cols, (k - 1) as nat);
        assert(metas_bytes(sm, cols, k).subrange(42 * i, 42 * i + 42) =~= metas_bytes(
            sm,
            cols,
            (k - 1) as nat,
        ).subrange(42 * i, 42 * i + 42));
    }
}

/// The next page starts where the previous one ends.
pub proof fn lemma_page_off_succ(cols: Seq<ColModel>, i: int)
    requires
        0 <= i < cols.len(),
    ensures
        page_off(cols, i + 1) == page_off(cols, i) + col_page(cols[i]).len(),
{
    assert(cols.take(i + 1).drop_last() =~= cols.take(i));
    assert(cols.take(i + 1).last() == cols[i]);
}

/// Every page offset lies within the row group.
pub proof fn lemma_page_off_le(cols: Seq<ColModel>, i: int)
    requires
        0 <= i <= cols.len(),
    ensures
        page_off(cols, i) <= rg_bytes(cols).len(),
    decreases cols.len() - i,
{
    if i == cols.len() {
        assert(cols.take(i) =~= cols);
    } else {
        lemma_page_off_succ(cols, i);
        lemma_page_off_le(cols, i + 1);
    }
}

/// The row group holds each column's page at its recorded offset.
pub proof fn lemma_rg_index(cols: Seq<ColModel>, i: int)
    requires
        0 <= i < cols.len(),
    ensures
        rg_bytes(cols).subrange(page_off(cols, i), page_off(cols, i) + col_page(cols[i]).len())
            == col_page(cols[i]),
    decreases cols.len(),
{
    if i == cols.len() - 1 {
        assert(cols.take(i) =~= cols.drop_last().take(i));
        assert(page_off(cols, i) == rg_bytes(cols.drop_last()).len()) by {
            assert(cols.take(i) =~= cols.drop_last());
        }
        assert(rg_bytes(cols).subrange(
            page_off(cols, i),
            page_off(cols, i) + col_page(cols[i]).len(),
        ) =~= col_page(cols[i]));
    } else {
        lemma_rg_index(cols.drop_last(), i);
        assert(cols.drop_last().take(i) =~= cols.take(i));
        assert(cols.drop_last().take(i + 1) =~= cols.take(i + 1));
        assert(page_off(cols.drop_last(), i) == page_off(cols, i));
        lemma_page_off_succ(cols, i);
        lemma_page_off_le(cols.drop_last(), i + 1);
        assert(page_off(cols.drop_last(), i + 1) == page_off(cols, i + 1));
        assert(rg_bytes(cols).subrange(page_off(cols, i), page_off(cols, i) + col_page(
            cols[i],
        ).len()) =~= rg_bytes(cols.drop_last()).subrange(
            page_off(cols, i),
            page_off(cols, i) + col_page(cols[i]).len(),
        ));
    }
}

/// Parsing the serialized schema gives the schema back.
pub proof fn lemma_p_fields_round_trip(b: Seq<u8>, off: int, sm: Seq<FieldModel>)
    requires
        0 <= off,
        b.len() < 0x10000000000000000,
        off + fields_bytes(sm).len() <= b.len(),
        b.subrange(off, off + fields_bytes(sm).len()) == fields_bytes(sm),
    ensures
        p_fields(b, off, sm.len()) == Some((sm, off + fields_bytes(sm).len())),
    decreases sm.len(),
{
    if sm.len() == 0 {
        assert(sm =~= Seq::<FieldModel>::empty());
    } else {
        let sl = sm.drop_last();
        let f = sm.last();
        let fbs = fields_bytes(sm);
        let f1 = fields_bytes(sl);
        let nl = f.name.len() as int;
        lemma_le_bytes_len(f.name.len(), 8);
        assert(fbs.len() == f1.len() + 10 + nl);
        crate::page::lemma_seg(b, off, fbs, 0, f1.len() as int);
        assert(fbs.subrange(0, f1.len() as int) =~= f1);
        lemma_p_fields_round_trip(b, off, sl);
        let o = off + f1.len();
        crate::page::lemma_seg(b, off, fbs, f1.len() as int, f1.len() as int + 8);
        assert(fbs.subrange(f1.len() as int, f1.len() as int + 8) =~= enc64(f.name.len()));
        lemma_pow256_values();
        lemma_le_round_trip(f.name.len(), 8);
        assert(le_val(b.subrange(o, o + 8)) == f.name.len());
        crate::page::lemma_seg(b, off, fbs, f1.len() as int + 8, f1.len() as int + 8 + nl);
        assert(fbs.subrange(f1.len() as int + 8, f1.len() as int + 8 + nl) =~= f.name);
        crate::page::lemma_seg_byte(b, off, fbs, f1.len() as int + 8 + nl);
        assert(fbs[f1.len() as int + 8 + nl] == type_tag(f.dtype));
        crate::page::lemma_seg_byte(b, off, fbs, f1.len() as int + 8 + nl + 1);
        assert(fbs[f1.len() as int + 8 + nl + 1] == if f.nullable { 1u8 } else { 0u8 });
        let parsed = p_field(b, o)->Some_0.0;
        assert(parsed.name == f.name);
        assert(parsed.dtype == f.dtype);
        assert(parsed.nullable == f.nullable);
        assert(parsed == f);
        assert(sl.push(f) =~= sm);
    }
}

/// Parsing every page against the footer records gives the columns back.
#[verifier::rlimit(100)]
#[verifier::spinoff_prover]
pub proof fn lemma_p_cols_round_trip(
    b: Seq<u8>,
    sm: Seq<FieldModel>,
    cm: ChunkModel,
    ms: Seq<(u8, u64, u64)>,
    k: nat,
)
    requires
        wf_chunk(sm, cm),
        b.len() < 0x10000000000000000,
        rg_bytes(cm.cols).len() <= b.len(),
        b.subrange(0, rg_bytes(cm.cols).len() as int) == rg_bytes(cm.cols),
        ms.len() == cm.cols.len(),
        forall|i: int|
            0 <= i < cm.cols.len() ==> #[trigger] ms[i] == (
                enc_tag(sm[i].dtype),
                page_off(cm.cols, i) as u64,
                col_page(cm.cols[i]).len() as u64,
            ),
        k <= cm.cols.len(),
    ensures
        p_cols(b, sm, ms, 0, rg_bytes(cm.cols).len(), cm.rows, k) == Some(cm.cols.take(k as int)),
    decreases k,
{
    let cols = cm.cols;
    let rgl = rg_bytes(cols).len();
    if k == 0 {
        assert(cols.take(0) =~= Seq::<ColModel>::empty());
    } else {
        lemma_p_cols_round_trip(b, sm, cm, ms, (k - 1) as nat);
        let i = k - 1;
        lemma_page_off_le(cols, i as int);
        lemma_page_off_succ(cols, i as int);
        lemma_page_off_le(cols, i + 1);
        let po = page_off(cols, i as int);
        let pl = col_page(cols[i as int]).len() as int;
        assert(ms[i as int].1 as int == po);
        assert(ms[i as int].2 as int == pl);
        assert(ms[i as int].1 + ms[i as int].2 <= rgl);
        lemma_rg_index(cols, i as int);
        crate::page::lemma_seg(b, 0, rg_bytes(cols), po, po + pl);
        assert(b.subrange(po, po + pl) == col_page(cols[i as int]));
        crate::page::lemma_page_round_trip(b, po, sm[i as int].dtype, cols[i as int]);
        assert(col_len(cols[i as int]) == cm.rows);
        assert(p_page(b, 0 + ms[i as int].1, ms[i as int].2 as int, cm.rows, sm[i as int].dtype)
            == Some(cols[i as int]));
        assert(cols.take(i as int).push(cols[i as int]) =~= cols.take(k as int));
    }
}

/// One serialized column record parses back to its recorded values.
#[verifier::rlimit(100)]
#[verifier::spinoff_prover]
pub proof fn lemma_p_meta_at(b: Seq<u8>, o2: int, sm: Seq<FieldModel>, cols: Seq<ColModel>, i: int)
    requires
        0 <= o2,
        0 <= i < cols.len(),
        sm.len() == cols.len(),
        b.len() < 0x10000000000000000,
        rg_bytes(cols).len() < 0x10000000000000000,
        o2 + 42 * cols.len() <= b.len(),
        b.subrange(o2, o2 + 42 * cols.len()) == metas_bytes(sm, cols, cols.len()),
    ensures
        p_metas(b, o2, sm.len())[i] == (
            enc_tag(sm[i].dtype),
            page_off(cols, i) as u64,
            col_page(cols[i]).len() as u64,
        ),
{
    lemma_metas_bytes_len(sm, cols, cols.len());
    lemma_metas_bytes_index(sm, cols, cols.len(), i);
    lemma_meta_bytes_len(sm, cols, i);
    crate::page::lemma_seg(b, o2, metas_bytes(sm, cols, cols.len()), 42 * i, 42 * i + 42);
    let mb = meta_bytes(sm, cols, i);
    assert(b.subrange(o2 + 42 * i, o2 + 42 * i + 42) == mb);
    lemma_page_off_le(cols, i);
    lemma_page_off_succ(cols, i);
    lemma_page_off_le(cols, i + 1);
    lemma_le_bytes_len(page_off(cols, i) as nat, 8);
    lemma_le_bytes_len(col_page(cols[i]).len(), 8);
    lemma_pow256_values();
    crate::page::lemma_seg_byte(b, o2 + 42 * i, mb, 0);
    assert(mb[0] == enc_tag(sm[i].dtype));
    crate::page::lemma_seg(b, o2 + 42 * i, mb, 1, 9);
    assert(mb.subrange(1, 9) =~= enc64(page_off(cols, i) as nat));
    lemma_le_round_trip(page_off(cols, i) as nat, 8);
    crate::page::lemma_seg(b, o2 + 42 * i, mb, 9, 17);
    assert(mb.subrange(9, 17) =~= enc64(col_page(cols[i]).len()));
    lemma_le_round_trip(col_page(cols[i]).len(), 8);
}

/// The serialized column records parse back to their recorded values.
#[verifier::spinoff_prover]
pub proof fn lemma_p_metas_round_trip(b: Seq<u8>, o2: int, sm: Seq<FieldModel>, cols: Seq<ColModel>)
    requires
        0 <= o2,
        sm.len() == cols.len(),
        b.len() < 0x10000000000000000,
        rg_bytes(cols).len() < 0x10000000000000000,
        o2 + 42 * cols.len() <= b.len(),
        b.subrange(o2, o2 + 42 * cols.len()) == metas_bytes(sm, cols, cols.len()),
    ensures
        forall|i: int|
            0 <= i < cols.len() ==> #[trigger] p_metas(b, o2, sm.len())[i] == (
                enc_tag(sm[i].dtype),
                page_off(cols, i) as u64,
                col_page(cols[i]).len() as u64,
            ),
{
    assert forall|i: int| 0 <= i < cols.len() implies #[trigger] p_metas(b, o2, sm.len())[i] == (
        enc_tag(sm[i].dtype),
        page_off(cols, i) as u64,
        col_page(cols[i]).len() as u64,
    ) by {
        lemma_p_meta_at(b, o2, sm, cols, i);
    }
}

/// The framing and footer of an encoded file parse back exactly.
#[verifier::rlimit(100)]
#[verifier::spinoff_prover]
pub proof fn lemma_p_footer_round_trip(sm: Seq<FieldModel>, cm: ChunkModel)
    requires
        wf_schema(sm),
        wf_chunk(sm, cm),
        file_bytes(sm, cm).len() < 0x10000000000000000,
        cm.rows <= usize::MAX,
    ensures
        p_footer(file_bytes(sm, cm)) == Some(
            (
                sm,
                cm.rows,
                0nat,
                rg_bytes(cm.cols).len(),
                p_metas(
                    file_bytes(sm, cm),
                    rg_bytes(cm.cols).len() + 33 + fields_bytes(sm).len() as int,
                    sm.len(),
                ),
            ),
        ),
{
    let b = file_bytes(sm, cm);
    let fb = footer_bytes(sm, cm);
    let rg = rg_bytes(cm.cols);
    let cols = cm.cols;
    let n = sm.len() as int;
    let fbl = fields_bytes(sm).len() as int;
    lemma_le_bytes_len(fb.len(), 8);
    lemma_le_bytes_len(sm.len(), 8);
    lemma_le_bytes_len(cm.rows, 8);
    lemma_le_bytes_len(0, 8);
    lemma_le_bytes_len(rg.len(), 8);
    lemma_metas_bytes_len(sm, cols, cols.len());
    lemma_fields_bytes_len(sm);
    assert(fb.len() == 33 + fbl + 42 * n);
    assert(b.len() == rg.len() + fb.len() + 12);
    // magic and footer length
    assert(b.subrange(b.len() - 4, b.len() as int) =~= magic());
    assert(b.subrange(b.len() - 12, b.len() - 4) =~= enc64(fb.len()));
    lemma_pow256_values();
    lemma_le_round_trip(fb.len(), 8);
    let fs = b.len() - 12 - fb.len();
    let fe = b.len() - 12;
    assert(fs == rg.len());
    // the footer region
    assert(b.subrange(fs, fe) =~= fb);
    crate::page::lemma_seg_byte(b, fs, fb, 0);
    assert(fb[0] == 0u8);
    crate::page::lemma_seg(b, fs, fb, 1, 9);
    assert(fb.subrange(1, 9) =~= enc64(sm.len()));
    lemma_le_round_trip(sm.len(), 8);
    // fields
    crate::page::lemma_seg(b, fs, fb, 9, 9 + fbl);
    assert(fb.subrange(9, 9 + fbl) =~= fields_bytes(sm));
    lemma_p_fields_round_trip(b, fs + 9, sm);
    let o1 = fs + 9 + fbl;
    // row count and row-group range
    crate::page::lemma_seg(b, fs, fb, 9 + fbl, 17 + fbl);
    assert(fb.subrange(9 + fbl, 17 + fbl) =~= enc64(cm.rows));
    lemma_le_round_trip(cm.rows, 8);
    crate::page::lemma_seg(b, fs, fb, 17 + fbl, 25 + fbl);
    assert(fb.subrange(17 + fbl, 25 + fbl) =~= enc64(0));
    lemma_le_round_trip(0, 8);
    crate::page::lemma_seg(b, fs, fb, 25 + fbl, 33 + fbl);
    assert(fb.subrange(25 + fbl, 33 + fbl) =~= enc64(rg.len()));
    lemma_le_round_trip(rg.len(), 8);
    let o2 = o1 + 24;
    assert(o2 + 42 * n == fe);
    assert(o2 == rg.len() + 33 + fbl);
}

/// Round trip: decoding an encoded file yields exactly the schema and chunk
/// that were written, for every schema and conforming chunk.
#[verifier::rlimit(100)]
#[verifier::spinoff_prover]
pub proof fn lemma_file_round_trip(sm: Seq<FieldModel>, cm: ChunkModel)
    requires
        wf_schema(sm),
        wf_chunk(sm, cm),
        file_bytes(sm, cm).len() < 0x10000000000000000,
        cm.rows <= usize::MAX,
    ensures
        p_file(file_bytes(sm, cm)) == Some((sm, cm)),
{
    let b = file_bytes(sm, cm);
    let fb = footer_bytes(sm, cm);
    let rg = rg_bytes(cm.cols);
    let cols = cm.cols;
    let fbl = fields_bytes(sm).len() as int;
    lemma_p_footer_round_trip(sm, cm);
    let o2 = rg.len() + 33 + fbl;
    lemma_metas_bytes_len(sm, cols, cols.len());
    lemma_le_bytes_len(fb.len(), 8);
    lemma_le_bytes_len(sm.len(), 8);
    lemma_le_bytes_len(cm.rows, 8);
    lemma_le_bytes_len(0, 8);
    lemma_le_bytes_len(rg.len(), 8);
    assert(fb.len() == 33 + fbl + 42 * sm.len());
    assert(b.len() == rg.len() + fb.len() + 12);
    assert(b.subrange(rg.len() as int, b.len() - 12) =~= fb);
    crate::page::lemma_seg(b, rg.len() as int, fb, 33 + fbl, fb.len() as int);
    assert(fb.subrange(33 + fbl, fb.len() as int) =~= metas_bytes(sm, cols, cols.len()));
    lemma_p_metas_round_trip(b, o2 as int, sm, cols);
    let ms = p_metas(b, o2 as int, sm.len());
    assert(b.subrange(0, rg.len() as int) =~= rg);
    lemma_p_cols_round_trip(b, sm, cm, ms, cols.len());
    assert(cols.take(cols.len() as int) =~= cols);
    assert(ChunkModel { rows: cm.rows, cols: cm.cols } == cm);
    assert(p_file(b) == Some((sm, cm)));
}

} // verus!
