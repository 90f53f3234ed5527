//! The type/value model: logical column types, schemas, nullable columns and
//! chunks, their mathematical views, and per-column statistics.

use vstd::prelude::*;

verus! {

/// The logical column types the format supports.
#[derive(Clone, Copy, PartialEq, Eq, Structural, Debug)]
pub enum LogicalType {
    /// UTF8 byte strings, stored dictionary-encoded.
    Utf8Dict,
    /// Unsigned 64-bit integers, stored delta-encoded.
    UInt64,
}

/// The per-column physical encoding, chosen from the logical type alone.
#[derive(Clone, Copy, PartialEq, Eq, Structural, Debug)]
pub enum EncodingKind {
    RleDictionary,
    DeltaBinaryPacked,
}

/// The fixed selection rule from logical type to encoding.
pub open spec fn spec_encoding_for(t: LogicalType) -> EncodingKind {
    match t {
        LogicalType::Utf8Dict => EncodingKind::RleDictionary,
        LogicalType::UInt64 => EncodingKind::DeltaBinaryPacked,
    }
}

/// Returns the encoding used for columns of logical type `t`.
pub fn encoding_for(t: LogicalType) -> (r: EncodingKind)
    ensures
        r == spec_encoding_for(t),
{
    match t {
        LogicalType::Utf8Dict => EncodingKind::RleDictionary,
        LogicalType::UInt64 => EncodingKind::DeltaBinaryPacked,
    }
}

/// Decoding failures: each names the structural fault that was found.
#[derive(Clone, Copy, PartialEq, Eq, Structural, Debug)]
pub enum FormatError {
    /// A page's declared counts or shape disagree with its bytes.
    CorruptPage,
    /// The footer-declared type disagrees with the page shape found.
    SchemaMismatch,
    /// The magic marker or the footer framing is absent or truncated.
    NotAFileOfThisFormat,
    /// A dictionary index is not below the dictionary's size.
    IndexOutOfRange,
}

/// One column descriptor: name, logical type, nullability.
#[derive(Debug, Clone, PartialEq, Eq)]
pub struct Field {
    pub name: Vec<u8>,
    pub dtype: LogicalType,
    pub nullable: bool,
}

/// The mathematical view of a `Field`.
pub struct FieldModel {
    pub name: Seq<u8>,
    pub dtype: LogicalType,
    pub nullable: bool,
}

impl View for Field {
    type V = FieldModel;

    open spec fn view(&self) -> FieldModel {
        FieldModel { name: self.name@, dtype: self.dtype, nullable: self.nullable }
    }
}

impl DeepView for Field {
    type V = FieldModel;

    open spec fn deep_view(&self) -> FieldModel {
        self@
    }
}

/// An ordered sequence of fields with pairwise distinct names.
#[derive(Debug, Clone, PartialEq, Eq)]
pub struct Schema {
    pub fields: Vec<Field>,
}

impl View for Schema {
    type V = Seq<FieldModel>;

    open spec fn view(&self) -> Seq<FieldModel> {
        self.fields.deep_view()
    }
}

pub open spec fn wf_schema(s: Seq<FieldModel>) -> bool {
    forall|i: int, j: int| 0 <= i < j < s.len() ==> s[i].name != s[j].name
}

/// One materialized, nullable column.
#[derive(Debug, Clone, PartialEq, Eq)]
pub enum ColumnData {
    Utf8(Vec<Option<Vec<u8>>>),
    UInt64(Vec<Option<u64>>),
}

/// The mathematical view of a column.
pub enum ColModel {
    Utf8(Seq<Option<Seq<u8>>>),
    UInt64(Seq<Option<u64>>),
}

impl DeepView for ColumnData {
    type V = ColModel;

    open spec fn deep_view(&self) -> ColModel {
        match self {
            ColumnData::Utf8(v) => ColModel::Utf8(v.deep_view()),
            ColumnData::UInt64(v) => ColModel::UInt64(v.deep_view()),
        }
    }
}

impl View for ColumnData {
    type V = ColModel;

    open spec fn view(&self) -> ColModel {
        self.deep_view()
    }
}

pub open spec fn col_len(c: ColModel) -> nat {
    match c {
        ColModel::Utf8(s) => s.len(),
        ColModel::UInt64(s) => s.len(),
    }
}

pub open spec fn col_matches(t: LogicalType, c: ColModel) -> bool {
    match c {
        ColModel::Utf8(_) => t == LogicalType::Utf8Dict,
        ColModel::UInt64(_) => t == LogicalType::UInt64,
    }
}

/// One batch of columns sharing one row count.
#[derive(Debug, Clone, PartialEq, Eq)]
pub struct Chunk {
    pub rows: usize,
    pub columns: Vec<ColumnData>,
}

/// The mathematical view of a `Chunk`.
pub struct ChunkModel {
    pub rows: nat,
    pub cols: Seq<ColModel>,
}

impl View for Chunk {
    type V = ChunkModel;

    open spec fn view(&self) -> ChunkModel {
        ChunkModel { rows: self.rows as nat, cols: self.columns.deep_view() }
    }
}

/// A chunk conforms to a schema: one column per field, of the field's type,
/// all of the shared row count (which fits the format's 64-bit counters).
pub open spec fn wf_chunk(sm: Seq<FieldModel>, cm: ChunkModel) -> bool {
    &&& cm.cols.len() == sm.len()
    &&& cm.rows < 0x10000000000000000
    &&& forall|i: int|
        0 <= i < sm.len() ==> col_matches(sm[i].dtype, #[trigger] cm.cols[i]) && col_len(cm.cols[i])
            == cm.rows
}

/// The bit-per-row presence flags of a column: true where a value is set.
pub open spec fn validity_of<T>(s: Seq<Option<T>>) -> Seq<bool> {
    Seq::new(s.len(), |i: int| s[i] is Some)
}

/// The valid (non-null) values of a column, in row order.
pub open spec fn valids<T>(s: Seq<Option<T>>) -> Seq<T>
    decreases s.len(),
{
    if s.len() == 0 {
        Seq::empty()
    } else if s.last() is Some {
        valids(s.drop_last()).push(s.last()->0)
    } else {
        valids(s.drop_last())
    }
}

/// The number of invalid (null) slots of a column.
pub open spec fn null_count_of<T>(s: Seq<Option<T>>) -> nat
    decreases s.len(),
{
    if s.len() == 0 {
        0nat
    } else {
        null_count_of(s.drop_last()) + if s.last() is Some {
            0nat
        } else {
            1nat
        }
    }
}

/// Null slots and valid slots partition the rows.
pub proof fn lemma_valids_null_count<T>(s: Seq<Option<T>>)
    ensures
        valids(s).len() + null_count_of(s) == s.len(),
    decreases s.len(),
{
    if s.len() > 0 {
        lemma_valids_null_count(s.drop_last());
    }
}

/// The number of set flags.
pub open spec fn count_true(v: Seq<bool>) -> nat
    decreases v.len(),
{
    if v.len() == 0 {
        0nat
    } else {
        count_true(v.drop_last()) + if v.last() {
            1nat
        } else {
            0nat
        }
    }
}

pub proof fn lemma_count_true_validity<T>(s: Seq<Option<T>>)
    ensures
        count_true(validity_of(s)) == valids(s).len(),
    decreases s.len(),
{
    if s.len() > 0 {
        assert(validity_of(s).drop_last() =~= validity_of(s.drop_last()));
        lemma_count_true_validity(s.drop_last());
    }
}

/// A prefix never has more set flags than the whole.
pub proof fn lemma_count_true_prefix(v: Seq<bool>, i: int)
    requires
        0 <= i <= v.len(),
    ensures
        count_true(v.take(i)) <= count_true(v),
    decreases v.len(),
{
    if i == v.len() {
        assert(v.take(i) =~= v);
    } else {
        assert(v.drop_last().take(i) =~= v.take(i));
        lemma_count_true_prefix(v.drop_last(), i);
    }
}

/// No element exceeds the maximum.
pub proof fn lemma_max_of_ge(s: Seq<u64>)
    ensures
        forall|i: int| 0 <= i < s.len() ==> s[i] <= max_of(s),
    decreases s.len(),
{
    if s.len() > 1 {
        lemma_max_of_ge(s.drop_last());
        assert forall|i: int| 0 <= i < s.len() implies s[i] <= max_of(s) by {
            if i < s.len() - 1 {
                assert(s.drop_last()[i] == s[i]);
            }
        }
    }
}

/// Rebuilds a column from presence flags and the valid values in row order.
pub open spec fn reassemble<T>(v: Seq<bool>, vals: Seq<T>) -> Seq<Option<T>>
    decreases v.len(),
{
    if v.len() == 0 {
        Seq::empty()
    } else if v.last() {
        reassemble(v.drop_last(), vals.drop_last()).push(Some(vals.last()))
    } else {
        reassemble(v.drop_last(), vals).push(None)
    }
}

/// Splitting a column into flags and valid values, then rebuilding it, is exact.
pub proof fn lemma_reassemble_round_trip<T>(s: Seq<Option<T>>)
    ensures
        reassemble(validity_of(s), valids(s)) == s,
    decreases s.len(),
{
    if s.len() == 0 {
        assert(reassemble(validity_of(s), valids(s)) =~= s);
    } else {
        assert(validity_of(s).drop_last() =~= validity_of(s.drop_last()));
        lemma_reassemble_round_trip(s.drop_last());
        if s.last() is Some {
            assert(valids(s).drop_last() =~= valids(s.drop_last()));
            assert(reassemble(validity_of(s), valids(s)) =~= s);
        } else {
            assert(reassemble(validity_of(s), valids(s)) =~= s);
        }
    }
}

/// The least element of a non-empty sequence (0 on an empty one).
pub open spec fn min_of(s: Seq<u64>) -> u64
    decreases s.len(),
{
    if s.len() == 0 {
        0u64
    } else if s.len() == 1 {
        s[0]
    } else if s.last() < min_of(s.drop_last()) {
        s.last()
    } else {
        min_of(s.drop_last())
    }
}

/// The greatest element of a non-empty sequence (0 on an empty one).
pub open spec fn max_of(s: Seq<u64>) -> u64
    decreases s.len(),
{
    if s.len() == 0 {
        0u64
    } else if s.len() == 1 {
        s[0]
    } else if s.last() > max_of(s.drop_last()) {
        s.last()
    } else {
        max_of(s.drop_last())
    }
}

/// The statistics the footer records for one column.
pub struct StatsModel {
    pub null_count: nat,
    pub has_minmax: bool,
    pub min: u64,
    pub max: u64,
}

/// Statistics consider valid values only; null_count counts the invalid rows.
pub open spec fn stats_of(c: ColModel) -> StatsModel {
    match c {
        ColModel::Utf8(s) => StatsModel {
            null_count: null_count_of(s),
            has_minmax: false,
            min: 0,
            max: 0,
        },
        ColModel::UInt64(s) => {
            let vs = valids(s);
            if vs.len() == 0 {
                StatsModel { null_count: null_count_of(s), has_minmax: false, min: 0, max: 0 }
            } else {
                StatsModel {
                    null_count: null_count_of(s),
                    has_minmax: true,
                    min: min_of(vs),
                    max: max_of(vs),
                }
            }
        },
    }
}

/// Per-column statistics as computed by the writer.
#[derive(Debug, Clone, PartialEq, Eq)]
pub struct ColumnStats {
    pub null_count: u64,
    pub minmax: Option<(u64, u64)>,
}

/// Computes a column's statistics by one pass over its source values.
pub fn column_stats(c: &ColumnData) -> (r: ColumnStats)
    ensures
        r.null_count as nat == stats_of(c.deep_view()).null_count,
        (r.minmax is Some) == stats_of(c.deep_view()).has_minmax,
        r.minmax matches Some(mm) ==> mm.0 == stats_of(c.deep_view()).min && mm.1 == stats_of(
            c.deep_view(),
        ).max,
{
    match c {
        ColumnData::Utf8(v) => {
            let ghost dv = v.deep_view();
            let mut nulls: u64 = 0;
            let mut i: usize = 0;
            proof {
                assert(dv.take(0) =~= Seq::<Option<Seq<u8>>>::empty());
            }
            while i < v.len()
                invariant
                    i <= v@.len(),
                    dv == v.deep_view(),
                    dv.len() == v@.len(),
                    nulls as nat == null_count_of(dv.take(i as int)),
                    nulls <= i,
                decreases v@.len() - i,
            {
                proof {
                    assert(dv.take(i + 1).drop_last() =~= dv.take(i as int));
                    assert(dv.take(i + 1).last() == dv[i as int]);
                }
                if v[i].is_none() {
                    nulls = nulls + 1;
                }
                i = i + 1;
            }
            proof {
                assert(dv.take(dv.len() as int) =~= dv);
            }
            ColumnStats { null_count: nulls, minmax: None }
        },
        ColumnData::UInt64(v) => {
            let ghost dv = v.deep_view();
            proof {
                assert(dv =~= v@);
            }
            let mut nulls: u64 = 0;
            let mut minmax: Option<(u64, u64)> = None;
            let mut i: usize = 0;
            proof {
                assert(dv.take(0) =~= Seq::<Option<u64>>::empty());
            }
            while i < v.len()
                invariant
                    i <= v@.len(),
                    dv == v.deep_view(),
                    dv =~= v@,
                    dv.len() == v@.len(),
                    nulls as nat == null_count_of(dv.take(i as int)),
                    nulls <= i,
                    (minmax is Some) == (valids(dv.take(i as int)).len() > 0),
                    minmax matches Some(mm) ==> mm.0 == min_of(valids(dv.take(i as int)))
                        && mm.1 == max_of(valids(dv.take(i as int))),
                decreases v@.len() - i,
            {
                proof {
                    assert(dv.take(i + 1).drop_last() =~= dv.take(i as int));
                    assert(dv.take(i + 1).last() == dv[i as int]);
                }
                match v[i] {
                    None => {
                        nulls = nulls + 1;
                    },
                    Some(x) => {
                        proof {
                            assert(valids(dv.take(i + 1)) == valids(dv.take(i as int)).push(x));
                            assert(valids(dv.take(i + 1)).drop_last() =~= valids(
                                dv.take(i as int),
                            ));
                        }
                        match minmax {
                            None => {
                                minmax = Some((x, x));
                            },
                            Some(mm) => {
                                let mn = if x < mm.0 {
                                    x
                                } else {
                                    mm.0
                                };
                                let mx = if x > mm.1 {
                                    x
                                } else {
                                    mm.1
                                };
                                minmax = Some((mn, mx));
                            },
                        }
                    },
                }
                i = i + 1;
            }
            proof {
                assert(dv.take(dv.len() as int) =~= dv);
            }
            ColumnStats { null_count: nulls, minmax }
        },
    }
}


/// The presence flags of a column, whichever its type.
pub open spec fn col_validity(c: ColModel) -> Seq<bool> {
    match c {
        ColModel::Utf8(s) => validity_of(s),
        ColModel::UInt64(s) => validity_of(s),
    }
}

/// One materialized value.
#[derive(Debug, Clone, PartialEq, Eq)]
pub enum Value {
    Utf8(Vec<u8>),
    UInt64(u64),
}

/// The value in one slot of a column, as a `Value` view.
pub open spec fn col_slot(c: ColModel, row: int) -> Option<ValueModel> {
    match c {
        ColModel::Utf8(s) => match s[row] {
            Some(v) => Some(ValueModel::Utf8(v)),
            None => None,
        },
        ColModel::UInt64(s) => match s[row] {
            Some(v) => Some(ValueModel::UInt64(v)),
            None => None,
        },
    }
}

/// The mathematical view of a `Value`.
pub enum ValueModel {
    Utf8(Seq<u8>),
    UInt64(u64),
}

impl View for Value {
    type V = ValueModel;

    open spec fn view(&self) -> ValueModel {
        match self {
            Value::Utf8(v) => ValueModel::Utf8(v@),
            Value::UInt64(v) => ValueModel::UInt64(*v),
        }
    }
}

impl ColumnData {
    /// The column's row count.
    pub fn len(&self) -> (r: usize)
        ensures
            r == col_len(self.deep_view()),
    {
        match self {
            ColumnData::Utf8(v) => v.len(),
            ColumnData::UInt64(v) => v.len(),
        }
    }

    /// The bit-per-row presence flags: true where a value is set.
    pub fn validity(&self) -> (r: Vec<bool>)
        ensures
            r@ == col_validity(self.deep_view()),
    {
        match self {
            ColumnData::Utf8(v) => {
                let ghost dv = v.deep_view();
                let mut out: Vec<bool> = Vec::new();
                let mut i: usize = 0;
                proof {
                    assert(out@ =~= validity_of(dv).take(0));
                }
                while i < v.len()
                    invariant
                        i <= v@.len(),
                        dv == v.deep_view(),
                        dv.len() == v@.len(),
                        out@ == validity_of(dv).take(i as int),
                    decreases v@.len() - i,
                {
                    out.push(v[i].is_some());
                    proof {
                        assert(validity_of(dv).take(i as int).push(validity_of(dv)[i as int]) =~=
                            validity_of(dv).take(i + 1));
                    }
                    i = i + 1;
                }
                proof {
                    assert(validity_of(dv).take(dv.len() as int) =~= validity_of(dv));
                }
                out
            },
            ColumnData::UInt64(v) => {
                let ghost dv = v.deep_view();
                proof {
                    assert(dv =~= v@);
                }
                let mut out: Vec<bool> = Vec::new();
                let mut i: usize = 0;
                proof {
                    assert(out@ =~= validity_of(dv).take(0));
                }
                while i < v.len()
                    invariant
                        i <= v@.len(),
                        dv == v.deep_view(),
                        dv.len() == v@.len(),
                        out@ == validity_of(dv).take(i as int),
                    decreases v@.len() - i,
                {
                    out.push(v[i].is_some());
                    proof {
                        assert(validity_of(dv).take(i as int).push(validity_of(dv)[i as int]) =~=
                            validity_of(dv).take(i + 1));
                    }
                    i = i + 1;
                }
                proof {
                    assert(validity_of(dv).take(dv.len() as int) =~= validity_of(dv));
                }
                out
            },
        }
    }

    /// The value in `row`, or nothing when the slot is null.
    pub fn value_at(&self, row: usize) -> (r: Option<Value>)
        requires
            row < col_len(self.deep_view()),
        ensures
            (r is Some) == (col_slot(self.deep_view(), row as int) is Some),
            r matches Some(v) ==> col_slot(self.deep_view(), row as int) == Some(v@),
    {
        match self {
            ColumnData::Utf8(v) => match &v[row] {
                Some(bs) => {
                    let c = crate::codec::clone_bytes(bs);
                    proof {
                        assert(bs.deep_view() =~= bs@);
                        assert(v.deep_view()[row as int] == v@[row as int].deep_view());
                    }
                    Some(Value::Utf8(c))
                },
                None => None,
            },
            ColumnData::UInt64(v) => match v[row] {
                Some(x) => Some(Value::UInt64(x)),
                None => None,
            },
        }
    }
}

} // verus!
