//! Value-level codecs: first-seen-order dictionaries, run-length encoding of
//! index sequences, and wrapping-difference delta encoding, each with an exact
//! round-trip proof.

use vstd::prelude::*;
use vstd::arithmetic::div_mod::{
    lemma_fundamental_div_mod, lemma_mod_add_multiples_vanish, lemma_small_mod,
};
use vstd::arithmetic::power::{pow, lemma_pow_multiplies, lemma_pow_increases};
use vstd::arithmetic::power2::{pow2, lemma_pow2, lemma_pow2_adds, lemma_pow2_unfold, lemma2_to64};
use crate::model::{max_of, FormatError};

verus! {

/// The deduplicated distinct values of `s`, in first-seen order.
pub open spec fn dict_of(s: Seq<Seq<u8>>) -> Seq<Seq<u8>>
    decreases s.len(),
{
    if s.len() == 0 {
        Seq::empty()
    } else {
        let d = dict_of(s.drop_last());
        if d.contains(s.last()) {
            d
        } else {
            d.push(s.last())
        }
    }
}

/// The first position of `v` in `d` (its length when absent).
pub open spec fn dict_index(d: Seq<Seq<u8>>, v: Seq<u8>) -> int
    decreases d.len(),
{
    if d.len() == 0 {
        0
    } else if d[0] == v {
        0
    } else {
        1 + dict_index(d.drop_first(), v)
    }
}

/// The dictionary index of each value of `s`, in row order.
pub open spec fn indices_of(s: Seq<Seq<u8>>) -> Seq<u64> {
    Seq::new(s.len(), |i: int| dict_index(dict_of(s), s[i]) as u64)
}

pub proof fn lemma_dict_contains(s: Seq<Seq<u8>>)
    ensures
        forall|x: Seq<u8>| #[trigger] dict_of(s).contains(x) <==> s.contains(x),
    decreases s.len(),
{
    if s.len() > 0 {
        lemma_dict_contains(s.drop_last());
        let d = dict_of(s.drop_last());
        assert forall|x: Seq<u8>| #[trigger] dict_of(s).contains(x) <==> s.contains(x) by {
            assert(s.contains(x) <==> (s.drop_last().contains(x) || x == s.last())) by {
                if s.contains(x) {
                    let i = choose|i: int| 0 <= i < s.len() && s[i] == x;
                    if i < s.len() - 1 {
                        assert(s.drop_last()[i] == x);
                    }
                }
                if s.drop_last().contains(x) {
                    let i = choose|i: int|
                        0 <= i < s.drop_last().len() && s.drop_last()[i] == x;
                    assert(s[i] == x);
                }
                if x == s.last() {
                    assert(s[s.len() - 1] == x);
                }
            }
            if !d.contains(s.last()) {
                assert(dict_of(s).contains(x) <==> (d.contains(x) || x == s.last())) by {
                    if dict_of(s).contains(x) {
                        let i = choose|i: int| 0 <= i < dict_of(s).len() && dict_of(s)[i] == x;
                        if i < d.len() {
                            assert(d[i] == x);
                        }
                    }
                    if d.contains(x) {
                        let i = choose|i: int| 0 <= i < d.len() && d[i] == x;
                        assert(dict_of(s)[i] == x);
                    }
                    if x == s.last() {
                        assert(dict_of(s)[d.len() as int] == x);
                    }
                }
            }
        }
    }
}

pub proof fn lemma_dict_index_correct(d: Seq<Seq<u8>>, v: Seq<u8>)
    requires
        d.contains(v),
    ensures
        0 <= dict_index(d, v) < d.len(),
        d[dict_index(d, v)] == v,
    decreases d.len(),
{
    if d[0] != v {
        let i = choose|i: int| 0 <= i < d.len() && d[i] == v;
        assert(d.drop_first()[i - 1] == v);
        assert(d.drop_first().contains(v));
        lemma_dict_index_correct(d.drop_first(), v);
    }
}

pub proof fn lemma_dict_index_append(d: Seq<Seq<u8>>, e: Seq<Seq<u8>>, v: Seq<u8>)
    requires
        d.contains(v),
    ensures
        dict_index(d + e, v) == dict_index(d, v),
    decreases d.len(),
{
    if d[0] == v {
        assert((d + e)[0] == v);
    } else {
        let i = choose|i: int| 0 <= i < d.len() && d[i] == v;
        assert(d.drop_first()[i - 1] == v);
        assert(d.drop_first().contains(v));
        assert((d + e).drop_first() =~= d.drop_first() + e);
        assert((d + e)[0] == d[0]);
        lemma_dict_index_append(d.drop_first(), e, v);
    }
}

pub proof fn lemma_dict_index_first(d: Seq<Seq<u8>>, j: int, v: Seq<u8>)
    requires
        0 <= j < d.len(),
        d[j] == v,
        forall|m: int| 0 <= m < j ==> d[m] != v,
    ensures
        dict_index(d, v) == j,
    decreases j,
{
    if j > 0 {
        assert(d[0] != v);
        assert(d.drop_first()[j - 1] == v);
        lemma_dict_index_first(d.drop_first(), j - 1, v);
    }
}

pub proof fn lemma_dict_index_push_new(d: Seq<Seq<u8>>, v: Seq<u8>)
    requires
        !d.contains(v),
    ensures
        dict_index(d.push(v), v) == d.len(),
    decreases d.len(),
{
    if d.len() == 0 {
        assert(d.push(v)[0] == v);
    } else {
        assert(d[0] == d.push(v)[0]);
        if d.push(v)[0] == v {
            assert(d.contains(v));
        }
        assert(d.push(v).drop_first() =~= d.drop_first().push(v));
        if d.drop_first().contains(v) {
            let i = choose|i: int| 0 <= i < d.drop_first().len() && d.drop_first()[i] == v;
            assert(d[i + 1] == v);
            assert(d.contains(v));
        }
        lemma_dict_index_push_new(d.drop_first(), v);
    }
}

/// `dict_of` of a prefix is a prefix of `dict_of` of the whole.
pub proof fn lemma_dict_prefix(s: Seq<Seq<u8>>, i: int)
    requires
        0 <= i <= s.len(),
    ensures
        exists|e: Seq<Seq<u8>>| dict_of(s) == dict_of(s.take(i)) + e,
    decreases s.len(),
{
    if i == s.len() {
        assert(s.take(i) =~= s);
        assert(dict_of(s) =~= dict_of(s.take(i)) + Seq::<Seq<u8>>::empty());
    } else {
        lemma_dict_prefix(s.drop_last(), i);
        assert(s.drop_last().take(i) =~= s.take(i));
        let e1 = choose|e1: Seq<Seq<u8>>| dict_of(s.drop_last()) == dict_of(s.take(i)) + e1;
        if dict_of(s.drop_last()).contains(s.last()) {
            assert(dict_of(s) == dict_of(s.take(i)) + e1);
        } else {
            assert(dict_of(s) =~= dict_of(s.take(i)) + e1.push(s.last()));
        }
    }
}

/// The dictionary holds each distinct value exactly once.
pub proof fn lemma_dict_distinct(s: Seq<Seq<u8>>)
    ensures
        forall|i: int, j: int|
            0 <= i < j < dict_of(s).len() ==> dict_of(s)[i] != dict_of(s)[j],
    decreases s.len(),
{
    if s.len() > 0 {
        lemma_dict_distinct(s.drop_last());
        let d = dict_of(s.drop_last());
        if !d.contains(s.last()) {
            assert forall|i: int, j: int|
                0 <= i < j < dict_of(s).len() implies dict_of(s)[i] != dict_of(s)[j] by {
                if j == d.len() {
                    assert(dict_of(s)[i] == d[i]);
                    if d[i] == s.last() {
                        assert(d.contains(s.last()));
                    }
                }
            }
        }
    }
}

pub proof fn lemma_dict_len(s: Seq<Seq<u8>>)
    ensures
        dict_of(s).len() <= s.len(),
    decreases s.len(),
{
    if s.len() > 0 {
        lemma_dict_len(s.drop_last());
    }
}

/// Every stored index is below the dictionary's size, and looks its row's
/// value up again.
pub proof fn lemma_dict_indices_in_range(s: Seq<Seq<u8>>)
    requires
        s.len() < 0x10000000000000000,
    ensures
        indices_of(s).len() == s.len(),
        forall|k: int|
            0 <= k < s.len() ==> (#[trigger] indices_of(s)[k]) < dict_of(s).len() && dict_of(s)[
                indices_of(s)[k] as int
            ] == s[k],
{
    lemma_dict_contains(s);
    assert forall|k: int|
        0 <= k < s.len() implies (#[trigger] indices_of(s)[k]) < dict_of(s).len() && dict_of(s)[
            indices_of(s)[k] as int
        ] == s[k] by {
        assert(s[k] == s[k] && 0 <= k < s.len());
        assert(s.contains(s[k]));
        lemma_dict_index_correct(dict_of(s), s[k]);
        lemma_dict_len(s);
        assert(indices_of(s)[k] == dict_index(dict_of(s), s[k]) as u64);
    }
}

/// Compares two byte strings.
pub fn bytes_eq(a: &Vec<u8>, b: &Vec<u8>) -> (r: bool)
    ensures
        r == (a@ == b@),
{
    if a.len() != b.len() {
        return false;
    }
    let mut i: usize = 0;
    while i < a.len()
        invariant
            i <= a@.len(),
            a@.len() == b@.len(),
            forall|k: int| 0 <= k < i ==> a@[k] == b@[k],
        decreases a@.len() - i,
    {
        if a[i] != b[i] {
            return false;
        }
        i = i + 1;
    }
    proof {
        assert(a@ =~= b@);
    }
    true
}

/// Copies a byte string.
pub fn clone_bytes(v: &Vec<u8>) -> (r: Vec<u8>)
    ensures
        r@ == v@,
{
    let mut r: Vec<u8> = Vec::new();
    let mut i: usize = 0;
    while i < v.len()
        invariant
            i <= v@.len(),
            r@ == v@.take(i as int),
        decreases v@.len() - i,
    {
        r.push(v[i]);
        proof {
            assert(v@.take(i as int).push(v@[i as int]) =~= v@.take(i + 1));
        }
        i = i + 1;
    }
    proof {
        assert(v@.take(v@.len() as int) =~= v@);
    }
    r
}

/// Builds the first-seen-order dictionary of `vals` and the index of each value.
pub fn build_dictionary(vals: &Vec<Vec<u8>>) -> (r: (Vec<Vec<u8>>, Vec<u64>))
    ensures
        r.0.deep_view() == dict_of(vals.deep_view()),
        r.1@ == indices_of(vals.deep_view()),
{
    let ghost vd = vals.deep_view();
    let mut dict: Vec<Vec<u8>> = Vec::new();
    let mut idx: Vec<u64> = Vec::new();
    let mut i: usize = 0;
    proof {
        assert(vd.take(0) =~= Seq::<Seq<u8>>::empty());
        assert(dict.deep_view() =~= dict_of(vd.take(0)));
    }
    while i < vals.len()
        invariant
            i <= vals@.len(),
            vd == vals.deep_view(),
            vd.len() == vals@.len(),
            dict.deep_view() == dict_of(vd.take(i as int)),
            idx@.len() == i,
            forall|k: int| 0 <= k < i ==> idx@[k] == indices_of(vd)[k],
        decreases vals@.len() - i,
    {
        let ghost dcur = dict_of(vd.take(i as int));
        proof {
            assert(vd.take(i + 1).drop_last() =~= vd.take(i as int));
            assert(vd.take(i + 1).last() == vd[i as int]);
            lemma_dict_contains(vd.take(i as int));
        }
        // linear search for the first occurrence in the dictionary
        let mut j: usize = 0;
        let mut found = false;
        while j < dict.len() && !found
            invariant
                j <= dict@.len(),
                dict.deep_view() == dcur,
                dcur.len() == dict@.len(),
                vd == vals.deep_view(),
                vd.len() == vals@.len(),
                i < vd.len(),
                !found ==> forall|m: int| 0 <= m < j ==> dcur[m] != vd[i as int],
                found ==> j < dict@.len() && dcur[j as int] == vd[i as int] && forall|m: int|
                    0 <= m < j ==> dcur[m] != vd[i as int],
            decreases dict@.len() - j, if found { 0int } else { 1int },
        {
            proof {
                assert(dict.deep_view()[j as int] == dict@[j as int]@);
                assert(vd[i as int] == vals@[i as int]@);
            }
            if bytes_eq(&dict[j], &vals[i]) {
                found = true;
            } else {
                j = j + 1;
            }
        }
        let ghost dnext = dict_of(vd.take(i + 1));
        if found {
            proof {
                lemma_dict_index_first(dcur, j as int, vd[i as int]);
                assert(dcur.contains(vd[i as int]));
                assert(dnext == dcur);
                lemma_dict_prefix(vd, i + 1);
                let e = choose|e: Seq<Seq<u8>>| dict_of(vd) == dnext + e;
                lemma_dict_index_append(dnext, e, vd[i as int]);
                assert(indices_of(vd)[i as int] == j as u64);
            }
            idx.push(j as u64);
        } else {
            proof {
                if dcur.contains(vd[i as int]) {
                    let m = choose|m: int| 0 <= m < dcur.len() && dcur[m] == vd[i as int];
                    assert(false);
                }
                assert(dnext == dcur.push(vd[i as int]));
                lemma_dict_index_push_new(dcur, vd[i as int]);
                lemma_dict_prefix(vd, i + 1);
                let e = choose|e: Seq<Seq<u8>>| dict_of(vd) == dnext + e;
                assert(dnext.contains(vd[i as int])) by {
                    assert(dnext.last() == vd[i as int]);
                }
                lemma_dict_index_append(dnext, e, vd[i as int]);
                assert(indices_of(vd)[i as int] == dict@.len() as u64);
            }
            idx.push(dict.len() as u64);
            let c = clone_bytes(&vals[i]);
            dict.push(c);
            proof {
                assert(dict.deep_view() =~= dnext);
            }
        }
        i = i + 1;
    }
    proof {
        assert(vd.take(vd.len() as int) =~= vd);
        assert(idx@ =~= indices_of(vd));
    }
    (dict, idx)
}

/// The run-length encoding of `s`: maximal runs of equal values, as
/// (value, length) pairs in order.
pub open spec fn rle_of(s: Seq<u64>) -> Seq<(u64, u64)>
    decreases s.len(),
{
    if s.len() == 0 {
        Seq::empty()
    } else {
        let r = rle_of(s.drop_last());
        if r.len() > 0 && r.last().0 == s.last() && r.last().1 < u64::MAX {
            r.update(r.len() - 1, (s.last(), (r.last().1 + 1) as u64))
        } else {
            r.push((s.last(), 1u64))
        }
    }
}

/// Expands (value, length) pairs back to one value per slot.
pub open spec fn rle_expand(r: Seq<(u64, u64)>) -> Seq<u64>
    decreases r.len(),
{
    if r.len() == 0 {
        Seq::empty()
    } else {
        rle_expand(r.drop_last()) + Seq::new(r.last().1 as nat, |_i: int| r.last().0)
    }
}

/// Expanding the run-length encoding of a sequence gives the sequence back.
pub proof fn lemma_rle_round_trip(s: Seq<u64>)
    ensures
        rle_expand(rle_of(s)) == s,
    decreases s.len(),
{
    if s.len() == 0 {
        assert(rle_expand(rle_of(s)) =~= s);
    } else {
        lemma_rle_round_trip(s.drop_last());
        let r = rle_of(s.drop_last());
        let x = s.last();
        if r.len() > 0 && r.last().0 == x && r.last().1 < u64::MAX {
            let l = r.last().1;
            let r2 = r.update(r.len() - 1, (x, (l + 1) as u64));
            assert(r2.drop_last() =~= r.drop_last());
            assert(r2.last() == (x, (l + 1) as u64));
            assert(Seq::new((l + 1) as nat, |_i: int| x) =~= Seq::new(l as nat, |_i: int| x).push(
                x,
            ));
            assert(rle_expand(r.drop_last()) + Seq::new(l as nat, |_i: int| x).push(x) =~= (
            rle_expand(r.drop_last()) + Seq::new(l as nat, |_i: int| x)).push(x));
            assert(rle_expand(r).last() == x);
            assert(rle_expand(r2) =~= s);
        } else {
            let r2 = r.push((x, 1u64));
            assert(r2.drop_last() =~= r);
            assert(Seq::new(1nat, |_i: int| x) =~= seq![x]);
            assert(rle_expand(r2) =~= s);
        }
    }
}

pub proof fn lemma_rle_len(s: Seq<u64>)
    ensures
        rle_of(s).len() <= s.len(),
    decreases s.len(),
{
    if s.len() > 0 {
        lemma_rle_len(s.drop_last());
    }
}

/// Expanding a prefix of the runs never yields more slots than the whole.
pub proof fn lemma_expand_prefix_len(r: Seq<(u64, u64)>, i: int)
    requires
        0 <= i <= r.len(),
    ensures
        rle_expand(r.take(i)).len() <= rle_expand(r).len(),
    decreases r.len(),
{
    if i == r.len() {
        assert(r.take(i) =~= r);
    } else {
        assert(r.drop_last().take(i) =~= r.take(i));
        lemma_expand_prefix_len(r.drop_last(), i);
    }
}

/// Computes the run-length encoding of `vals`.
pub fn rle_encode(vals: &Vec<u64>) -> (r: Vec<(u64, u64)>)
    ensures
        r@ == rle_of(vals@),
{
    let mut runs: Vec<(u64, u64)> = Vec::new();
    let mut cur: Option<(u64, u64)> = None;
    let mut i: usize = 0;
    proof {
        assert(vals@.take(0) =~= Seq::<u64>::empty());
    }
    while i < vals.len()
        invariant
            i <= vals@.len(),
            cur is None ==> i == 0 && runs@.len() == 0,
            cur matches Some(c) ==> rle_of(vals@.take(i as int)) == runs@.push(c) && 1 <= c.1
                && c.1 <= i,
        decreases vals@.len() - i,
    {
        let x = vals[i];
        proof {
            assert(vals@.take(i + 1).drop_last() =~= vals@.take(i as int));
            assert(vals@.take(i + 1).last() == vals@[i as int]);
        }
        match cur {
            None => {
                cur = Some((x, 1));
                proof {
                    assert(rle_of(vals@.take(0)) == Seq::<(u64, u64)>::empty());
                    assert(rle_of(vals@.take(1)) =~= runs@.push((x, 1u64)));
                }
            },
            Some(c) => {
                if c.0 == x {
                    cur = Some((c.0, c.1 + 1));
                    proof {
                        let r0 = runs@.push(c);
                        assert(r0.last() == c);
                        assert(r0.update(r0.len() - 1, (x, (c.1 + 1) as u64)) =~= runs@.push(
                            (x, (c.1 + 1) as u64),
                        ));
                    }
                } else {
                    runs.push(c);
                    cur = Some((x, 1));
                    proof {
                        let r0 = runs@.drop_last().push(c);
                        assert(r0 =~= runs@);
                        assert(r0.push((x, 1u64)) =~= runs@.push((x, 1u64)));
                    }
                }
            },
        }
        i = i + 1;
    }
    proof {
        assert(vals@.take(vals@.len() as int) =~= vals@);
    }
    match cur {
        None => {
            proof {
                assert(runs@ =~= rle_of(vals@));
            }
            runs
        },
        Some(c) => {
            runs.push(c);
            runs
        },
    }
}

/// Runs the run-length expansion, expecting exactly `want` slots.
pub fn rle_expand_exec(runs: &Vec<(u64, u64)>, want: usize) -> (r: Result<Vec<u64>, FormatError>)
    ensures
        r matches Ok(v) ==> v@ == rle_expand(runs@) && v@.len() == want,
        (r is Err) == (rle_expand(runs@).len() != want),
{
    let mut out: Vec<u64> = Vec::new();
    let mut i: usize = 0;
    proof {
        assert(runs@.take(0) =~= Seq::<(u64, u64)>::empty());
    }
    while i < runs.len()
        invariant
            i <= runs@.len(),
            out@ == rle_expand(runs@.take(i as int)),
            out@.len() <= want,
        decreases runs@.len() - i,
    {
        let (v, c) = runs[i];
        proof {
            assert(runs@.take(i + 1).drop_last() =~= runs@.take(i as int));
            assert(runs@.take(i + 1).last() == runs@[i as int]);
        }
        if c > (want - out.len()) as u64 {
            proof {
                lemma_expand_prefix_len(runs@, i + 1);
            }
            return Err(FormatError::CorruptPage);
        }
        let c_us: usize = c as usize;
        let ghost base = out@;
        let mut k: usize = 0;
        while k < c_us
            invariant
                k <= c_us,
                c_us == c,
                out@ == base + Seq::new(k as nat, |_i: int| v),
            decreases c_us - k,
        {
            out.push(v);
            proof {
                assert(base + Seq::new(k as nat, |_i: int| v) + seq![v] =~= base + Seq::new(
                    (k + 1) as nat,
                    |_i: int| v,
                ));
            }
            k = k + 1;
        }
        proof {
            assert(Seq::new(c_us as nat, |_i: int| v) =~= Seq::new(
                runs@[i as int].1 as nat,
                |_i: int| runs@[i as int].0,
            ));
        }
        i = i + 1;
    }
    proof {
        assert(runs@.take(runs@.len() as int) =~= runs@);
    }
    if out.len() != want {
        return Err(FormatError::CorruptPage);
    }
    Ok(out)
}

/// The wrapped difference taking `a` to `b` (mod 2^64).
pub open spec fn wrap_sub_spec(a: u64, b: u64) -> u64 {
    (((b as int) - (a as int)) % 0x10000000000000000) as u64
}

/// The wrapped sum of `a` and `d` (mod 2^64).
pub open spec fn wrap_add_spec(a: u64, d: u64) -> u64 {
    (((a as int) + (d as int)) % 0x10000000000000000) as u64
}

pub proof fn lemma_wrap_sub_val(a: u64, b: u64)
    ensures
        b >= a ==> wrap_sub_spec(a, b) == b - a,
        b < a ==> wrap_sub_spec(a, b) == (b as int) - (a as int) + 0x10000000000000000,
{
    let m: int = 0x10000000000000000;
    if b >= a {
        lemma_small_mod((b - a) as nat, m as nat);
    } else {
        lemma_mod_add_multiples_vanish((b as int) - (a as int), m);
        lemma_small_mod(((b as int) - (a as int) + m) as nat, m as nat);
    }
}

pub proof fn lemma_wrap_add_val(a: u64, d: u64)
    ensures
        a + d < 0x10000000000000000 ==> wrap_add_spec(a, d) == a + d,
        a + d >= 0x10000000000000000 ==> wrap_add_spec(a, d) == (a as int) + (d as int)
            - 0x10000000000000000,
{
    let m: int = 0x10000000000000000;
    if a + d < 0x10000000000000000 {
        lemma_small_mod((a + d) as nat, m as nat);
    } else {
        lemma_mod_add_multiples_vanish((a as int) + (d as int) - m, m);
        lemma_small_mod(((a as int) + (d as int) - m) as nat, m as nat);
    }
}

/// Adding back the wrapped difference recovers the value exactly.
pub proof fn lemma_wrap_round_trip(a: u64, b: u64)
    ensures
        wrap_add_spec(a, wrap_sub_spec(a, b)) == b,
{
    lemma_wrap_sub_val(a, b);
    lemma_wrap_add_val(a, wrap_sub_spec(a, b));
}

/// Computes the wrapped difference taking `a` to `b`.
pub fn wrap_sub(a: u64, b: u64) -> (r: u64)
    ensures
        r == wrap_sub_spec(a, b),
{
    proof {
        lemma_wrap_sub_val(a, b);
    }
    if b >= a {
        b - a
    } else {
        b + (u64::MAX - a) + 1
    }
}

/// Computes the wrapped sum of `a` and `d`.
pub fn wrap_add(a: u64, d: u64) -> (r: u64)
    ensures
        r == wrap_add_spec(a, d),
{
    proof {
        lemma_wrap_add_val(a, d);
    }
    if d <= u64::MAX - a {
        a + d
    } else {
        a - (u64::MAX - d) - 1
    }
}

/// The successive wrapped differences of a value sequence.
pub open spec fn deltas_of(vs: Seq<u64>) -> Seq<u64> {
    if vs.len() == 0 {
        Seq::empty()
    } else {
        Seq::new((vs.len() - 1) as nat, |i: int| wrap_sub_spec(vs[i], vs[i + 1]))
    }
}

/// The cumulative wrapped sums: base value, then one slot per difference.
pub open spec fn cums(base: u64, ds: Seq<u64>) -> Seq<u64>
    decreases ds.len(),
{
    if ds.len() == 0 {
        seq![base]
    } else {
        let p = cums(base, ds.drop_last());
        p.push(wrap_add_spec(p.last(), ds.last()))
    }
}

pub proof fn lemma_cums_len(base: u64, ds: Seq<u64>)
    ensures
        cums(base, ds).len() == ds.len() + 1,
    decreases ds.len(),
{
    if ds.len() > 0 {
        lemma_cums_len(base, ds.drop_last());
    }
}

/// Delta encoding is exact: cumulative summation of the differences
/// reconstructs every unsigned 64-bit sequence, including all-equal
/// sequences and maximal single-step differences.
pub proof fn lemma_delta_round_trip(vs: Seq<u64>)
    requires
        vs.len() > 0,
    ensures
        cums(vs[0], deltas_of(vs)) == vs,
    decreases vs.len(),
{
    if vs.len() == 1 {
        assert(cums(vs[0], deltas_of(vs)) =~= vs);
    } else {
        let dl = vs.drop_last();
        assert(deltas_of(dl) =~= deltas_of(vs).drop_last());
        lemma_delta_round_trip(dl);
        lemma_cums_len(vs[0], deltas_of(dl));
        let p = cums(vs[0], deltas_of(vs).drop_last());
        assert(p == dl);
        assert(p.last() == vs[vs.len() - 2]);
        assert(deltas_of(vs).last() == wrap_sub_spec(vs[vs.len() - 2], vs[vs.len() - 1]));
        lemma_wrap_round_trip(vs[vs.len() - 2], vs[vs.len() - 1]);
        assert(cums(vs[0], deltas_of(vs)) =~= vs);
    }
}

/// The minimal number of bits that represents `v`.
pub open spec fn bit_width_spec(v: nat) -> nat
    decreases v,
{
    if v == 0 {
        0nat
    } else {
        1 + bit_width_spec(v / 2)
    }
}

pub proof fn lemma_bit_width_bound(v: nat)
    ensures
        v < pow2(bit_width_spec(v)),
    decreases v,
{
    reveal(pow);
    if v == 0 {
    } else {
        lemma_bit_width_bound(v / 2);
        lemma_fundamental_div_mod(v as int, 2);
        lemma_pow2_unfold(bit_width_spec(v));
    }
}

pub proof fn lemma_bit_width_min(v: nat)
    requires
        v > 0,
    ensures
        pow2((bit_width_spec(v) - 1) as nat) <= v,
    decreases v,
{
    reveal(pow);
    if v / 2 == 0 {
        lemma_pow2(0);
        assert(bit_width_spec(0nat) == 0);
        assert(bit_width_spec(v) == 1);
        assert(pow2(0) == 1);
    } else {
        lemma_bit_width_min(v / 2);
        lemma_fundamental_div_mod(v as int, 2);
        let w2 = bit_width_spec(v / 2);
        lemma_pow2_unfold(w2);
        assert(bit_width_spec(v) == 1 + w2);
        assert(pow2(w2) == 2 * pow2((w2 - 1) as nat));
        assert(pow2(w2) <= 2 * (v / 2));
    }
}

pub proof fn lemma_bit_width_le_64(v: u64)
    ensures
        bit_width_spec(v as nat) <= 64,
{
    if v > 0 {
        lemma_bit_width_min(v as nat);
        let w = bit_width_spec(v as nat);
        if w > 64 {
            lemma2_to64();
            lemma_pow_increases(2, 64, (w - 1) as nat);
            lemma_pow2(64);
            lemma_pow2((w - 1) as nat);
            assert(false);
        }
    }
}

/// Computes the minimal bit width of `v`.
pub fn bit_width(v: u64) -> (w: u8)
    ensures
        w as nat == bit_width_spec(v as nat),
        w <= 64,
{
    proof {
        lemma_bit_width_le_64(v);
    }
    let mut x: u64 = v;
    let mut w: u8 = 0;
    while x > 0
        invariant
            bit_width_spec(v as nat) == w + bit_width_spec(x as nat),
            w <= 64,
        decreases x,
    {
        proof {
            if bit_width_spec(x as nat) == 0 {
                assert(x == 0);
            }
            lemma_bit_width_le_64(v);
        }
        x = x / 2;
        w = w + 1;
    }
    w
}

/// The number of whole bytes that hold `w` bits.
pub open spec fn width_bytes(w: nat) -> nat {
    (w + 7) / 8
}

pub proof fn lemma_pow256_pow2(k: nat)
    ensures
        pow(256, k) == pow2((8 * k) as nat),
    decreases k,
{
    reveal(pow);
    if k == 0 {
        assert(pow2(0) == pow(2, 0) as nat);
    } else {
        lemma_pow256_pow2((k - 1) as nat);
        lemma_pow2_adds((8 * (k - 1)) as nat, 8);
        lemma2_to64();
        assert(pow(256, k) == 256 * pow(256, (k - 1) as nat));
    }
}

/// `w` bits fit in `width_bytes(w)` bytes.
pub proof fn lemma_width_bytes_fit(v: nat, w: nat)
    requires
        v < pow2(w),
    ensures
        v < pow(256, width_bytes(w)),
{
    let q = width_bytes(w);
    lemma_fundamental_div_mod((w + 7) as int, 8);
    assert(8 * q >= w);
    lemma_pow_increases(2, w, (8 * q) as nat);
    lemma_pow2(w);
    lemma_pow2((8 * q) as nat);
    lemma_pow256_pow2(q);
}

/// Computes the successive wrapped differences of `vals` and their maximum.
pub fn delta_encode(vals: &Vec<u64>) -> (r: (Vec<u64>, u64))
    requires
        vals@.len() > 0,
    ensures
        r.0@ == deltas_of(vals@),
        r.1 == max_of(deltas_of(vals@)),
{
    let mut ds: Vec<u64> = Vec::new();
    let mut mx: u64 = 0;
    let mut i: usize = 1;
    while i < vals.len()
        invariant
            1 <= i <= vals@.len() || (vals@.len() == 1 && i == 1),
            ds@.len() == i - 1,
            forall|k: int| 0 <= k < i - 1 ==> ds@[k] == deltas_of(vals@)[k],
            mx == max_of(ds@),
        decreases vals@.len() - i,
    {
        let d = wrap_sub(vals[i - 1], vals[i]);
        let ghost pre = ds@;
        ds.push(d);
        if d > mx {
            mx = d;
        }
        proof {
            assert(ds@.drop_last() =~= pre);
            assert(deltas_of(vals@)[i - 1] == wrap_sub_spec(vals@[i - 1], vals@[i as int]));
        }
        i = i + 1;
    }
    proof {
        assert(ds@ =~= deltas_of(vals@));
    }
    (ds, mx)
}

/// Reconstructs the values from the base and the wrapped differences.
pub fn delta_decode(base: u64, ds: &Vec<u64>) -> (r: Vec<u64>)
    ensures
        r@ == cums(base, ds@),
{
    let mut out: Vec<u64> = Vec::new();
    out.push(base);
    let mut i: usize = 0;
    proof {
        assert(ds@.take(0) =~= Seq::<u64>::empty());
        assert(out@ =~= cums(base, ds@.take(0)));
        lemma_cums_len(base, ds@.take(0));
    }
    while i < ds.len()
        invariant
            i <= ds@.len(),
            out@ == cums(base, ds@.take(i as int)),
            out@.len() == i + 1,
        decreases ds@.len() - i,
    {
        let last = out[out.len() - 1];
        let v = wrap_add(last, ds[i]);
        out.push(v);
        proof {
            assert(ds@.take(i + 1).drop_last() =~= ds@.take(i as int));
            assert(ds@.take(i + 1).last() == ds@[i as int]);
        }
        i = i + 1;
    }
    proof {
        assert(ds@.take(ds@.len() as int) =~= ds@);
    }
    out
}

} // verus!
