use colfile::codec::{
    bit_width, build_dictionary, delta_decode, delta_encode, rle_encode, rle_expand_exec,
    wrap_add, wrap_sub,
};
use colfile::model::{encoding_for, ColumnData, EncodingKind, LogicalType, Value};

#[test]
fn dictionary_first_seen_order_and_indices() {
    let vals: Vec<Vec<u8>> = vec![b"b".to_vec(), b"a".to_vec(), b"b".to_vec(), b"c".to_vec()];
    let (dict, idx) = build_dictionary(&vals);
    assert_eq!(dict, vec![b"b".to_vec(), b"a".to_vec(), b"c".to_vec()]);
    assert_eq!(idx, vec![0u64, 1, 0, 2]);
    // every stored index is below the dictionary's size
    for i in &idx {
        assert!((*i as usize) < dict.len());
    }
}

#[test]
fn dictionary_of_empty_input_is_empty() {
    let vals: Vec<Vec<u8>> = vec![];
    let (dict, idx) = build_dictionary(&vals);
    assert!(dict.is_empty());
    assert!(idx.is_empty());
}

#[test]
fn run_length_encoding_is_maximal_runs() {
    let vals: Vec<u64> = vec![1, 1, 2, 2, 2, 3];
    let runs = rle_encode(&vals);
    assert_eq!(runs, vec![(1, 2), (2, 3), (3, 1)]);
    let back = rle_expand_exec(&runs, 6).expect("expansion");
    assert_eq!(back, vals);
}

#[test]
fn run_length_expansion_checks_the_slot_count() {
    let runs: Vec<(u64, u64)> = vec![(9, 4)];
    assert!(rle_expand_exec(&runs, 3).is_err());
    assert!(rle_expand_exec(&runs, 5).is_err());
    assert_eq!(rle_expand_exec(&runs, 4).expect("fits"), vec![9, 9, 9, 9]);
}

#[test]
fn wrapped_difference_inverts() {
    let pairs: [(u64, u64); 5] =
        [(0, 0), (0, u64::MAX), (u64::MAX, 0), (5, 3), (3, u64::MAX - 1)];
    for (a, b) in pairs {
        let d = wrap_sub(a, b);
        assert_eq!(wrap_add(a, d), b);
    }
}

#[test]
fn delta_codec_is_exact() {
    let vals: Vec<u64> = vec![10, 11, 11, 7, u64::MAX, 0, 42];
    let (ds, _mx) = delta_encode(&vals);
    let back = delta_decode(vals[0], &ds);
    assert_eq!(back, vals);
}

#[test]
fn bit_width_values() {
    assert_eq!(bit_width(0), 0);
    assert_eq!(bit_width(1), 1);
    assert_eq!(bit_width(2), 2);
    assert_eq!(bit_width(255), 8);
    assert_eq!(bit_width(256), 9);
    assert_eq!(bit_width(u64::MAX), 64);
}

#[test]
fn encoding_selection_is_fixed_by_type() {
    assert_eq!(encoding_for(LogicalType::Utf8Dict), EncodingKind::RleDictionary);
    assert_eq!(encoding_for(LogicalType::UInt64), EncodingKind::DeltaBinaryPacked);
}

#[test]
fn column_validity_and_value_at() {
    let col = ColumnData::Utf8(vec![Some(b"ab".to_vec()), None, Some(b"".to_vec())]);
    assert_eq!(col.len(), 3);
    assert_eq!(col.validity(), vec![true, false, true]);
    assert_eq!(col.value_at(0), Some(Value::Utf8(b"ab".to_vec())));
    assert_eq!(col.value_at(1), None);
    assert_eq!(col.value_at(2), Some(Value::Utf8(vec![])));

    let nums = ColumnData::UInt64(vec![None, Some(8)]);
    assert_eq!(nums.validity(), vec![false, true]);
    assert_eq!(nums.value_at(1), Some(Value::UInt64(8)));
    assert_eq!(nums.value_at(0), None);
}
