use posting_codecs::bencher::Bencher;
use posting_codecs::boundary::{
    AggregateResultIter_Free, AggregateResultIter_Next, AggregateResult_AddChild,
    AggregateResult_Capacity, AggregateResult_Free, AggregateResult_Get, AggregateResult_Iter,
    AggregateResult_New, AggregateResult_NumChildren, AggregateResult_Reset,
    AggregateResult_TypeMask, IndexResult_IsAggregate,
};
use posting_codecs::offsets::{
    RSOffsetVector, RSOffsetVector_CopyData, RSOffsetVector_FreeData, RSOffsetVector_GetData,
    RSOffsetVector_Len, RSOffsetVector_SetData,
};
use posting_codecs::result::{
    RSIndexResult, RSResultData, RESULT_INTERSECTION, RESULT_METRIC, RESULT_NUMERIC, RESULT_TERM,
    RESULT_UNION, RESULT_VIRTUAL,
};

fn aggregate_of<'b, 'a>(result: &'b RSIndexResult<'a>) -> &'b posting_codecs::result::RSAggregateResult<'a> {
    match &result.data {
        RSResultData::Union(agg) | RSResultData::Intersection(agg) => agg,
        _ => panic!("not an aggregate"),
    }
}

#[test]
fn aggregate_of_a_term_and_a_number() {
    let a = RSIndexResult::term().doc_id(7).field_mask(1).frequency(2);
    let b = RSIndexResult::numeric(9.0f64.to_bits()).doc_id(7);
    let mut parent = RSIndexResult::intersection(2);
    assert!(IndexResult_IsAggregate(&parent));
    AggregateResult_AddChild(&mut parent, &a);
    AggregateResult_AddChild(&mut parent, &b);

    let agg = aggregate_of(&parent);
    assert_eq!(AggregateResult_NumChildren(agg), 2);
    assert_eq!(AggregateResult_Capacity(agg), 2);
    assert_eq!(AggregateResult_TypeMask(agg), RESULT_TERM | RESULT_NUMERIC);
    assert!(std::ptr::eq(AggregateResult_Get(agg, 0).unwrap(), &a));
    assert!(std::ptr::eq(AggregateResult_Get(agg, 1).unwrap(), &b));
    assert!(AggregateResult_Get(agg, 2).is_none());
    assert!(AggregateResult_Get(agg, usize::MAX).is_none());

    let mut iter = AggregateResult_Iter(agg);
    assert!(std::ptr::eq(AggregateResultIter_Next(&mut iter).unwrap(), &a));
    assert!(std::ptr::eq(AggregateResultIter_Next(&mut iter).unwrap(), &b));
    assert!(AggregateResultIter_Next(&mut iter).is_none());
    assert!(AggregateResultIter_Next(&mut iter).is_none());
    AggregateResultIter_Free(iter);

    assert_eq!(parent.doc_id, 7);
    assert_eq!(parent.field_mask, u128::MAX);
    assert_eq!(parent.freq, 0);
}

#[test]
fn push_folds_document_fields_and_kind() {
    let a = RSIndexResult::term().doc_id(9).field_mask(0b0101);
    let b = RSIndexResult::virt().doc_id(4).field_mask(0b1000);
    let mut parent = RSIndexResult::union(0).field_mask(0b0010);
    parent.push(&a);
    assert_eq!(parent.doc_id, 9);
    assert_eq!(parent.field_mask, 0b0111);
    assert_eq!(aggregate_of(&parent).type_mask(), RESULT_TERM);
    parent.push(&b);
    // the last child gives the document
    assert_eq!(parent.doc_id, 4);
    assert_eq!(parent.field_mask, 0b1111);
    assert_eq!(parent.field_mask & b.field_mask, b.field_mask);
    assert_eq!(aggregate_of(&parent).type_mask(), RESULT_TERM | RESULT_VIRTUAL);
    assert_ne!(aggregate_of(&parent).type_mask() & b.kind(), 0);
}

#[test]
fn kinds_have_bits_of_their_own() {
    let number = f64::INFINITY.to_bits();
    assert_eq!(RSIndexResult::union(1).kind(), RESULT_UNION);
    assert_eq!(RSIndexResult::intersection(1).kind(), RESULT_INTERSECTION);
    assert_eq!(RSIndexResult::term().kind(), RESULT_TERM);
    assert_eq!(RSIndexResult::virt().kind(), RESULT_VIRTUAL);
    assert_eq!(RSIndexResult::numeric(number).kind(), RESULT_NUMERIC);
    assert_eq!(RSIndexResult::metric(number).kind(), RESULT_METRIC);
    assert!(!IndexResult_IsAggregate(&RSIndexResult::term()));
    assert!(IndexResult_IsAggregate(&RSIndexResult::union(1)));
}

#[test]
fn add_child_leaves_a_leaf_alone() {
    let child = RSIndexResult::virt().doc_id(3).field_mask(8);
    let number = (-1.5f64).to_bits();
    for leaf in [
        RSIndexResult::term().doc_id(1).field_mask(2).frequency(3),
        RSIndexResult::virt().doc_id(1),
        RSIndexResult::numeric(number),
        RSIndexResult::metric(number),
    ] {
        let mut parent = leaf.clone();
        AggregateResult_AddChild(&mut parent, &child);
        assert_eq!(parent, leaf);
    }
}

#[test]
fn reset_then_the_same_children_gives_the_same_aggregate() {
    let a = RSIndexResult::term();
    let b = RSIndexResult::virt();
    let c = RSIndexResult::metric(1.0f64.to_bits());
    let mut agg = AggregateResult_New(1);
    for child in [&a, &b, &c] {
        agg.push(child);
    }
    let mask = AggregateResult_TypeMask(&agg);
    let count = AggregateResult_NumChildren(&agg);
    let cap = AggregateResult_Capacity(&agg);
    assert_eq!(mask, RESULT_TERM | RESULT_VIRTUAL | RESULT_METRIC);
    assert_eq!(count, 3);
    assert_eq!(cap, 4);

    AggregateResult_Reset(&mut agg);
    assert_eq!(AggregateResult_NumChildren(&agg), 0);
    assert_eq!(AggregateResult_TypeMask(&agg), 0);
    assert_eq!(AggregateResult_Capacity(&agg), cap);
    assert!(AggregateResult_Get(&agg, 0).is_none());
    assert!(agg.iter().next().is_none());

    for child in [&a, &b, &c] {
        agg.push(child);
    }
    assert_eq!(AggregateResult_TypeMask(&agg), mask);
    assert_eq!(AggregateResult_NumChildren(&agg), count);
    assert_eq!(AggregateResult_Capacity(&agg), cap);
    let mut iter = agg.iter();
    for child in [&a, &b, &c] {
        assert!(std::ptr::eq(iter.next().unwrap(), child));
    }
    assert!(iter.next().is_none());
    AggregateResult_Free(agg);
}

#[test]
fn a_full_list_doubles() {
    let child = RSIndexResult::virt();
    let mut agg = AggregateResult_New(0);
    assert_eq!(agg.capacity(), 0);
    let mut seen = Vec::new();
    for _ in 0..9 {
        agg.push(&child);
        seen.push(agg.capacity());
        assert!(agg.len() <= agg.capacity());
    }
    assert_eq!(seen, vec![1, 2, 4, 4, 8, 8, 8, 8, 16]);
}

#[test]
fn offsets_are_borrowed_until_copied() {
    let data = [1u8, 2, 3, 4, 5];
    let mut src = RSOffsetVector::Empty;
    assert_eq!(RSOffsetVector_GetData(&src), (None, 0));
    assert_eq!(RSOffsetVector_Len(&src), 0);

    RSOffsetVector_SetData(&mut src, Some(&data), 3);
    assert_eq!(RSOffsetVector_Len(&src), 3);
    assert_eq!(RSOffsetVector_GetData(&src), (Some(&data[..3]), 3));
    assert_eq!(src, RSOffsetVector::Borrowed(&data[..3]));

    let mut dest = RSOffsetVector::Empty;
    RSOffsetVector_CopyData(&mut dest, &src);
    assert_eq!(dest, RSOffsetVector::Owned(vec![1, 2, 3]));
    assert_eq!(RSOffsetVector_GetData(&dest), (Some(&data[..3]), 3));

    RSOffsetVector_FreeData(&mut dest);
    assert_eq!(dest, RSOffsetVector::Empty);
    assert_eq!(RSOffsetVector_GetData(&dest), (None, 0));
    // the source still has its view
    assert_eq!(RSOffsetVector_Len(&src), 3);

    RSOffsetVector_FreeData(&mut dest);
    assert_eq!(dest, RSOffsetVector::Empty);
}

#[test]
fn offsets_without_length_have_no_data() {
    let data = [1u8, 2, 3];
    let mut v = RSOffsetVector::Empty;
    RSOffsetVector_SetData(&mut v, Some(&data), 0);
    assert_eq!(v, RSOffsetVector::Empty);
    RSOffsetVector_SetData(&mut v, Some(&data), 3);
    RSOffsetVector_SetData(&mut v, None, 0);
    assert_eq!(RSOffsetVector_GetData(&v), (None, 0));

    let mut dest = RSOffsetVector::Owned(vec![9]);
    RSOffsetVector_CopyData(&mut dest, &v);
    assert_eq!(dest, RSOffsetVector::Empty);
}

#[test]
fn bencher_pairs_every_delta_with_every_mask() {
    let narrow = Bencher::default();
    assert!(!narrow.wide_layout());
    let values = narrow.test_values();
    assert_eq!(values.len(), 36);
    let deltas = [0u32, 1, 256, 65536, 65535, u32::MAX];
    let masks = [0u128, 1, 10, 100, 1_000, 10_000];
    for (k, value) in values.iter().enumerate() {
        assert_eq!(value.delta, deltas[k / 6]);
        assert_eq!(value.field_mask, masks[k % 6]);
    }
    assert_eq!(values[0].encoded, vec![0, 0, 0]);
    assert_eq!(values[1].encoded, vec![0, 0, 1]);
    assert_eq!(values[17].encoded, vec![5, 0, 1, 16, 39]);
    assert_eq!(values[35].encoded, vec![7, 255, 255, 255, 255, 16, 39]);
}

#[test]
fn bencher_wide_adds_two_masks() {
    let wide = Bencher::wide();
    assert!(wide.wide_layout());
    let values = wide.test_values();
    assert_eq!(values.len(), 48);
    assert_eq!((values[7].delta, values[7].field_mask), (0, u128::MAX));
    assert_eq!((values[8].delta, values[8].field_mask), (1, 0));
    assert_eq!(values[9].encoded, vec![1, 1]);
    assert_eq!(values[46].encoded, vec![142, 254, 254, 254, 127, 142, 254, 254, 254, 127]);
    assert_eq!(values[47].delta, u32::MAX);
    assert_eq!(values[47].encoded.len(), 24);
}

#[test]
fn bencher_writes_and_reads_all_records() {
    for bencher in [Bencher::default(), Bencher::wide()] {
        let wide = bencher.wide_layout();
        let size = bencher.buffer_size();
        let expected: Vec<u8> =
            bencher.test_values().iter().flat_map(|v| v.encoded.iter().copied()).collect();
        assert_eq!(size, expected.len());
        assert_eq!(size, if wide { 312 } else { 162 });

        let mut buffer = posting_codecs::codecs::TestBuffer::with_capacity(size);
        assert_eq!(bencher.encode_all(&mut buffer), size);
        assert_eq!(buffer.0, expected);

        let results = bencher.decode_all();
        assert_eq!(results.len(), bencher.test_values().len());
        for (value, (matched, record)) in bencher.test_values().iter().zip(results) {
            assert_eq!(matched, value.field_mask & 1 != 0);
            let term = RSIndexResult::term()
                .doc_id(100 + value.delta as u64)
                .field_mask(value.field_mask)
                .frequency(if wide { 1 } else { 0 });
            assert_eq!(record, term);
        }
    }
}

#[test]
fn the_rest_of_a_pass() {
    let a = RSIndexResult::term();
    let b = RSIndexResult::virt();
    let c = RSIndexResult::virt().doc_id(3);
    let mut agg = AggregateResult_New(3);
    for child in [&a, &b, &c] {
        agg.push(child);
    }
    let mut iter = AggregateResult_Iter(&agg);
    assert!(std::ptr::eq(AggregateResultIter_Next(&mut iter).unwrap(), &a));
    let rest = iter.rest();
    assert_eq!(rest.len(), 2);
    assert!(std::ptr::eq(rest[0], &b));
    assert!(std::ptr::eq(rest[1], &c));
    assert!(AggregateResultIter_Next(&mut iter).is_none());
    assert!(iter.rest().is_empty());
    assert_eq!(AggregateResult_Iter(&agg).rest().len(), AggregateResult_NumChildren(&agg));
}
