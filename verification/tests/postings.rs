use segment_engine::codec::{decode, encode, serialize_postings, SegmentError};
use segment_engine::intersection::IntersectionPostings;
use segment_engine::postings::SegmentPostings;

fn drain(p: &mut SegmentPostings) -> Vec<u32> {
    let mut out = Vec::new();
    while let Some(d) = p.next() {
        out.push(d);
    }
    out
}

#[test]
fn empty_postings_hand_out_nothing() {
    let mut p = SegmentPostings::empty();
    assert_eq!(p.next(), None);
    assert_eq!(p.skip_next(0), None);
}

#[test]
fn codec_round_trip_on_values() {
    let xs: Vec<u32> = vec![0, 1, 1 << 31, u32::MAX, 7];
    let words = encode(&xs);
    assert_eq!(words.len(), 6);
    assert_eq!(decode(&words, xs.len()), Some(xs));
}

#[test]
fn codec_empty_block_has_no_words() {
    let xs: Vec<u32> = Vec::new();
    let words = encode(&xs);
    assert_eq!(words.len(), 0);
    assert_eq!(decode(&words, 0), Some(Vec::new()));
}

#[test]
fn codec_rejects_wrong_count() {
    let words = encode(&vec![3, 4]);
    assert_eq!(words.len(), 2);
    assert_eq!(decode(&words, 9), None);
    assert_eq!(decode(&words, 0), None);
    assert_eq!(decode(&words, 2), Some(vec![3, 4]));
}

#[test]
fn codec_rejects_unknown_header() {
    let good = encode(&vec![3, 4]);
    assert_eq!(decode(&vec![0x0208, good[1]], 2), None);
    assert_eq!(decode(&vec![0x0107, good[1]], 2), None);
    assert_eq!(decode(&vec![0x0008, good[1]], 2), None);
}

#[test]
fn codec_packs_small_integers_four_to_a_word() {
    let xs = vec![1, 2, 3, 4, 255];
    let words = encode(&xs);
    assert_eq!(words, vec![0x0108, 0x01020304, 0xff000000]);
    assert_eq!(decode(&words, 5), Some(xs));
}

#[test]
fn codec_packs_medium_integers_two_to_a_word() {
    let xs = vec![0x1234, 0x56, 0xffff];
    let words = encode(&xs);
    assert_eq!(words, vec![0x0110, 0x12340056, 0xffff0000]);
    assert_eq!(decode(&words, 3), Some(xs));
}

#[test]
fn codec_keeps_large_integers_whole() {
    let xs = vec![0x10000, 3];
    let words = encode(&xs);
    assert_eq!(words, vec![0x0120, 0x10000, 3]);
    assert_eq!(decode(&words, 2), Some(xs));
}

#[test]
fn record_layout_is_big_endian() {
    let bytes = serialize_postings(&vec![5, 0x01020304]);
    assert_eq!(
        bytes,
        vec![0, 0, 0, 2, 0, 0, 0, 3, 0, 0, 1, 0x20, 0, 0, 0, 5, 1, 2, 3, 4]
    );
}

#[test]
fn record_reads_back_with_trailing_bytes() {
    let mut bytes = serialize_postings(&vec![1, 4, 9]);
    bytes.extend_from_slice(&[0xff, 0xfe]);
    let mut p = SegmentPostings::from_data(&bytes).unwrap();
    assert_eq!(drain(&mut p), vec![1, 4, 9]);
}

#[test]
fn truncated_record_is_corrupted() {
    let bytes = serialize_postings(&vec![1, 4, 9]);
    assert!(matches!(
        SegmentPostings::from_data(&bytes[..bytes.len() - 1]),
        Err(SegmentError::CorruptedSegment)
    ));
    assert!(matches!(
        SegmentPostings::from_data(&bytes[..3]),
        Err(SegmentError::CorruptedSegment)
    ));
}

#[test]
fn mismatched_doc_freq_is_corrupted() {
    let mut bytes = serialize_postings(&vec![1, 4, 9]);
    bytes[3] = 5;
    assert!(matches!(
        SegmentPostings::from_data(&bytes),
        Err(SegmentError::CorruptedSegment)
    ));
}

#[test]
fn all_documents_posting_list() {
    let ids: Vec<u32> = (0..10_000).collect();
    let bytes = serialize_postings(&ids);
    assert_eq!(&bytes[..4], &[0, 0, 0x27, 0x10]);
    let mut p = SegmentPostings::from_data(&bytes).unwrap();
    assert!(p.is_strictly_increasing());
    assert_eq!(drain(&mut p), ids);
}

#[test]
fn skip_next_results_do_not_decrease() {
    let mut p = SegmentPostings::from_doc_ids(vec![2, 3, 5, 8, 13, 21]);
    assert_eq!(p.skip_next(0), Some(2));
    assert_eq!(p.skip_next(3), Some(3));
    assert_eq!(p.skip_next(3), Some(3));
    assert_eq!(p.skip_next(4), Some(5));
    assert_eq!(p.skip_next(9), Some(13));
    assert_eq!(p.skip_next(22), None);
    assert_eq!(p.next(), None);
}

#[test]
fn intersection_matches_naive() {
    let a = vec![0, 2, 4, 6, 8, 10, 12];
    let b = vec![0, 3, 6, 9, 12];
    let c = vec![6, 7, 12, 40];
    let naive: Vec<u32> = a
        .iter()
        .copied()
        .filter(|d| b.contains(d) && c.contains(d))
        .collect();
    let mut it = IntersectionPostings::from_postings(vec![
        SegmentPostings::from_doc_ids(a),
        SegmentPostings::from_doc_ids(b),
        SegmentPostings::from_doc_ids(c),
    ]);
    assert_eq!(it.collect(), naive);
    assert_eq!(naive, vec![6, 12]);
}

#[test]
fn intersection_with_empty_list_is_empty() {
    let mut it = IntersectionPostings::from_postings(vec![
        SegmentPostings::from_doc_ids(vec![1, 2, 3]),
        SegmentPostings::empty(),
    ]);
    assert_eq!(it.next(), None);
    let mut none = IntersectionPostings::from_postings(Vec::new());
    assert_eq!(none.collect(), Vec::<u32>::new());
}

#[test]
fn intersection_of_one_list_is_the_list() {
    let mut it =
        IntersectionPostings::from_postings(vec![SegmentPostings::from_doc_ids(vec![4, 5, 9])]);
    assert_eq!(it.next(), Some(4));
    assert_eq!(it.collect(), vec![5, 9]);
}

#[test]
fn skip_keeps_a_list_that_stands_on_a_match() {
    let mut p = SegmentPostings::from_doc_ids(vec![1, 5, 9]);
    assert_eq!(p.next(), Some(1));
    assert_eq!(p.next(), Some(5));
    assert_eq!(p.skip_next(2), Some(5));
    assert_eq!(p.skip_next(5), Some(5));
    assert_eq!(p.next(), Some(9));
    assert_eq!(p.skip_next(10), None);
    assert_eq!(p.skip_next(0), None);
}

#[test]
fn intersection_goes_on_after_each_id() {
    let mut it = IntersectionPostings::from_postings(vec![
        SegmentPostings::from_doc_ids(vec![1, 3, 4, 7, 9]),
        SegmentPostings::from_doc_ids(vec![3, 7, 8, 9]),
        SegmentPostings::from_doc_ids(vec![0, 3, 5, 7, 9, 11]),
    ]);
    assert_eq!(it.next(), Some(3));
    assert_eq!(it.next(), Some(7));
    assert_eq!(it.next(), Some(9));
    assert_eq!(it.next(), None);
    assert_eq!(it.next(), None);
}
