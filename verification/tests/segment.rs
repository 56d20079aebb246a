use segment_engine::block_store::{BlockStore, TermChain};
use segment_engine::codec::SegmentError;
use segment_engine::dictionary::{TermDictionary, TermDictionaryBuilder, TermInfo};
use segment_engine::postings_writer::{
    posting_from_field_entry, tokenize, PostingsWriter, RecorderKind,
};
use segment_engine::reader::SegmentReader;
use segment_engine::schema::{
    Document, FieldEntry, FieldType, FieldValue, Schema, TextIndexingOptions, Value,
};
use segment_engine::segment_writer::{stored_field_values, SegmentData, SegmentWriter};
use segment_engine::term::{from_field_text, from_field_u32, term_rank, Rank};

fn text_schema(options: TextIndexingOptions) -> Schema {
    Schema {
        fields: vec![FieldEntry {
            field_type: FieldType::Str(options),
            stored: true,
        }],
    }
}

fn text_doc(field: u8, text: &str) -> Document {
    Document {
        field_values: vec![FieldValue {
            field,
            value: Value::Text(text.as_bytes().to_vec()),
        }],
    }
}

fn body(token: &str) -> Vec<u8> {
    from_field_text(0, &token.as_bytes().to_vec())
}

fn write_segment(schema: &Schema, docs: &[Document]) -> SegmentData {
    let mut writer = SegmentWriter::for_segment(BlockStore::new(1_000_000, 64), schema);
    for doc in docs {
        writer.add_document(doc, schema).unwrap();
    }
    assert_eq!(writer.max_doc() as usize, docs.len());
    writer.finalize().unwrap()
}

fn open_segment(data: SegmentData, store: Vec<Document>) -> SegmentReader {
    SegmentReader::open(7, &data.terms, data.postings, store, data.max_doc).unwrap()
}

fn search(reader: &SegmentReader, terms: Vec<Vec<u8>>) -> Vec<u32> {
    reader.search(&terms).unwrap().collect()
}

#[test]
fn conjunction_over_three_documents() {
    let schema = text_schema(TextIndexingOptions::TokenizedWithFreqAndPosition);
    let docs = vec![
        text_doc(0, "the quick brown fox"),
        text_doc(0, "the lazy dog"),
        text_doc(0, "quick brown fox jumps"),
    ];
    let reader = open_segment(write_segment(&schema, &docs), docs.clone());
    assert_eq!(search(&reader, vec![body("quick"), body("fox")]), vec![0, 2]);
    assert_eq!(search(&reader, vec![body("the")]), vec![0, 1]);
    assert_eq!(search(&reader, vec![body("jumps"), body("the")]), Vec::<u32>::new());
    assert_eq!(search(&reader, vec![body("cat"), body("the")]), Vec::<u32>::new());
    assert_eq!(reader.id(), 7);
}

#[test]
fn number_field_is_found_by_value() {
    let schema = Schema {
        fields: vec![FieldEntry {
            field_type: FieldType::U32 { indexed: true },
            stored: false,
        }],
    };
    let docs: Vec<Document> = [100u32, 200]
        .iter()
        .map(|v| Document {
            field_values: vec![FieldValue {
                field: 0,
                value: Value::U32(*v),
            }],
        })
        .collect();
    let reader = open_segment(write_segment(&schema, &docs), Vec::new());
    assert_eq!(search(&reader, vec![from_field_u32(0, 100)]), vec![0]);
    assert_eq!(search(&reader, vec![from_field_u32(0, 200)]), vec![1]);
    assert_eq!(search(&reader, vec![from_field_u32(0, 300)]), Vec::<u32>::new());
}

#[test]
fn number_terms_are_big_endian() {
    assert_eq!(from_field_u32(3, 0), vec![3, 0, 0, 0, 0]);
    assert_eq!(from_field_u32(3, 1), vec![3, 0, 0, 0, 1]);
    assert_eq!(from_field_u32(3, 1 << 31), vec![3, 0x80, 0, 0, 0]);
    assert_eq!(from_field_u32(255, u32::MAX), vec![255, 255, 255, 255, 255]);
    assert_eq!(from_field_text(2, &b"a\0b".to_vec()), vec![2, b'a', 0, b'b']);
}

#[test]
fn term_in_every_document() {
    let schema = text_schema(TextIndexingOptions::TokenizedNoFreq);
    let docs: Vec<Document> = (0..10_000).map(|_| text_doc(0, "common")).collect();
    let data = write_segment(&schema, &docs);
    assert_eq!(data.max_doc, 10_000);
    let reader = open_segment(data, Vec::new());
    let info = reader.get_term(&body("common")).unwrap().unwrap();
    assert_eq!(info.doc_freq, 10_000);
    let expected: Vec<u32> = (0..10_000).collect();
    assert_eq!(search(&reader, vec![body("common")]), expected);
}

#[test]
fn term_only_in_last_document() {
    let schema = text_schema(TextIndexingOptions::TokenizedWithFreq);
    let docs = vec![text_doc(0, "a b"), text_doc(0, "b c"), text_doc(0, "c d")];
    let reader = open_segment(write_segment(&schema, &docs), Vec::new());
    assert_eq!(search(&reader, vec![body("d")]), vec![2]);
    assert_eq!(search(&reader, vec![body("c")]), vec![1, 2]);
}

#[test]
fn positions_and_frequency_are_recorded() {
    let schema = text_schema(TextIndexingOptions::TokenizedWithFreqAndPosition);
    let mut writer = SegmentWriter::for_segment(BlockStore::new(100, 64), &schema);
    writer.add_document(&text_doc(0, "a b a c a"), &schema).unwrap();
    let postings = writer.postings_writer(0);
    assert_eq!(postings.num_terms(), 3);
    let a = postings.entry(0);
    assert_eq!(a.term(), &body("a"));
    assert_eq!(a.docs(), &vec![0]);
    assert_eq!(a.tfs(), &vec![3]);
    assert_eq!(a.positions(), &vec![0, 2, 4]);
    let b = postings.entry(1);
    assert_eq!(b.term(), &body("b"));
    assert_eq!(b.tfs(), &vec![1]);
    assert_eq!(b.positions(), &vec![1]);
}

#[test]
fn frequency_recorder_keeps_no_positions() {
    let schema = text_schema(TextIndexingOptions::TokenizedWithFreq);
    let mut writer = SegmentWriter::for_segment(BlockStore::new(100, 64), &schema);
    writer.add_document(&text_doc(0, "x x y"), &schema).unwrap();
    writer.add_document(&text_doc(0, "x"), &schema).unwrap();
    let x = writer.postings_writer(0).entry(0);
    assert_eq!(x.docs(), &vec![0, 1]);
    assert_eq!(x.tfs(), &vec![2, 1]);
    assert_eq!(x.positions(), &Vec::<u32>::new());
}

#[test]
fn arena_of_one_block_runs_out() {
    let schema = text_schema(TextIndexingOptions::TokenizedNoFreq);
    let mut writer = SegmentWriter::for_segment(BlockStore::new(1, 8), &schema);
    assert!(writer.is_buffer_full());
    assert_eq!(writer.add_document(&text_doc(0, "a"), &schema), Ok(()));
    assert_eq!(writer.max_doc(), 1);
    assert_eq!(
        writer.add_document(&text_doc(0, "a b"), &schema),
        Err(SegmentError::OutOfBlocks)
    );
    assert_eq!(writer.max_doc(), 1);
    let a = writer.postings_writer(0).entry(0);
    assert_eq!(a.docs()[0], 0);
}

#[test]
fn buffer_is_full_below_the_threshold() {
    let schema = text_schema(TextIndexingOptions::TokenizedNoFreq);
    let roomy = SegmentWriter::for_segment(BlockStore::new(100_000, 8), &schema);
    assert!(!roomy.is_buffer_full());
    let tight = SegmentWriter::for_segment(BlockStore::new(99_999, 8), &schema);
    assert!(tight.is_buffer_full());
}

#[test]
fn block_store_hands_out_blocks_in_order() {
    let mut store = BlockStore::new(3, 4);
    assert_eq!(store.num_free_blocks(), 3);
    assert_eq!(store.allocate(), Ok(0));
    let mut chain = TermChain::new();
    assert_eq!(store.write_bytes(&mut chain, 5), Ok(()));
    assert_eq!(store.num_free_blocks(), 0);
    assert_eq!(store.write_bytes(&mut chain, 3), Ok(()));
    assert_eq!(store.write_bytes(&mut chain, 1), Err(SegmentError::OutOfBlocks));
    assert_eq!(store.allocate(), Err(SegmentError::OutOfBlocks));
}

#[test]
fn empty_segment_finds_nothing() {
    let schema = text_schema(TextIndexingOptions::TokenizedNoFreq);
    let data = write_segment(&schema, &[]);
    assert_eq!(data.max_doc, 0);
    assert_eq!(data.postings.len(), 0);
    let reader = open_segment(data, Vec::new());
    assert_eq!(reader.get_term(&body("a")), Ok(None));
    assert_eq!(search(&reader, vec![body("a")]), Vec::<u32>::new());
    assert!(reader.get_doc(0).is_none());
}

#[test]
fn document_without_indexed_fields() {
    let schema = Schema {
        fields: vec![
            FieldEntry { field_type: FieldType::U32 { indexed: false }, stored: true },
            FieldEntry {
                field_type: FieldType::Str(TextIndexingOptions::TokenizedNoFreq),
                stored: false,
            },
        ],
    };
    let doc = Document {
        field_values: vec![FieldValue { field: 0, value: Value::U32(5) }],
    };
    let data = write_segment(&schema, &[doc.clone()]);
    assert_eq!(data.max_doc, 1);
    assert_eq!(data.postings.len(), 0);
    assert_eq!(data.fieldnorms, vec![Vec::<u32>::new(), vec![0]]);
    assert_eq!(stored_field_values(&doc, &schema), vec![0]);
}

#[test]
fn norms_count_tokens_and_pad_with_zero() {
    let schema = Schema {
        fields: vec![
            FieldEntry {
                field_type: FieldType::Str(TextIndexingOptions::TokenizedNoFreq),
                stored: false,
            },
            FieldEntry {
                field_type: FieldType::Str(TextIndexingOptions::Untokenized),
                stored: true,
            },
        ],
    };
    let first = Document {
        field_values: vec![
            FieldValue { field: 1, value: Value::Text(b"New York".to_vec()) },
            FieldValue { field: 0, value: Value::Text(b"one, two".to_vec()) },
            FieldValue { field: 0, value: Value::Text(b"three".to_vec()) },
        ],
    };
    let second = text_doc(1, "Paris");
    let data = write_segment(&schema, &[first.clone(), second]);
    assert_eq!(data.fieldnorms, vec![vec![3, 0], vec![1, 1]]);
    assert_eq!(stored_field_values(&first, &schema), vec![0]);
    let reader = open_segment(data, Vec::new());
    assert_eq!(
        search(&reader, vec![from_field_text(1, &b"New York".to_vec())]),
        vec![0]
    );
    assert_eq!(search(&reader, vec![body("three"), body("one")]), vec![0]);
    assert_eq!(search(&reader, vec![from_field_text(1, &b"New".to_vec())]), Vec::<u32>::new());
}

#[test]
fn tokens_are_runs_of_letters_and_digits() {
    assert_eq!(
        tokenize(&b"  the quick-brown  fox2! ".to_vec()),
        vec![b"the".to_vec(), b"quick".to_vec(), b"brown".to_vec(), b"fox2".to_vec()]
    );
    assert_eq!(tokenize(&b"".to_vec()), Vec::<Vec<u8>>::new());
    assert_eq!(tokenize(&b"a\0b".to_vec()), vec![b"a".to_vec(), b"b".to_vec()]);
    assert_eq!(
        tokenize(&"caf\u{e9}".as_bytes().to_vec()),
        vec!["caf\u{e9}".as_bytes().to_vec()]
    );
}

#[test]
fn recorder_follows_the_field_options() {
    let kinds = [
        (TextIndexingOptions::Unindexed, RecorderKind::Nothing),
        (TextIndexingOptions::Untokenized, RecorderKind::Nothing),
        (TextIndexingOptions::TokenizedNoFreq, RecorderKind::Nothing),
        (TextIndexingOptions::TokenizedWithFreq, RecorderKind::TermFrequency),
        (TextIndexingOptions::TokenizedWithFreqAndPosition, RecorderKind::TFAndPosition),
    ];
    for (options, kind) in kinds {
        let entry = FieldEntry { field_type: FieldType::Str(options), stored: false };
        assert_eq!(posting_from_field_entry(&entry).recorder(), kind);
    }
    let number = FieldEntry { field_type: FieldType::U32 { indexed: true }, stored: false };
    assert_eq!(posting_from_field_entry(&number).recorder(), RecorderKind::Nothing);
}

#[test]
fn terms_compare_byte_by_byte() {
    assert_eq!(term_rank(&vec![1, 2], &vec![1, 2, 0]), Rank::Before);
    assert_eq!(term_rank(&vec![1, 3], &vec![1, 2, 9]), Rank::After);
    assert_eq!(term_rank(&vec![], &vec![]), Rank::Same);
    assert_eq!(term_rank(&vec![0xff], &vec![0x01, 0x02]), Rank::After);
}

#[test]
fn postings_writer_keeps_terms_in_order() {
    let mut store = BlockStore::new(100, 16);
    let mut writer = PostingsWriter::new(RecorderKind::Nothing);
    for token in ["pear", "apple", "fig", "apple", "banana"] {
        writer.subscribe(&mut store, 0, 0, &body(token)).unwrap();
    }
    let terms: Vec<Vec<u8>> = (0..writer.num_terms())
        .map(|i| writer.entry(i).term().clone())
        .collect();
    assert_eq!(terms, vec![body("apple"), body("banana"), body("fig"), body("pear")]);
}

#[test]
fn dictionary_refuses_terms_out_of_order() {
    let mut builder = TermDictionaryBuilder::new();
    let info = TermInfo { doc_freq: 1, postings_offset: 0 };
    assert_eq!(builder.insert(&vec![1, 5], info), Ok(()));
    assert_eq!(
        builder.insert(&vec![1, 5], info),
        Err(SegmentError::DictionaryOrderViolation)
    );
    assert_eq!(
        builder.insert(&vec![1, 4, 9], info),
        Err(SegmentError::DictionaryOrderViolation)
    );
    assert_eq!(builder.insert(&vec![1, 5, 0], TermInfo { doc_freq: 2, postings_offset: 77 }), Ok(()));
    let file = builder.finish();
    let dictionary = TermDictionary::open(&file).unwrap();
    assert_eq!(dictionary.get(&vec![1, 5]), Ok(Some(info)));
    assert_eq!(
        dictionary.get(&vec![1, 5, 0]),
        Ok(Some(TermInfo { doc_freq: 2, postings_offset: 77 }))
    );
    assert_eq!(dictionary.get(&vec![1, 4, 9]), Ok(None));
}

#[test]
fn term_info_takes_twelve_bytes() {
    let mut out = Vec::new();
    TermInfo { doc_freq: 0x01020304, postings_offset: 0x05060708090a0b0c }.write_to(&mut out);
    assert_eq!(out, vec![1, 2, 3, 4, 5, 6, 7, 8, 9, 10, 11, 12]);
    assert_eq!(
        TermInfo::read_at(&out, 0),
        TermInfo { doc_freq: 0x01020304, postings_offset: 0x05060708090a0b0c }
    );
}

#[test]
fn broken_dictionary_file_is_corrupted() {
    assert!(matches!(TermDictionary::open(&[1, 2, 3]), Err(SegmentError::CorruptedSegment)));
    assert!(matches!(
        TermDictionary::open(&[0, 0, 0, 0, 0, 0, 0, 9, 1]),
        Err(SegmentError::CorruptedSegment)
    ));
    assert!(matches!(
        TermDictionary::open(&[0, 0, 0, 0, 0, 0, 0, 2, 1, 2]),
        Err(SegmentError::CorruptedSegment)
    ));
}

#[test]
fn posting_offset_outside_the_file_is_corrupted() {
    let schema = text_schema(TextIndexingOptions::TokenizedNoFreq);
    let data = write_segment(&schema, &[text_doc(0, "a"), text_doc(0, "a b")]);
    let reader = SegmentReader::open(1, &data.terms, Vec::new(), Vec::new(), 2).unwrap();
    assert!(matches!(
        reader.search(&vec![body("b")]),
        Err(SegmentError::CorruptedSegment)
    ));
    assert!(matches!(reader.read_postings(1), Err(SegmentError::CorruptedSegment)));
}

#[test]
fn stored_documents_come_back() {
    let schema = text_schema(TextIndexingOptions::TokenizedNoFreq);
    let docs = vec![text_doc(0, "first"), text_doc(0, "second")];
    let reader = open_segment(write_segment(&schema, &docs), docs.clone());
    match &reader.get_doc(1).unwrap().field_values[0].value {
        Value::Text(text) => assert_eq!(text, &b"second".to_vec()),
        Value::U32(_) => panic!("a text was stored"),
    }
    assert!(reader.get_doc(2).is_none());
}

#[test]
fn dictionary_streams_in_lexicographic_order() {
    let schema = Schema {
        fields: vec![
            FieldEntry {
                field_type: FieldType::Str(TextIndexingOptions::TokenizedNoFreq),
                stored: false,
            },
            FieldEntry { field_type: FieldType::U32 { indexed: true }, stored: false },
        ],
    };
    let doc = Document {
        field_values: vec![
            FieldValue { field: 1, value: Value::U32(7) },
            FieldValue { field: 0, value: Value::Text(b"zebra ant mole ant".to_vec()) },
            FieldValue { field: 1, value: Value::U32(2) },
        ],
    };
    let data = write_segment(&schema, &[doc]);
    let dictionary = TermDictionary::open(&data.terms).unwrap();
    let listed = dictionary.stream().unwrap();
    let terms: Vec<Vec<u8>> = listed.iter().map(|pair| pair.0.clone()).collect();
    assert_eq!(
        terms,
        vec![
            body("ant"),
            body("mole"),
            body("zebra"),
            from_field_u32(1, 2),
            from_field_u32(1, 7)
        ]
    );
    let mut sorted = terms.clone();
    sorted.sort();
    assert_eq!(terms, sorted);
    assert!(listed.iter().all(|pair| pair.1.doc_freq == 1));
    assert_eq!(listed[0].1.postings_offset, 0);
}

#[test]
fn damaged_transducer_is_corrupted() {
    let schema = text_schema(TextIndexingOptions::TokenizedNoFreq);
    let mut data = write_segment(&schema, &[text_doc(0, "alpha beta gamma")]);
    let at = data.terms.len() - 12 * 3 - 10;
    data.terms[at] ^= 0x55;
    assert!(matches!(
        SegmentReader::open(1, &data.terms, data.postings, Vec::new(), 1),
        Err(SegmentError::CorruptedSegment)
    ));
}

#[test]
fn document_id_beyond_the_segment_is_corrupted() {
    let schema = text_schema(TextIndexingOptions::TokenizedNoFreq);
    let data = write_segment(&schema, &[text_doc(0, "a"), text_doc(0, "a b")]);
    let reader = SegmentReader::open(1, &data.terms, data.postings, Vec::new(), 1).unwrap();
    assert!(matches!(
        reader.search(&vec![body("a")]),
        Err(SegmentError::CorruptedSegment)
    ));
    assert!(matches!(
        reader.search(&vec![body("b")]),
        Err(SegmentError::CorruptedSegment)
    ));
    assert_eq!(reader.search(&vec![body("c")]).unwrap().collect(), Vec::<u32>::new());
}

#[test]
fn written_segment_opens_in_memory() {
    let schema = text_schema(TextIndexingOptions::TokenizedNoFreq);
    let mut writer = SegmentWriter::for_segment(BlockStore::new(1000, 64), &schema);
    writer.add_document(&text_doc(0, "red green"), &schema).unwrap();
    writer.add_document(&text_doc(0, "green blue"), &schema).unwrap();
    let reader = SegmentReader::open_written(writer, 3, Vec::new()).unwrap();
    assert_eq!(search(&reader, vec![body("green")]), vec![0, 1]);
    assert_eq!(search(&reader, vec![body("green"), body("blue")]), vec![1]);
    let info = reader.get_term(&body("red")).unwrap().unwrap();
    assert_eq!(info.doc_freq, 1);
}

#[test]
fn builder_opens_as_dictionary() {
    let mut builder = TermDictionaryBuilder::new();
    builder.insert(&vec![0, 1], TermInfo { doc_freq: 4, postings_offset: 9 }).unwrap();
    let dictionary = builder.into_dictionary().unwrap();
    assert_eq!(dictionary.get(&vec![0, 1]), Ok(Some(TermInfo { doc_freq: 4, postings_offset: 9 })));
    assert_eq!(dictionary.get(&vec![0]), Ok(None));
}

#[test]
fn postings_file_is_the_records_in_term_order() {
    let schema = text_schema(TextIndexingOptions::TokenizedNoFreq);
    let data = write_segment(&schema, &[text_doc(0, "b a"), text_doc(0, "a")]);
    let mut expected = segment_engine::codec::serialize_postings(&vec![0, 1]);
    let second_at = expected.len() as u64;
    expected.extend_from_slice(&segment_engine::codec::serialize_postings(&vec![0]));
    assert_eq!(data.postings, expected);
    let listed = TermDictionary::open(&data.terms).unwrap().stream().unwrap();
    assert_eq!(listed[0].1, TermInfo { doc_freq: 2, postings_offset: 0 });
    assert_eq!(listed[1].1, TermInfo { doc_freq: 1, postings_offset: second_at });
}
