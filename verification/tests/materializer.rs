use log_materializer::allocator::OffsetAllocator;
use log_materializer::errors::{ErrorCodes, LogMaterializerV2Error, MetadataValueConversionError};
use log_materializer::materializer::{LogMaterializerV2, LookupStep};
use log_materializer::metadata::{
    merge_update_metadata, update_metadata_to_metadata, Metadata, MetadataValue, UpdateMetadata,
    UpdateMetadataValue,
};
use log_materializer::record::{
    DataRecord, LogRecord, MaterializedLogRecord, MaterializedLogRecordV2, Operation,
    OperationRecord,
};

fn bits(values: &[f32]) -> Vec<u32> {
    values.iter().map(|v| v.to_bits()).collect()
}

fn floats(values: &[u32]) -> Vec<f32> {
    values.iter().map(|v| f32::from_bits(*v)).collect()
}

fn text(s: &str) -> MetadataValue {
    MetadataValue::Str(String::from(s))
}

fn patch_of(entries: &[(&str, UpdateMetadataValue)]) -> UpdateMetadata {
    let mut patch = UpdateMetadata::new();
    for (key, value) in entries {
        patch.insert(String::from(*key), value.clone());
    }
    patch
}

fn log(
    log_offset: i64,
    id: &str,
    operation: Operation,
    embedding: Option<&[f32]>,
    metadata: Option<UpdateMetadata>,
    document: Option<&str>,
) -> LogRecord {
    LogRecord {
        log_offset,
        record: OperationRecord {
            id: id.to_string(),
            embedding: embedding.map(bits),
            encoding: None,
            metadata,
            document: document.map(String::from),
            operation,
        },
    }
}

fn find<'r, 'a>(
    records: &'r [MaterializedLogRecordV2<'a>],
    id: &str,
) -> Vec<&'r MaterializedLogRecordV2<'a>> {
    records.iter().filter(|r| r.key() == id).collect()
}

#[test]
fn test_materializer_v2() {
    let mut stored = Metadata::new();
    stored.insert(String::from("hello"), text("world"));
    stored.insert(String::from("bye"), text("world"));
    let emb1 = bits(&[1.0, 2.0, 3.0]);
    let emb2 = bits(&[4.0, 5.0, 6.0]);

    let mut update_metadata = UpdateMetadata::new();
    update_metadata.insert(
        String::from("hello"),
        UpdateMetadataValue::Str(String::from("new_world")),
    );
    update_metadata.insert(
        String::from("hello_again"),
        UpdateMetadataValue::Str(String::from("new_world")),
    );
    let data = vec![
        LogRecord {
            log_offset: 3,
            record: OperationRecord {
                id: "embedding_id_1".to_string(),
                embedding: None,
                encoding: None,
                metadata: Some(update_metadata.clone()),
                document: None,
                operation: Operation::Update,
            },
        },
        LogRecord {
            log_offset: 4,
            record: OperationRecord {
                id: "embedding_id_3".to_string(),
                embedding: Some(bits(&[7.0, 8.0, 9.0])),
                encoding: None,
                metadata: Some(update_metadata),
                document: Some(String::from("doc3")),
                operation: Operation::Add,
            },
        },
        LogRecord {
            log_offset: 5,
            record: OperationRecord {
                id: "embedding_id_2".to_string(),
                embedding: None,
                encoding: None,
                metadata: None,
                document: None,
                operation: Operation::Delete,
            },
        },
    ];
    let mut curr_max_offset_id = OffsetAllocator::new(3);
    let mut materializer = LogMaterializerV2::new(&data);
    materializer.record_existing(
        DataRecord {
            id: "embedding_id_1",
            embedding: &emb1,
            metadata: Some(stored.clone()),
            document: Some("doc1"),
        },
        1,
    );
    materializer.record_existing(
        DataRecord {
            id: "embedding_id_2",
            embedding: &emb2,
            metadata: Some(stored.clone()),
            document: Some("doc2"),
        },
        2,
    );
    let res = materializer
        .materializeV2(&mut curr_max_offset_id)
        .expect("Error materializing logs");
    assert_eq!(3, res.len());
    let mut id1_found = 0;
    let mut id2_found = 0;
    let mut id3_found = 0;
    for log in res.iter() {
        if log.user_id().is_some() {
            id3_found += 1;
            assert_eq!("embedding_id_3", log.user_id().unwrap());
            assert_eq!(true, log.data_record().is_none());
            assert_eq!("doc3", log.final_document().unwrap());
            assert_eq!(vec![7.0, 8.0, 9.0], floats(log.final_embedding().unwrap()));
            assert_eq!(3, log.offset_id());
            assert_eq!(Operation::Add, log.final_operation());
            let mut hello_found = 0;
            let mut hello_again_found = 0;
            let metadata = log.metadata_to_be_merged().unwrap();
            let mut i = 0;
            while let Some((key, value)) = metadata.entry(i) {
                if key == "hello" {
                    assert_eq!(MetadataValue::Str(String::from("new_world")), *value);
                    hello_found += 1;
                } else if key == "hello_again" {
                    assert_eq!(MetadataValue::Str(String::from("new_world")), *value);
                    hello_again_found += 1;
                } else {
                    panic!("Not expecting any other key");
                }
                i += 1;
            }
            assert_eq!(hello_found, 1);
            assert_eq!(hello_again_found, 1);
        } else if log.data_record().unwrap().id == "embedding_id_2" {
            id2_found += 1;
            assert_eq!(Operation::Delete, log.final_operation());
            assert_eq!(2, log.offset_id());
            assert_eq!(None, log.final_document());
            assert_eq!(None, log.final_embedding());
            assert_eq!(None, log.user_id());
            assert!(log.metadata_to_be_merged().is_none());
            assert_eq!(true, log.data_record().is_some());
        } else if log.data_record().unwrap().id == "embedding_id_1" {
            id1_found += 1;
            assert_eq!(Operation::Update, log.final_operation());
            assert_eq!(1, log.offset_id());
            assert_eq!(None, log.final_document());
            assert_eq!(None, log.final_embedding());
            assert_eq!(None, log.user_id());
            let mut hello_found = 0;
            let mut hello_again_found = 0;
            let metadata = log.metadata_to_be_merged().unwrap();
            let mut i = 0;
            while let Some((key, value)) = metadata.entry(i) {
                if key == "hello" {
                    assert_eq!(MetadataValue::Str(String::from("new_world")), *value);
                    hello_found += 1;
                } else if key == "hello_again" {
                    assert_eq!(MetadataValue::Str(String::from("new_world")), *value);
                    hello_again_found += 1;
                } else {
                    panic!("Not expecting any other key");
                }
                i += 1;
            }
            assert_eq!(hello_found, 1);
            assert_eq!(hello_again_found, 1);
            assert_eq!(true, log.data_record().is_some());
            assert_eq!(log.data_record().unwrap().document, Some("doc1"));
            assert_eq!(
                floats(log.data_record().unwrap().embedding),
                vec![1.0, 2.0, 3.0]
            );
            hello_found = 0;
            let mut bye_found = 0;
            let origin = log.data_record().unwrap().metadata.as_ref().unwrap();
            let mut i = 0;
            while let Some((key, value)) = origin.entry(i) {
                if key == "hello" {
                    assert_eq!(MetadataValue::Str(String::from("world")), *value);
                    hello_found += 1;
                } else if key == "bye" {
                    assert_eq!(MetadataValue::Str(String::from("world")), *value);
                    bye_found += 1;
                } else {
                    panic!("Not expecting any other key");
                }
                i += 1;
            }
            assert_eq!(hello_found, 1);
            assert_eq!(bye_found, 1);
        } else {
            panic!("Not expecting any other materialized record");
        }
    }
    assert_eq!(1, id1_found);
    assert_eq!(1, id2_found);
    assert_eq!(1, id3_found);
    assert_eq!(4, curr_max_offset_id.peek());
}

#[test]
fn test_materialize() {
    let mut metadata_1 = Metadata::new();
    metadata_1.insert("key".to_string(), MetadataValue::Str("value".to_string()));
    let metadata_1 = Some(metadata_1);

    let data = vec![
        log(1, "embedding_id_1", Operation::Add, None, None, None),
        log(2, "embedding_id_2", Operation::Add, None, None, None),
        log(3, "embedding_id_1", Operation::Add, None, None, None),
    ];

    let materialized_data = data
        .iter()
        .map(|record| {
            MaterializedLogRecord::new(
                0,
                record,
                DataRecord {
                    id: &record.record.id,
                    embedding: &[],
                    metadata: metadata_1.clone(),
                    document: None,
                },
            )
        })
        .collect::<Vec<_>>();

    assert_eq!(3, materialized_data.len());
    assert_eq!(0, materialized_data[0].segment_offset_id);
    assert_eq!(3, materialized_data[2].log_record.log_offset);
    assert_eq!("embedding_id_2", materialized_data[1].materialized_record.id);
    drop(materialized_data);
    drop(data);
}

#[test]
fn add_then_delete_leaves_no_record() {
    let data = vec![
        log(1, "a", Operation::Add, Some(&[1.0]), None, Some("x")),
        log(2, "b", Operation::Add, Some(&[2.0]), None, None),
        log(3, "a", Operation::Update, None, None, Some("y")),
        log(4, "a", Operation::Delete, None, None, None),
    ];
    let mut allocator = OffsetAllocator::new(10);
    let res = LogMaterializerV2::new(&data).materializeV2(&mut allocator).unwrap();
    assert_eq!(1, res.len());
    assert!(find(&res, "a").is_empty());
    assert_eq!(Some("b"), res[0].user_id());
    assert_eq!(11, res[0].offset_id());
    assert_eq!(12, allocator.peek());
}

#[test]
fn durable_delete_keeps_origin_and_offset() {
    let emb = bits(&[1.0, 2.0]);
    let data = vec![
        log(1, "a", Operation::Update, Some(&[9.0]), None, Some("changed")),
        log(2, "a", Operation::Delete, None, None, None),
        log(3, "b", Operation::Add, Some(&[3.0]), None, None),
    ];
    let mut allocator = OffsetAllocator::new(8);
    let mut materializer = LogMaterializerV2::new(&data);
    materializer.record_existing(
        DataRecord { id: "a", embedding: &emb, metadata: None, document: Some("old") },
        7,
    );
    let res = materializer.materializeV2(&mut allocator).unwrap();
    let hits = find(&res, "a");
    assert_eq!(1, hits.len());
    assert_eq!(7, hits[0].offset_id());
    assert_eq!(Operation::Delete, hits[0].final_operation());
    assert_eq!(None, hits[0].final_document());
    assert_eq!(None, hits[0].final_embedding());
    assert_eq!(None, hits[0].user_id());
    assert!(hits[0].metadata_to_be_merged().is_none());
    assert_eq!("a", hits[0].data_record().unwrap().id);
    assert_eq!(Some("old"), hits[0].data_record().unwrap().document);
}

#[test]
fn add_after_durable_delete_is_ignored() {
    let emb = bits(&[1.0]);
    let data = vec![
        log(1, "a", Operation::Delete, None, None, None),
        log(2, "a", Operation::Add, Some(&[5.0]), None, Some("again")),
    ];
    let mut allocator = OffsetAllocator::new(2);
    let mut materializer = LogMaterializerV2::new(&data);
    materializer
        .record_existing(DataRecord { id: "a", embedding: &emb, metadata: None, document: None }, 1);
    let res = materializer.materializeV2(&mut allocator).unwrap();
    assert_eq!(1, res.len());
    assert_eq!(Operation::Delete, res[0].final_operation());
    assert_eq!(None, res[0].final_document());
    assert_eq!(2, allocator.peek());
}

#[test]
fn update_after_insert_stays_add() {
    let data = vec![
        log(1, "a", Operation::Add, Some(&[1.0]), None, Some("first")),
        log(2, "a", Operation::Update, Some(&[2.0]), None, None),
        log(3, "a", Operation::Upsert, None, None, Some("third")),
    ];
    let mut allocator = OffsetAllocator::new(0);
    let res = LogMaterializerV2::new(&data).materializeV2(&mut allocator).unwrap();
    assert_eq!(1, res.len());
    assert_eq!(Operation::Add, res[0].final_operation());
    assert_eq!(Some("a"), res[0].user_id());
    assert_eq!(0, res[0].offset_id());
    assert_eq!(Some("third"), res[0].final_document());
    assert_eq!(vec![2.0], floats(res[0].final_embedding().unwrap()));
    assert!(res[0].data_record().is_none());
}

#[test]
fn metadata_merge_is_last_write_per_key() {
    let data = vec![
        log(
            1,
            "a",
            Operation::Add,
            Some(&[1.0]),
            Some(patch_of(&[("a", UpdateMetadataValue::Int(1))])),
            None,
        ),
        log(
            2,
            "a",
            Operation::Update,
            None,
            Some(patch_of(&[
                ("a", UpdateMetadataValue::Int(2)),
                ("b", UpdateMetadataValue::Int(3)),
            ])),
            None,
        ),
    ];
    let mut allocator = OffsetAllocator::new(1);
    let res = LogMaterializerV2::new(&data).materializeV2(&mut allocator).unwrap();
    assert_eq!(1, res.len());
    let merged = res[0].metadata_to_be_merged().unwrap();
    assert_eq!(2, merged.len());
    assert_eq!(Some(&MetadataValue::Int(2)), merged.get("a"));
    assert_eq!(Some(&MetadataValue::Int(3)), merged.get("b"));
    assert_eq!(None, merged.get("c"));
}

#[test]
fn merge_tombstone_removes_key() {
    let mut base = Metadata::new();
    base.insert(String::from("keep"), MetadataValue::Float(1.5f64.to_bits()));
    base.insert(String::from("drop"), text("x"));
    let patch = patch_of(&[
        ("drop", UpdateMetadataValue::Tombstone),
        ("new", UpdateMetadataValue::Str(String::from("y"))),
        ("gone", UpdateMetadataValue::Tombstone),
    ]);
    let merged = merge_update_metadata(&Some(base), &Some(patch)).unwrap();
    assert_eq!(2, merged.len());
    assert_eq!(Some(&MetadataValue::Float(1.5f64.to_bits())), merged.get("keep"));
    assert_eq!(None, merged.get("drop"));
    assert_eq!(Some(&text("y")), merged.get("new"));
    assert_eq!("keep", merged.entry(0).unwrap().0);
    assert_eq!("new", merged.entry(1).unwrap().0);
    assert!(merged.entry(2).is_none());
}

#[test]
fn merge_of_nothing_is_nothing() {
    assert!(merge_update_metadata(&None, &None).is_none());
    let patch = patch_of(&[("a", UpdateMetadataValue::Tombstone)]);
    let mut base = Metadata::new();
    base.insert(String::from("a"), MetadataValue::Int(1));
    assert!(merge_update_metadata(&Some(base.clone()), &Some(patch)).is_none());
    let same = merge_update_metadata(&Some(base), &None).unwrap();
    assert_eq!(Some(&MetadataValue::Int(1)), same.get("a"));
    assert_eq!(1, same.len());
}

#[test]
fn metadata_insert_replaces_in_place() {
    let mut m = Metadata::new();
    m.insert(String::from("a"), MetadataValue::Int(1));
    m.insert(String::from("b"), MetadataValue::Int(2));
    m.insert(String::from("a"), MetadataValue::Int(3));
    assert_eq!(2, m.len());
    assert_eq!("a", m.entry(0).unwrap().0);
    assert_eq!(&MetadataValue::Int(3), m.entry(0).unwrap().1);
    assert_eq!(Some(&MetadataValue::Int(2)), m.get("b"));
    assert_eq!(None, m.get("ab"));
    assert!(m.remove("a"));
    assert!(!m.remove("a"));
    assert_eq!(1, m.len());
    assert_eq!("b", m.entry(0).unwrap().0);
}

#[test]
fn patch_conversion_rejects_tombstone() {
    let ok = patch_of(&[("a", UpdateMetadataValue::Int(1)), ("b", UpdateMetadataValue::Float(7))]);
    let stored = update_metadata_to_metadata(&ok).unwrap();
    assert_eq!(Some(&MetadataValue::Int(1)), stored.get("a"));
    assert_eq!(Some(&MetadataValue::Float(7)), stored.get("b"));
    let bad = patch_of(&[("a", UpdateMetadataValue::Int(1)), ("b", UpdateMetadataValue::Tombstone)]);
    assert_eq!(
        Some(MetadataValueConversionError::InvalidValue),
        update_metadata_to_metadata(&bad).err()
    );
    assert_eq!(Some(&UpdateMetadataValue::Tombstone), bad.get("b"));
    assert_eq!(2, bad.len());
}

#[test]
fn offsets_are_distinct_and_rise() {
    let e1 = bits(&[1.0]);
    let e2 = bits(&[2.0]);
    let data = vec![
        log(1, "n1", Operation::Add, Some(&[1.0]), None, None),
        log(2, "n2", Operation::Upsert, Some(&[1.0]), None, None),
        log(3, "n1", Operation::Delete, None, None, None),
        log(4, "n3", Operation::Add, Some(&[1.0]), None, None),
        log(5, "d1", Operation::Upsert, None, None, Some("up")),
        log(6, "n1", Operation::Add, Some(&[4.0]), None, None),
    ];
    let mut allocator = OffsetAllocator::new(5);
    let mut materializer = LogMaterializerV2::new(&data);
    materializer
        .record_existing(DataRecord { id: "d1", embedding: &e1, metadata: None, document: None }, 1);
    materializer
        .record_existing(DataRecord { id: "d2", embedding: &e2, metadata: None, document: None }, 4);
    let res = materializer.materializeV2(&mut allocator).unwrap();
    let offsets: Vec<u32> = res.iter().map(|r| r.offset_id()).collect();
    assert_eq!(vec![1, 4, 6, 7, 8], offsets);
    let keys: Vec<&str> = res.iter().map(|r| r.key()).collect();
    assert_eq!(vec!["d1", "d2", "n2", "n3", "n1"], keys);
    assert_eq!(Operation::Upsert, res[0].final_operation());
    assert_eq!(Some("up"), res[0].final_document());
    assert_eq!(Operation::Add, res[1].final_operation());
    assert_eq!(9, allocator.peek());
}

#[test]
fn unknown_identifier_update_and_delete_are_ignored() {
    let data = vec![
        log(1, "ghost", Operation::Update, Some(&[1.0]), None, Some("x")),
        log(2, "ghost", Operation::Delete, None, None, None),
    ];
    let mut allocator = OffsetAllocator::new(3);
    let res = LogMaterializerV2::new(&data).materializeV2(&mut allocator).unwrap();
    assert!(res.is_empty());
    assert_eq!(3, allocator.peek());
}

#[test]
fn insert_without_embedding_fails() {
    let data = vec![
        log(1, "a", Operation::Add, Some(&[1.0]), None, None),
        log(2, "b", Operation::Upsert, None, None, Some("doc")),
        log(3, "c", Operation::Add, Some(&[1.0]), None, None),
    ];
    let mut allocator = OffsetAllocator::new(3);
    let err = LogMaterializerV2::new(&data).materializeV2(&mut allocator).unwrap_err();
    assert_eq!(LogMaterializerV2Error::EmbeddingMaterializationError, err);
    assert_eq!(ErrorCodes::Internal, err.code());
    assert_eq!(5, allocator.peek());
}

#[test]
fn insert_with_tombstone_fails() {
    let data = vec![log(
        1,
        "a",
        Operation::Add,
        None,
        Some(patch_of(&[("k", UpdateMetadataValue::Tombstone)])),
        None,
    )];
    let mut allocator = OffsetAllocator::new(0);
    let err = LogMaterializerV2::new(&data).materializeV2(&mut allocator).unwrap_err();
    assert_eq!(
        LogMaterializerV2Error::MetadataMaterializationError(
            MetadataValueConversionError::InvalidValue
        ),
        err
    );
    assert_eq!(ErrorCodes::InvalidArgument, err.code());
}

#[test]
fn segment_error_forwards_its_code() {
    let err = LogMaterializerV2Error::RecordSegmentError(ErrorCodes::NotFound);
    assert_eq!(ErrorCodes::NotFound, err.code());
    assert_eq!(ErrorCodes::InvalidArgument, MetadataValueConversionError::InvalidValue.code());
}

#[test]
fn duplicate_add_keeps_first() {
    let data = vec![
        log(1, "a", Operation::Add, Some(&[1.0]), None, Some("first")),
        log(2, "a", Operation::Add, Some(&[2.0]), None, Some("second")),
        log(3, "ab", Operation::Add, Some(&[3.0]), None, None),
    ];
    let mut allocator = OffsetAllocator::new(1);
    let res = LogMaterializerV2::new(&data).materializeV2(&mut allocator).unwrap();
    assert_eq!(2, res.len());
    assert_eq!(Some("first"), res[0].final_document());
    assert_eq!(1, res[0].offset_id());
    assert_eq!(Some("ab"), res[1].user_id());
    assert_eq!(2, res[1].offset_id());
}

#[test]
fn repeated_lookup_result_replaces_in_place() {
    let e1 = bits(&[1.0]);
    let data = vec![log(1, "a", Operation::Update, None, None, Some("d"))];
    let mut materializer = LogMaterializerV2::new(&data);
    materializer
        .record_existing(DataRecord { id: "a", embedding: &e1, metadata: None, document: None }, 1);
    materializer
        .record_existing(DataRecord { id: "b", embedding: &e1, metadata: None, document: None }, 2);
    materializer
        .record_existing(DataRecord { id: "a", embedding: &e1, metadata: None, document: None }, 1);
    assert_eq!("a", materializer.operation_at(0).unwrap().id);
    assert!(materializer.operation_at(1).is_none());
    let mut allocator = OffsetAllocator::new(3);
    let res = materializer.materializeV2(&mut allocator).unwrap();
    assert_eq!(2, res.len());
    assert_eq!("a", res[0].key());
    assert_eq!(Operation::Update, res[0].final_operation());
    assert_eq!(Some("d"), res[0].final_document());
    assert_eq!("b", res[1].key());
    assert_eq!(Operation::Add, res[1].final_operation());
}

#[test]
fn record_size_counts_bytes() {
    let emb = bits(&[1.0, 2.0, 3.0]);
    let record = DataRecord { id: "id1", embedding: &emb, metadata: None, document: Some("hello") };
    assert_eq!(3 + 12 + 5, record.get_size());
    let bare = DataRecord { id: "", embedding: &[], metadata: None, document: None };
    assert_eq!(0, bare.get_size());
}

#[test]
fn allocator_counts_up_and_wraps() {
    let mut allocator = OffsetAllocator::new(u32::MAX - 1);
    assert_eq!(u32::MAX - 1, allocator.next());
    assert_eq!(u32::MAX, allocator.next());
    assert_eq!(0, allocator.next());
    assert_eq!(1, allocator.peek());
}

#[test]
fn from_and_try_from_build_records() {
    let emb = bits(&[1.0]);
    let durable = MaterializedLogRecordV2::from((
        DataRecord { id: "a", embedding: &emb, metadata: None, document: None },
        9,
    ));
    assert_eq!(9, durable.offset_id());
    assert_eq!(Operation::Add, durable.final_operation());
    assert_eq!(None, durable.user_id());
    assert_eq!("a", durable.key());
    let entry = log(1, "b", Operation::Add, Some(&[2.0]), Some(UpdateMetadata::new()), Some("d"));
    let fresh = MaterializedLogRecordV2::try_from((&entry.record, 4, "b")).unwrap();
    assert_eq!(4, fresh.offset_id());
    assert_eq!(Some("b"), fresh.user_id());
    assert_eq!(Some("d"), fresh.final_document());
    assert_eq!(0, fresh.metadata_to_be_merged().unwrap().len());
    assert!(fresh.data_record().is_none());
}

#[test]
fn lookups_ask_once_for_each_identifier() {
    let e1 = bits(&[1.0]);
    let data = vec![
        log(1, "a", Operation::Add, Some(&[1.0]), None, None),
        log(2, "a", Operation::Update, None, None, None),
        log(3, "b", Operation::Delete, None, None, None),
        log(4, "a", Operation::Delete, None, None, None),
        log(5, "b", Operation::Upsert, Some(&[2.0]), None, None),
    ];
    let mut materializer = LogMaterializerV2::new(&data);
    assert_eq!(LookupStep::Exists(0), materializer.first_lookup());
    assert_eq!(Ok(LookupStep::Exists(2)), materializer.on_exists(0, Ok(false)));
    assert_eq!(Ok(LookupStep::Fetch(2)), materializer.on_exists(2, Ok(true)));
    let found = DataRecord { id: "b", embedding: &e1, metadata: None, document: Some("old") };
    assert_eq!(Ok(LookupStep::Done), materializer.on_fetched(2, Ok((found, 6))));
    assert_eq!(LookupStep::Exists(2), materializer.lookup_from(1));
    assert_eq!(LookupStep::Done, materializer.lookup_from(3));
    assert_eq!(LookupStep::Done, materializer.lookup_from(9));
    let mut allocator = OffsetAllocator::new(7);
    let res = materializer.materializeV2(&mut allocator).unwrap();
    assert_eq!(1, res.len());
    assert_eq!("b", res[0].key());
    assert_eq!(6, res[0].offset_id());
    assert_eq!(Operation::Upsert, res[0].final_operation());
    assert_eq!(vec![2.0], floats(res[0].final_embedding().unwrap()));
    assert_eq!(None, res[0].final_document());
    assert_eq!(8, allocator.peek());
}

#[test]
fn failed_lookup_gives_segment_error() {
    let data = vec![log(1, "a", Operation::Add, Some(&[1.0]), None, None)];
    let mut materializer = LogMaterializerV2::new(&data);
    assert_eq!(
        Err(LogMaterializerV2Error::RecordSegmentError(ErrorCodes::Unavailable)),
        materializer.on_exists(0, Err(ErrorCodes::Unavailable))
    );
    assert_eq!(
        Err(LogMaterializerV2Error::RecordSegmentError(ErrorCodes::DataLoss)),
        materializer.on_fetched(0, Err(ErrorCodes::DataLoss))
    );
    let empty: Vec<LogRecord> = Vec::new();
    assert_eq!(LookupStep::Done, LogMaterializerV2::new(&empty).first_lookup());
}

#[test]
fn keys_compare_by_their_characters() {
    let mut m = Metadata::new();
    m.insert(String::from("caf\u{e9}"), MetadataValue::Int(1));
    m.insert(String::from("cafe"), MetadataValue::Int(2));
    m.insert(String::from("caf"), MetadataValue::Int(3));
    m.insert(String::from(""), MetadataValue::Int(4));
    m.insert(String::from("caf\u{e9}"), MetadataValue::Int(5));
    assert_eq!(4, m.len());
    assert_eq!(Some(&MetadataValue::Int(5)), m.get("caf\u{e9}"));
    assert_eq!(Some(&MetadataValue::Int(2)), m.get("cafe"));
    assert_eq!(Some(&MetadataValue::Int(3)), m.get("caf"));
    assert_eq!(Some(&MetadataValue::Int(4)), m.get(""));
    assert_eq!(None, m.get("caf\u{e8}"));
    assert_eq!(None, m.get("CAFE"));
}
