use vstd::prelude::*;
use vstd::string::StringSliceAdditionalSpecFns;
use crate::errors::{LogMaterializerV2Error, MetadataValueConversionError};
use crate::metadata::{
    all_storable, merge_update_metadata, merged, option_patch_view, option_view, patched,
    update_metadata_to_metadata, Metadata, MetadataEntries, PatchEntries, UpdateMetadata,
};

verus! {

/// What a log entry asks for.
#[derive(Clone, Copy, Debug, PartialEq, Eq, Structural)]
pub enum Operation {
    Add,
    Update,
    Upsert,
    Delete,
}

/// How the components of an embedding are encoded.
#[derive(Clone, Copy, Debug, PartialEq, Eq, Structural)]
pub enum ScalarEncoding {
    Float32,
    Int32,
}

/// One mutation of the log. The components of an embedding are held as the
/// bit patterns of single-precision numbers.
#[derive(Clone, Debug)]
pub struct OperationRecord {
    pub id: String,
    pub embedding: Option<Vec<u32>>,
    pub encoding: Option<ScalarEncoding>,
    pub metadata: Option<UpdateMetadata>,
    pub document: Option<String>,
    pub operation: Operation,
}

/// A mutation with its position in the log.
#[derive(Clone, Debug)]
pub struct LogRecord {
    pub log_offset: i64,
    pub record: OperationRecord,
}

/// What the materializer reads of a mutation.
pub struct OperationView {
    pub id: Seq<char>,
    pub operation: Operation,
    pub embedding: Option<Seq<u32>>,
    pub metadata: Option<PatchEntries>,
    pub document: Option<Seq<char>>,
}

impl View for OperationRecord {
    type V = OperationView;

    open spec fn view(&self) -> OperationView {
        OperationView {
            id: self.id@,
            operation: self.operation,
            embedding: match self.embedding {
                Some(e) => Some(e@),
                None => None,
            },
            metadata: option_patch_view(self.metadata),
            document: match self.document {
                Some(d) => Some(d@),
                None => None,
            },
        }
    }
}

/// A record as the durable segment holds it.
#[derive(Clone, Debug)]
pub struct DataRecord<'a> {
    pub id: &'a str,
    pub embedding: &'a [u32],
    pub metadata: Option<Metadata>,
    pub document: Option<&'a str>,
}

pub struct DataRecordView {
    pub id: Seq<char>,
    pub embedding: Seq<u32>,
    pub metadata: Option<MetadataEntries>,
    pub document: Option<Seq<char>>,
}

/// The characters of an optional borrowed string.
pub open spec fn text_view(s: Option<&str>) -> Option<Seq<char>> {
    match s {
        Some(t) => Some(t@),
        None => None,
    }
}

/// The components of an optional borrowed embedding.
pub open spec fn embedding_view(e: Option<&[u32]>) -> Option<Seq<u32>> {
    match e {
        Some(t) => Some(t@),
        None => None,
    }
}

impl<'a> View for DataRecord<'a> {
    type V = DataRecordView;

    open spec fn view(&self) -> DataRecordView {
        DataRecordView {
            id: self.id@,
            embedding: self.embedding@,
            metadata: option_view(self.metadata),
            document: text_view(self.document),
        }
    }
}

impl<'a> DataRecord<'a> {
    /// The bytes that the record takes: those of the identifier, four for
    /// each component of the embedding, and those of the document.
    pub open spec fn spec_size(&self) -> int {
        self.id.spec_bytes().len() + 4 * self.embedding@.len() + match self.document {
            Some(d) => d.spec_bytes().len() as int,
            None => 0,
        }
    }

    pub fn get_size(&self) -> (size: usize)
        requires
            self.spec_size() <= usize::MAX,
        ensures
            size == self.spec_size(),
    {
        let id_size: usize = self.id.len();
        let embedding_size: usize = self.embedding.len() * 4;
        let document_size: usize = match self.document {
            Some(document) => document.len(),
            None => 0,
        };
        id_size + embedding_size + document_size
    }
}

/// A log entry with the offset and the record that it was materialized to.
#[derive(Debug)]
pub struct MaterializedLogRecord<'a> {
    pub segment_offset_id: u32,
    pub log_record: &'a LogRecord,
    pub materialized_record: DataRecord<'a>,
}

impl<'a> MaterializedLogRecord<'a> {
    pub fn new(
        segment_offset_id: u32,
        log_record: &'a LogRecord,
        materialized_record: DataRecord<'a>,
    ) -> (r: Self)
        ensures
            r.segment_offset_id == segment_offset_id,
            r.log_record == log_record,
            r.materialized_record == materialized_record,
    {
        Self { segment_offset_id, log_record, materialized_record }
    }
}

/// The net effect of a batch on one identifier.
#[derive(Clone, Debug)]
pub struct MaterializedLogRecordV2<'a> {
    data_record: Option<DataRecord<'a>>,
    offset_id: u32,
    user_id: Option<&'a str>,
    final_operation: Operation,
    metadata_to_be_merged: Option<Metadata>,
    final_document: Option<&'a str>,
    final_embedding: Option<&'a [u32]>,
}

/// A materialized record as plain values.
pub struct MaterializedView {
    /// The durable record of the identifier, where one existed before the batch.
    pub origin: Option<DataRecordView>,
    /// The durable offset, or the fresh one of a first insert.
    pub offset_id: u32,
    /// The identifier, for a record that the batch introduces.
    pub user_id: Option<Seq<char>>,
    pub final_operation: Operation,
    pub merged_metadata: Option<MetadataEntries>,
    pub final_document: Option<Seq<char>>,
    pub final_embedding: Option<Seq<u32>>,
}

impl MaterializedView {
    /// The identifier that the record stands for.
    pub open spec fn key(self) -> Seq<char> {
        match self.origin {
            Some(d) => d.id,
            None => match self.user_id {
                Some(u) => u,
                None => Seq::empty(),
            },
        }
    }

    /// The record of an identifier that is durable at `offset_id`, before any
    /// operation of the batch is folded in.
    pub open spec fn durable(origin: DataRecordView, offset_id: u32) -> MaterializedView {
        MaterializedView {
            origin: Some(origin),
            offset_id,
            user_id: None,
            final_operation: Operation::Add,
            merged_metadata: None,
            final_document: None,
            final_embedding: None,
        }
    }

    /// The record of a first insert by `op` at `offset_id`, or the reason why
    /// `op` cannot insert: a tombstone in its metadata, else a missing
    /// embedding.
    pub open spec fn inserted(op: OperationView, offset_id: u32, user_id: Seq<char>) -> Result<
        MaterializedView,
        LogMaterializerV2Error,
    > {
        if op.metadata is Some && !all_storable(op.metadata.unwrap()) {
            Err(
                LogMaterializerV2Error::MetadataMaterializationError(
                    MetadataValueConversionError::InvalidValue,
                ),
            )
        } else if op.embedding is None {
            Err(LogMaterializerV2Error::EmbeddingMaterializationError)
        } else {
            Ok(
                MaterializedView {
                    origin: None,
                    offset_id,
                    user_id: Some(user_id),
                    final_operation: Operation::Add,
                    merged_metadata: match op.metadata {
                        Some(p) => Some(patched(Seq::empty(), p, p.len())),
                        None => None,
                    },
                    final_document: op.document,
                    final_embedding: op.embedding,
                },
            )
        }
    }

    /// The record after an update by `op`: the metadata merged, the document
    /// and the embedding replaced where `op` brings one, and `final_operation`
    /// as the net operation.
    pub open spec fn updated(self, op: OperationView, final_operation: Operation) -> MaterializedView {
        MaterializedView {
            merged_metadata: merged(self.merged_metadata, op.metadata),
            final_document: if op.document is Some {
                op.document
            } else {
                self.final_document
            },
            final_embedding: if op.embedding is Some {
                op.embedding
            } else {
                self.final_embedding
            },
            final_operation,
            ..self
        }
    }

    /// The record after a delete: the payload cleared, origin and offset kept.
    pub open spec fn deleted(self) -> MaterializedView {
        MaterializedView {
            final_operation: Operation::Delete,
            merged_metadata: None,
            final_document: None,
            final_embedding: None,
            user_id: None,
            ..self
        }
    }
}

impl<'a> View for MaterializedLogRecordV2<'a> {
    type V = MaterializedView;

    closed spec fn view(&self) -> MaterializedView {
        MaterializedView {
            origin: match self.data_record {
                Some(d) => Some(d@),
                None => None,
            },
            offset_id: self.offset_id,
            user_id: text_view(self.user_id),
            final_operation: self.final_operation,
            merged_metadata: option_view(self.metadata_to_be_merged),
            final_document: text_view(self.final_document),
            final_embedding: embedding_view(self.final_embedding),
        }
    }
}

/// A result of `try_from` as plain values.
pub open spec fn materialized_result_view(
    r: Result<MaterializedLogRecordV2, LogMaterializerV2Error>,
) -> Result<MaterializedView, LogMaterializerV2Error> {
    match r {
        Ok(m) => Ok(m@),
        Err(e) => Err(e),
    }
}

impl<'a> MaterializedLogRecordV2<'a> {
    /// The record of an identifier found in the segment: the segment's record
    /// and its offset.
    pub fn from(data_record_info: (DataRecord<'a>, u32)) -> (r: Self)
        ensures
            r@ == MaterializedView::durable(data_record_info.0@, data_record_info.1),
    {
        let data_record = data_record_info.0;
        let offset_id = data_record_info.1;
        Self {
            data_record: Some(data_record),
            offset_id,
            user_id: None,
            final_operation: Operation::Add,
            metadata_to_be_merged: None,
            final_document: None,
            final_embedding: None,
        }
    }

    /// The record of a first insert: the operation, the offset it gets and
    /// the identifier.
    pub fn try_from(log_operation_info: (&'a OperationRecord, u32, &'a str)) -> (r: Result<
        Self,
        LogMaterializerV2Error,
    >)
        ensures
            materialized_result_view(r) == MaterializedView::inserted(
                log_operation_info.0@,
                log_operation_info.1,
                log_operation_info.2@,
            ),
    {
        let log_record = log_operation_info.0;
        let offset_id = log_operation_info.1;
        let user_id = log_operation_info.2;
        let metadata = match &log_record.metadata {
            Some(metadata) => match update_metadata_to_metadata(metadata) {
                Ok(m) => Some(m),
                Err(e) => {
                    return Err(LogMaterializerV2Error::MetadataMaterializationError(e));
                },
            },
            None => None,
        };
        let document = match &log_record.document {
            Some(doc) => Some(doc.as_str()),
            None => None,
        };
        let embedding = match &log_record.embedding {
            Some(embedding) => Some(embedding.as_slice()),
            None => {
                return Err(LogMaterializerV2Error::EmbeddingMaterializationError);
            },
        };
        Ok(
            Self {
                data_record: None,
                offset_id,
                user_id: Some(user_id),
                final_operation: Operation::Add,
                metadata_to_be_merged: metadata,
                final_document: document,
                final_embedding: embedding,
            },
        )
    }

    /// Folds an update by `op` into the record, with `final_operation` as the
    /// net operation from now on.
    pub fn apply_update(&mut self, op: &'a OperationRecord, final_operation: Operation)
        ensures
            final(self)@ == old(self)@.updated(op@, final_operation),
    {
        let m = merge_update_metadata(&self.metadata_to_be_merged, &op.metadata);
        self.metadata_to_be_merged = m;
        match &op.document {
            Some(doc) => {
                self.final_document = Some(doc.as_str());
            },
            None => {},
        }
        match &op.embedding {
            Some(embedding) => {
                self.final_embedding = Some(embedding.as_slice());
            },
            None => {},
        }
        self.final_operation = final_operation;
    }

    /// Folds a delete into the record.
    pub fn mark_deleted(&mut self)
        ensures
            final(self)@ == old(self)@.deleted(),
    {
        self.final_operation = Operation::Delete;
        self.final_document = None;
        self.final_embedding = None;
        self.metadata_to_be_merged = None;
        self.user_id = None;
    }

    /// The identifier that the record stands for.
    pub fn key(&self) -> (k: &'a str)
        ensures
            k@ == self@.key(),
    {
        match &self.data_record {
            Some(d) => d.id,
            None => match self.user_id {
                Some(u) => u,
                None => {
                    proof {
                        reveal_strlit("");
                    }
                    ""
                },
            },
        }
    }

    pub fn data_record(&self) -> (r: Option<&DataRecord<'a>>)
        ensures
            match r {
                Some(d) => self@.origin == Some(d@),
                None => self@.origin.is_none(),
            },
    {
        self.data_record.as_ref()
    }

    pub fn offset_id(&self) -> (r: u32)
        ensures
            r == self@.offset_id,
    {
        self.offset_id
    }

    pub fn user_id(&self) -> (r: Option<&'a str>)
        ensures
            text_view(r) == self@.user_id,
    {
        self.user_id
    }

    pub fn final_operation(&self) -> (r: Operation)
        ensures
            r == self@.final_operation,
    {
        self.final_operation
    }

    pub fn metadata_to_be_merged(&self) -> (r: Option<&Metadata>)
        ensures
            match r {
                Some(m) => self@.merged_metadata == Some(m@),
                None => self@.merged_metadata.is_none(),
            },
    {
        self.metadata_to_be_merged.as_ref()
    }

    pub fn final_document(&self) -> (r: Option<&'a str>)
        ensures
            text_view(r) == self@.final_document,
    {
        self.final_document
    }

    pub fn final_embedding(&self) -> (r: Option<&'a [u32]>)
        ensures
            embedding_view(r) == self@.final_embedding,
    {
        self.final_embedding
    }
}

} // verus!
