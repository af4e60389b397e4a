//! In-process object database core: the object-log record format, the
//! rebuildable join projection, object-set evaluation, schema and overlay
//! descriptors, the ingest folds that feed the log, and the wire forms of a
//! host's requests.

pub mod acl;
pub mod actions;
pub mod codec;
pub mod compute;
pub mod ingest;
pub mod joins;
pub mod logfmt;
pub mod objectset;
pub mod overlay;
pub mod page;
pub mod pagelog;
pub mod props;
pub mod rebuild;
pub mod record;
pub mod schema;
pub mod sidecar;
pub mod store;
pub mod strs;
pub mod text;
pub mod timestamp;
pub mod value;
pub mod wire;

pub use acl::{AclError, PropertyAcl};
pub use actions::Action;
pub use compute::{ComputeBackend, ComputeError, LocalCompute, SparkCompute};
pub use ingest::{
    fold_last_wins, merge_source_and_edits, snapshot_changelog, source_payload_eq, BatchIngest, ChangelogIngest,
    MergeIngest, StreamIngest,
};
pub use joins::JoinMaps;
pub use logfmt::{decode_body, encode_body, parse_superblock, read_log, superblock_bytes, PAGE};
pub use objectset::{Aggregate, EvaluateRequest, EvaluateResponse, ExactMatch, Hop, ObjectSet, Predicate, Sort};
pub use overlay::{OverlayPatch, OVERLAY_CLEARED, OVERLAY_KIND};
pub use page::{decode_cursor, encode_cursor, query_fingerprint, PageCursor};
pub use pagelog::{LogWrite, PageLog, SyncPolicy};
pub use props::Props;
pub use record::ObjectRecord;
pub use schema::{
    SchemaDescriptor, SchemaLink, SCHEMA_KIND, SCHEMA_LINKS, SCHEMA_PROPERTIES, SCHEMA_REQUIRED, SCHEMA_SUMS,
    SCHEMA_TYPES,
};
pub use store::Store;
pub use value::{Order, PropertyType, PropertyValue};
pub use wire::{
    WireDeny, WireEvaluate, WireFilter, WireHop, WireIdentity, WirePredicate, WireRestriction, WireSort, WIRE_V,
};
