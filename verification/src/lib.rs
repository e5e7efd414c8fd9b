//! Audit metadata for compiled binaries: bounded extraction of the embedded,
//! compressed dependency list, and normalization of a resolved dependency
//! graph into the canonical package list.

pub mod canonical;
pub mod error;
pub mod extract;
pub mod kind;
pub mod laws;
pub mod limits;
pub mod metadata;
pub mod normalize;
pub mod package;
pub mod reorder;
pub mod text;

pub use error::{Error, InflateError, SegmentError};
pub use extract::{
    check_inflated, check_segment, decompress_audit_data, get_compressed_audit_data,
    raw_audit_info_from_input, raw_audit_info_from_slice,
};
pub use kind::{is_default, strongest_dep_kind, DependencyKind, PrivateDepKind};
pub use limits::Limits;
pub use metadata::{Metadata, MetadataPackage, Node, NodeDep, Resolve};
pub use package::{Package, RawVersionInfo};
pub use text::source_to_source_string;
