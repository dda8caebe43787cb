//! A small manifest format for selecting files and directories: its parser,
//! a resolver that applies a manifest to a snapshot of a filesystem, the
//! selection of output paths from a resolved tree, and the text views and
//! editor diagnostics built on them.

pub mod manifest;
pub mod text;
pub mod parser;
pub mod paths;
pub mod fs;
pub mod ignore;
pub mod resolver;
pub mod output;
pub mod guarantees;
pub mod placement;
pub mod diagnostics;
pub mod cli;

pub use manifest::{Entry, Manifest};
pub use parser::{parse_manifest, ParseError, ParseErrorKind};
pub use fs::{FsNode, Probe, ResolvedEntryKind};
pub use resolver::{
    resolve_manifest, FsRequest, Resolution, ResolveError, ResolvedEntry, ResolvedTree,
};
pub use output::{output_paths, OutputPath};
