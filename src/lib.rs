//! Structured access to a captured device-configuration tree: a depth-first
//! node walker with subtree pruning, typed property decoding, minor-node
//! enumeration, device-link accumulation and instance-to-disk-name mapping.

mod devlink;
mod dim;
mod error;
mod minor;
mod order;
mod prop;
mod text;
mod tree;

pub use devlink::{
    devlink_accumulate, links_result, DevLink, DevLinkType, DI_PRIMARY_LINK, DI_SECONDARY_LINK,
    DI_WALK_CONTINUE,
};
pub use dim::{disk_name_from_path, whole_disk_name_from_path, DiskNameSearch};
pub use error::Error;
pub use minor::{is_raw_disk, Minor, MinorRecord, MinorWalk, SpecType, S_IFBLK, S_IFCHR};
pub use order::{
    is_ancestor, later_sibling, lemma_prune_keeps_siblings, lemma_prune_skips_subtree,
    lemma_pruned_walk_sequence, lemma_walk_preorder, lemma_walk_visits_each_once, not_below,
    preorder, pruned_preorder, under, walk_run, walk_run_pruning, walk_yield, walk_yield_pruning,
};
pub use prop::{lemma_decode_by_kind, string_props, Property, PropRecord, PropType, PropertyWalk};
pub use text::{has_prefix, strip_prefix, strip_suffix, text_equals};
pub use tree::{DevInfo, DriverWalk, Node, NodeRecord, NodeWalk, NO_INSTANCE};
