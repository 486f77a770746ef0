use vstd::prelude::*;

pub mod address;
pub mod archive;
pub mod archive_list;
pub mod cache;
pub mod cli;
pub mod colors;
pub mod commands;
pub mod entries;
pub mod names;
pub mod paths;
pub mod prepare_status;
pub mod remote_list;
pub mod strip;
pub mod sync;
pub mod tabs;
pub mod taildrive;
pub mod tailnets;
pub mod text;
pub mod transfer;
pub mod transfer_list;
pub mod unique_names;

verus! {
}
