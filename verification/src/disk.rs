//! The data model of the boot disk-image configuration.
//!
//! The build tooling assembles a partitioned disk image for the boot loader
//! from a declarative manifest.  The choices that manifest can express are
//! carried here as plain values; the image writing itself is input/output
//! work that stays with the tooling around the library.

use vstd::prelude::*;

verus! {

/// The partition table format of the disk image.
#[derive(Clone, Copy, Debug, PartialEq, Eq, Structural)]
pub enum ManifestDiskTable {
    GPT,
}

pub open spec fn disk_table_name(t: ManifestDiskTable) -> Seq<char> {
    match t {
        ManifestDiskTable::GPT => "gpt"@,
    }
}

impl ManifestDiskTable {
    /// The name this format carries in the manifest.
    pub fn manifest_name(&self) -> (r: &'static str)
        ensures
            r@ == disk_table_name(*self),
    {
        match *self {
            ManifestDiskTable::GPT => "gpt",
        }
    }
}

/// The filesystem written into a partition.
#[derive(Clone, Copy, Debug, PartialEq, Eq, Structural)]
pub enum ManifestDiskFilesystem {
    FAT32,
}

pub open spec fn disk_filesystem_name(t: ManifestDiskFilesystem) -> Seq<char> {
    match t {
        ManifestDiskFilesystem::FAT32 => "fat32"@,
    }
}

impl ManifestDiskFilesystem {
    /// The name this filesystem carries in the manifest.
    pub fn manifest_name(&self) -> (r: &'static str)
        ensures
            r@ == disk_filesystem_name(*self),
    {
        match *self {
            ManifestDiskFilesystem::FAT32 => "fat32",
        }
    }
}

/// Flags a partition can carry in the manifest.
#[derive(Clone, Copy, Debug, PartialEq, Eq, Structural)]
pub enum ManifestDiskFilesystemFlags {
    Boot,
    ESP,
}

pub open spec fn disk_flag_name(t: ManifestDiskFilesystemFlags) -> Seq<char> {
    match t {
        ManifestDiskFilesystemFlags::Boot => "boot"@,
        ManifestDiskFilesystemFlags::ESP => "esp"@,
    }
}

impl ManifestDiskFilesystemFlags {
    /// The name this flag carries in the manifest.
    pub fn manifest_name(&self) -> (r: &'static str)
        ensures
            r@ == disk_flag_name(*self),
    {
        match *self {
            ManifestDiskFilesystemFlags::Boot => "boot",
            ManifestDiskFilesystemFlags::ESP => "esp",
        }
    }
}

} // verus!
