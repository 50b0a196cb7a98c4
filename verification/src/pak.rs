//! Pak archives: the strict reader, the storage plan and the package groups.
pub mod error;
pub mod reader;
pub mod paths;
pub mod packages;
pub mod footer;
pub mod blocks;
pub mod index;
pub mod entries;
pub mod decode;
pub mod archive;
pub mod open;
pub mod access;
pub mod write;
pub mod layout;
pub mod readback;
pub mod records;
pub mod lists;
pub mod laid_out;

pub use self::access::{inspect, inspect_pak, verify_pak_v11, PakEntryData};
pub use self::archive::{
    OutsideReading, PakEntryDecodeInfo, PakEntryInventory, PakInventory, SecondReading,
};
pub use self::error::{PakError, Result};
pub use self::footer::{PakFooterInfo, PakVersion};
pub use self::open::PakArchive;
pub use self::paths::{
    group_packages, normalize_entry_path, normalize_mount_point, PackageComponent, PackageGroup,
    PackageGrouping,
};
pub use self::write::{
    write_pak_v11_from_mapped_provider_with_source_hashes, write_pak_v11_from_provider,
    write_pak_v11_to, OutputCompression, PakOpenProgress, PakWriteEntry, PakWriteProgress,
};
