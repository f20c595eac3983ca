//! Reading and writing human-readable archives: text documents that bundle
//! several named files and directories, separated by a per-document boundary
//! marker such as `<===>`.

pub mod error;
pub mod laws;
pub mod model;
pub mod output;
pub mod parse;
pub mod repr;

pub use error::ErroneousBodyPath;
pub use error::HrxError;
pub use repr::HrxArchive;
pub use repr::HrxEntry;
pub use repr::HrxEntryData;
pub use repr::HrxPath;
