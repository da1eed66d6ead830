//! Split large sections out of a binary module into a content-addressed
//! store and splice them back, reconstructing the module byte for byte.

use vstd::prelude::*;

pub mod codec;
pub mod error;
pub mod laws;
pub mod scanner;
pub mod splice;
pub mod split;
pub mod store;
pub mod varint;

pub use codec::{ExternalSection, write_section_header};
pub use error::{RecordField, SpliceError};
pub use scanner::{SectionAction, SectionDesc, parse_sections, transform_sections};
pub use splice::{splice_module, splice_requests};
pub use split::{Fragment, SplitOutput, split_module};
pub use store::SpliceConfig;

verus! {

/// Reserved bit in the preamble version word: set when the module holds
/// external-section reference records.
pub const EXTERNAL_SECTION_LAYER_BIT: u32 = 0x00020000;

/// Section type tag reserved for external-section reference records.
pub const EXTERNAL_SECTION_ID: u8 = 0x5E;

/// Section type tag of a custom (named) section.
pub const CUSTOM_SECTION_ID: u8 = 0;

} // verus!
