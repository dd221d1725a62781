//! Options used to build an index.

use vstd::prelude::*;

use crate::config::{Limits, ReadBom};
use crate::options::{FormatOptions, FormatTag, ParserSettings};

verus! {

/// Options used to build an index.
///
/// These are stored in the index and reused whenever it hands back a parser,
/// so a record reached by seeking is always interpreted with the same format
/// used to find it.
#[derive(Clone, Copy, Debug)]
pub struct IndexOptions {
    /// The format used to find record boundaries.
    pub format: FormatOptions,
    /// The limits enforced while indexing.
    pub limits: Limits,
}

impl Default for IndexOptions {
    fn default() -> (options: IndexOptions)
        ensures
            options.format == FormatOptions::of_dialect(options.format.dialect, FormatTag::Csv),
            options.format.dialect.is_standard(),
            options.format.dialect.valid(),
            options.limits == Limits::standard(),
    {
        IndexOptions { format: FormatOptions::csv(), limits: Limits::standard() }
    }
}

impl IndexOptions {
    /// How a document is read that is indexed with these options.
    pub open spec fn settings(self) -> ParserSettings {
        ParserSettings::of_format(self.format, self.limits)
    }

    /// How a record is read that is reached by seeking.
    pub open spec fn seek_settings(self) -> ParserSettings {
        ParserSettings { bom: ReadBom::Preserve, format_tag: FormatTag::Custom, ..self.settings() }
    }
}

} // verus!
