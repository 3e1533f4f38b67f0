//! What a strict deconstruct reports beyond the byte map: unknown field types, unknown tags,
//! and anomalies, each with the page (top-level IFD index) it was found in.
use vstd::prelude::*;

verus! {

/// How serious a reported [`Anomaly`] is.
#[derive(Debug, Clone, Copy, PartialEq, Eq)]
#[non_exhaustive]
pub enum Severity {
    /// Out of spec but often benign.
    Warning,
    /// A structural defect (a strip mismatch, a malformed matrix, a sub-IFD cycle).
    Error,
}

/// A tag a valid DNG would not be expected to carry: recognised structurally but not part of
/// the DNG tag set.
#[derive(Debug, Clone, Copy, PartialEq, Eq)]
#[non_exhaustive]
pub struct UnknownTag {
    /// The page (top-level IFD index) the tag was found in.
    pub page: usize,
    /// The tag number.
    pub tag: u16,
    /// The tag's on-disk field-type code.
    pub field_type: u16,
    /// The tag's value count.
    pub count: u64,
}

/// An IFD entry whose field-type code is unrecognised. The entry itself is kept verbatim; it is
/// reported because its out-of-line payload, if any, cannot be sized and so cannot be
/// classified.
#[derive(Debug, Clone, Copy, PartialEq, Eq)]
#[non_exhaustive]
pub struct UnknownFieldType {
    /// The page (top-level IFD index) the entry was found in.
    pub page: usize,
    /// The entry's tag.
    pub tag: u16,
    /// The unrecognised on-disk field-type code.
    pub type_code: u16,
    /// The entry's declared value count (untrusted: the element size is unknown).
    pub count: u64,
}

/// A recognised but out-of-spec or unparsable element. The `detail` strings are diagnostics for
/// people; match on the variant and its typed fields instead.
#[derive(Debug, Clone, PartialEq, Eq)]
#[non_exhaustive]
pub enum Anomaly {
    /// A tag whose value uses a code this crate does not recognise (an unknown `Compression`,
    /// say).
    #[non_exhaustive]
    UnknownCode {
        /// The page the tag was found in.
        page: usize,
        /// The tag carrying the code.
        tag: u16,
        /// The unrecognised code.
        code: u32,
        /// A description for people.
        detail: &'static str,
    },
    /// A known tag whose value could not be interpreted (wrong type, count or range).
    #[non_exhaustive]
    UnparsableTag {
        /// The page the tag was found in.
        page: usize,
        /// The tag.
        tag: u16,
        /// A description for people.
        detail: &'static str,
    },
    /// An out-of-spec or unexpected structural condition.
    #[non_exhaustive]
    Structure {
        /// The page the condition relates to.
        page: usize,
        /// A description for people.
        detail: &'static str,
        /// How serious the condition is.
        severity: Severity,
    },
}

} // verus!
