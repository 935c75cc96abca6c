//! Core of a full-text search engine: the canonical term encoding, JSON path
//! flattening and indexing, the arena-backed term hash map, the postings
//! accumulator, the multi-valued offset index, the columnar dictionary, boolean
//! and phrase combinations of doc sets, and the commit lifecycle of an index.
use vstd::prelude::*;

pub mod arena_hashmap;
pub mod codec;
pub mod columnar;
pub mod datetime;
pub mod docset;
pub mod facet;
pub mod json_indexing;
pub mod json_term_writer;
pub mod lifecycle;
pub mod memory_arena;
pub mod multivalued_index;
pub mod postings;
pub mod term;
pub mod text;

pub use crate::datetime::{DatePrecision, DateTime};
pub use crate::term::{Field, Term, Type};

verus! {

/// A segment-local document id, dense from 0 in order of addition.
pub type DocId = u32;

/// A monotonic stamp given to every operation that modifies the index.
pub type Opstamp = u64;

/// The ordinal of a segment within a searcher.
pub type SegmentOrdinal = u32;

/// The version of the index format.
pub const INDEX_FORMAT_VERSION: u32 = 5;

/// The major version of the library.
pub const VERSION_MAJOR: u32 = 0;

/// The minor version of the library.
pub const VERSION_MINOR: u32 = 19;

/// The patch version of the library.
pub const VERSION_PATCH: u32 = 0;

/// The version of the library and of its index format.
#[derive(Clone, Copy, Debug, PartialEq, Eq, Structural)]
pub struct Version {
    pub major: u32,
    pub minor: u32,
    pub patch: u32,
    pub index_format_version: u32,
}

/// `tantivy v<major>.<minor>.<patch>, index_format v<format>`.
pub open spec fn version_text(v: Version) -> Seq<char> {
    seq!['t', 'a', 'n', 't', 'i', 'v', 'y', ' ', 'v'] + text::decimal(v.major as nat) + seq!['.']
        + text::decimal(v.minor as nat) + seq!['.'] + text::decimal(v.patch as nat) + seq![
        ',',
        ' ',
        'i',
        'n',
        'd',
        'e',
        'x',
        '_',
        'f',
        'o',
        'r',
        'm',
        'a',
        't',
        ' ',
        'v',
    ] + text::decimal(v.index_format_version as nat)
}

impl Version {
    /// The version as text.
    pub fn to_string(&self) -> (r: String)
        ensures
            r@ == version_text(*self),
    {
        let mut out = String::new();
        text::push_str(&mut out, "tantivy v");
        text::push_decimal(&mut out, self.major as u64);
        text::push_char(&mut out, '.');
        text::push_decimal(&mut out, self.minor as u64);
        text::push_char(&mut out, '.');
        text::push_decimal(&mut out, self.patch as u64);
        text::push_str(&mut out, ", index_format v");
        text::push_decimal(&mut out, self.index_format_version as u64);
        proof {
            reveal_strlit("tantivy v");
            reveal_strlit(", index_format v");
        }
        assert(out@ =~= version_text(*self));
        out
    }
}

/// The version of this library.
pub fn version() -> (r: Version)
    ensures
        r == (Version {
            major: VERSION_MAJOR,
            minor: VERSION_MINOR,
            patch: VERSION_PATCH,
            index_format_version: INDEX_FORMAT_VERSION,
        }),
{
    Version {
        major: VERSION_MAJOR,
        minor: VERSION_MINOR,
        patch: VERSION_PATCH,
        index_format_version: INDEX_FORMAT_VERSION,
    }
}

/// The version of this library as text, e.g. `tantivy v0.19.0, index_format v5`.
pub fn version_string() -> (r: String)
    ensures
        r@ == version_text(
            Version {
                major: VERSION_MAJOR,
                minor: VERSION_MINOR,
                patch: VERSION_PATCH,
                index_format_version: INDEX_FORMAT_VERSION,
            },
        ),
{
    version().to_string()
}

/// The address of a document: the ordinal of its segment within a searcher,
/// and its id within that segment.
#[derive(Clone, Copy, Debug, PartialEq, Eq, PartialOrd, Ord, Hash, Structural)]
pub struct DocAddress {
    pub segment_ord: SegmentOrdinal,
    pub doc_id: DocId,
}

impl DocAddress {
    /// Creates a new address from the segment ordinal and the doc id.
    pub fn new(segment_ord: SegmentOrdinal, doc_id: DocId) -> (r: DocAddress)
        ensures
            r.segment_ord == segment_ord,
            r.doc_id == doc_id,
    {
        DocAddress { segment_ord, doc_id }
    }
}

} // verus!
