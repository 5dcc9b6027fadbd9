use vstd::prelude::*;

verus! {

/// Identifier of a document, local to one segment.
pub type DocId = u32;

/// Dense index of a term in one segment's term dictionary.
pub type TermOrdinal = u64;

/// Documents of a merged segment must stay strictly below this bound.
pub const MAX_DOC_LIMIT: u32 = 0x8000_0000;

/// How many values a numeric fast field holds per document.
#[derive(Clone, Copy, Debug, PartialEq, Eq, Structural)]
pub enum Cardinality {
    SingleValue,
    MultiValues,
}

/// The kind of a field, as far as merging is concerned.
///
/// Numeric covers u64, i64, f64 and dates: all of them are stored as a u64 column.
#[derive(Clone, Copy, Debug, PartialEq, Eq, Structural)]
pub enum FieldKind {
    Text,
    Numeric(Option<Cardinality>),
    HierarchicalFacet,
    Bytes { fast: bool },
}

#[derive(Clone, Copy, Debug, PartialEq, Eq, Structural)]
pub struct FieldEntry {
    pub kind: FieldKind,
    /// The field has an inverted index (term dictionary and postings).
    pub indexed: bool,
    /// The inverted index records positions.
    pub positions: bool,
    /// One fieldnorm byte is kept per document.
    pub fieldnorms: bool,
}

#[derive(Clone, Debug)]
pub struct Schema {
    pub fields: Vec<FieldEntry>,
}

#[derive(Clone, Copy, Debug, PartialEq, Eq, Structural)]
pub enum Order {
    Asc,
    Desc,
}

impl Order {
    pub fn is_asc(&self) -> (r: bool)
        ensures
            r == (*self == Order::Asc),
    {
        match self {
            Order::Asc => true,
            Order::Desc => false,
        }
    }
}

/// The field whose fast-field value orders the documents of the index.
#[derive(Clone, Copy, Debug, PartialEq, Eq, Structural)]
pub struct IndexSortByField {
    pub field: u32,
    pub order: Order,
}

#[derive(Clone, Copy, Debug, PartialEq, Eq, Structural)]
pub struct IndexSettings {
    pub sort_by_field: Option<IndexSortByField>,
}

#[derive(Clone, Copy, Debug, PartialEq, Eq, Structural)]
pub enum MergeError {
    /// The merged segment would reach the document limit, or the sort field is unknown.
    InvalidArgument,
    /// An input segment is inconsistent.
    DataCorruption,
    /// A field does not have the type its use requires.
    SchemaError,
    /// An invariant of the merger itself does not hold.
    Internal,
}

impl Schema {
    /// The field is a single-valued numeric fast field, usable as a sort key.
    pub open spec fn is_sort_field(&self, field: int) -> bool {
        0 <= field < self.fields@.len()
            && self.fields@[field].kind == FieldKind::Numeric(Some(Cardinality::SingleValue))
    }
}

} // verus!
