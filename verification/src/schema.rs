//! The field catalog and the documents that it describes.

use vstd::prelude::*;

verus! {

/// How the text of a field is indexed.
#[derive(Clone, Copy, Debug, PartialEq, Eq, Structural)]
pub enum TextIndexingOptions {
    Unindexed,
    Untokenized,
    TokenizedNoFreq,
    TokenizedWithFreq,
    TokenizedWithFreqAndPosition,
}

impl TextIndexingOptions {
    /// The text is split into tokens.
    pub open spec fn tokenized(self) -> bool {
        self == TextIndexingOptions::TokenizedNoFreq || self
            == TextIndexingOptions::TokenizedWithFreq || self
            == TextIndexingOptions::TokenizedWithFreqAndPosition
    }

    /// Whether the text is split into tokens.
    pub fn is_tokenized(&self) -> (r: bool)
        ensures
            r == self.tokenized(),
    {
        match self {
            TextIndexingOptions::TokenizedNoFreq => true,
            TextIndexingOptions::TokenizedWithFreq => true,
            TextIndexingOptions::TokenizedWithFreqAndPosition => true,
            _ => false,
        }
    }

    /// Whether the text reaches the index at all.
    pub fn is_indexed(&self) -> (r: bool)
        ensures
            r == (*self != TextIndexingOptions::Unindexed),
    {
        match self {
            TextIndexingOptions::Unindexed => false,
            _ => true,
        }
    }
}

/// The type of a field, with its indexing options.
#[derive(Clone, Copy, Debug, PartialEq, Eq, Structural)]
pub enum FieldType {
    Str(TextIndexingOptions),
    U32 { indexed: bool },
}

/// One entry of the schema.
#[derive(Clone, Copy, Debug, PartialEq, Eq, Structural)]
pub struct FieldEntry {
    pub field_type: FieldType,
    pub stored: bool,
}

impl FieldEntry {
    /// The field reaches the index.
    pub open spec fn indexed(self) -> bool {
        match self.field_type {
            FieldType::Str(options) => options != TextIndexingOptions::Unindexed,
            FieldType::U32 { indexed } => indexed,
        }
    }

    /// Whether the field reaches the index.
    pub fn is_indexed(&self) -> (r: bool)
        ensures
            r == self.indexed(),
    {
        match self.field_type {
            FieldType::Str(options) => options.is_indexed(),
            FieldType::U32 { indexed } => indexed,
        }
    }

    /// Whether the field's values are kept in the document store.
    pub fn is_stored(&self) -> (r: bool)
        ensures
            r == self.stored,
    {
        self.stored
    }
}

/// The field catalog: the entry of field `i` stands at place `i`.
pub struct Schema {
    pub fields: Vec<FieldEntry>,
}

impl Schema {
    /// A field's id fits in a byte.
    pub open spec fn wf(&self) -> bool {
        self.fields@.len() <= 256
    }
}

/// The value of a field in a document.
#[derive(Clone, Debug)]
pub enum Value {
    Text(Vec<u8>),
    U32(u32),
}

/// A field of a document with its value.
#[derive(Clone, Debug)]
pub struct FieldValue {
    pub field: u8,
    pub value: Value,
}

/// A document: field values in the order in which they were given.
#[derive(Clone, Debug)]
pub struct Document {
    pub field_values: Vec<FieldValue>,
}

} // verus!
