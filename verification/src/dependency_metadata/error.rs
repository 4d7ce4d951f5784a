//! Why a `.biwameta` file could not be read.

use vstd::prelude::*;
use crate::decimal::{decimal, push_decimal};
use crate::text::{push_str, string_of_str};

verus! {

#[derive(Debug, Clone, Copy, PartialEq, Eq, Structural)]
pub enum DepMetadataError {
    UnexpectedEnd { needed: usize, available: usize },
    InvalidMagic,
    InvalidVersion { got: u32 },
    UnknownSymbolKind(u32),
    UnknownVisibility(u32),
    UnknownTyKind(u32),
    StringOffsetOutOfBounds { offset: u32, table_len: u32 },
    NulTerminatorNotFound { offset: u32 },
    InvalidUtf8,
    SymbolIndexOutOfBounds { index: u32, sym_count: u32 },
    FileIndexOutOfBounds { index: u32, file_count: u32 },
    BodySizeMismatch { declared: u32, available: usize },
}

/// The sentence that describes an error.
pub open spec fn error_message(e: DepMetadataError) -> Seq<char> {
    match e {
        DepMetadataError::UnexpectedEnd { needed, available } => "unexpected end of data: needed "@
            + decimal(needed as nat) + " bytes, got "@ + decimal(available as nat),
        DepMetadataError::InvalidMagic => "invalid magic bytes (not a .biwameta file)"@,
        DepMetadataError::InvalidVersion { got } => "unsupported .biwameta format version: "@
            + decimal(got as nat),
        DepMetadataError::UnknownSymbolKind(v) => "unknown symbol kind: "@ + decimal(v as nat),
        DepMetadataError::UnknownVisibility(v) => "unknown visibility: "@ + decimal(v as nat),
        DepMetadataError::UnknownTyKind(v) => "unknown type kind: "@ + decimal(v as nat),
        DepMetadataError::StringOffsetOutOfBounds { offset, table_len } => "string offset "@
            + decimal(offset as nat) + " out of bounds (table len: "@ + decimal(table_len as nat)
            + ")"@,
        DepMetadataError::NulTerminatorNotFound { offset } =>
            "nul terminator not found for string at offset "@ + decimal(offset as nat),
        DepMetadataError::InvalidUtf8 => "invalid UTF-8 in string table"@,
        DepMetadataError::SymbolIndexOutOfBounds { index, sym_count } => "symbol index "@
            + decimal(index as nat) + " out of bounds (sym count: "@ + decimal(sym_count as nat)
            + ")"@,
        DepMetadataError::FileIndexOutOfBounds { index, file_count } => "file index "@ + decimal(
            index as nat,
        ) + " out of bounds (file count: "@ + decimal(file_count as nat) + ")"@,
        DepMetadataError::BodySizeMismatch { declared, available } => "body size "@ + decimal(
            declared as nat,
        ) + " exceeds available bytes "@ + decimal(available as nat),
    }
}

impl DepMetadataError {
    /// The error as a sentence.
    pub fn message(&self) -> (r: String)
        ensures
            r@ == error_message(*self),
    {
        let mut s = String::new();
        match *self {
            DepMetadataError::UnexpectedEnd { needed, available } => {
                push_str(&mut s, "unexpected end of data: needed ");
                push_decimal(&mut s, needed);
                push_str(&mut s, " bytes, got ");
                push_decimal(&mut s, available);
            },
            DepMetadataError::InvalidMagic => {
                push_str(&mut s, "invalid magic bytes (not a .biwameta file)");
            },
            DepMetadataError::InvalidVersion { got } => {
                push_str(&mut s, "unsupported .biwameta format version: ");
                push_decimal(&mut s, got as usize);
            },
            DepMetadataError::UnknownSymbolKind(v) => {
                push_str(&mut s, "unknown symbol kind: ");
                push_decimal(&mut s, v as usize);
            },
            DepMetadataError::UnknownVisibility(v) => {
                push_str(&mut s, "unknown visibility: ");
                push_decimal(&mut s, v as usize);
            },
            DepMetadataError::UnknownTyKind(v) => {
                push_str(&mut s, "unknown type kind: ");
                push_decimal(&mut s, v as usize);
            },
            DepMetadataError::StringOffsetOutOfBounds { offset, table_len } => {
                push_str(&mut s, "string offset ");
                push_decimal(&mut s, offset as usize);
                push_str(&mut s, " out of bounds (table len: ");
                push_decimal(&mut s, table_len as usize);
                push_str(&mut s, ")");
            },
            DepMetadataError::NulTerminatorNotFound { offset } => {
                push_str(&mut s, "nul terminator not found for string at offset ");
                push_decimal(&mut s, offset as usize);
            },
            DepMetadataError::InvalidUtf8 => {
                push_str(&mut s, "invalid UTF-8 in string table");
            },
            DepMetadataError::SymbolIndexOutOfBounds { index, sym_count } => {
                push_str(&mut s, "symbol index ");
                push_decimal(&mut s, index as usize);
                push_str(&mut s, " out of bounds (sym count: ");
                push_decimal(&mut s, sym_count as usize);
                push_str(&mut s, ")");
            },
            DepMetadataError::FileIndexOutOfBounds { index, file_count } => {
                push_str(&mut s, "file index ");
                push_decimal(&mut s, index as usize);
                push_str(&mut s, " out of bounds (file count: ");
                push_decimal(&mut s, file_count as usize);
                push_str(&mut s, ")");
            },
            DepMetadataError::BodySizeMismatch { declared, available } => {
                push_str(&mut s, "body size ");
                push_decimal(&mut s, declared as usize);
                push_str(&mut s, " exceeds available bytes ");
                push_decimal(&mut s, available);
            },
        }
        assert(s@ =~= error_message(*self));
        s
    }
}

} // verus!
