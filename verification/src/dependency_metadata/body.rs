//! Decoded symbol bodies.

use vstd::prelude::*;
use super::codec::{DiskDecode, DiskEncode, DiskCodec};
use super::error::DepMetadataError;
use super::format::{DiskFnData, DiskFnDataView, DiskModData, DiskModDataView,
    DiskNativeTypeAliasData, DiskNativeTypeAliasDataView, DiskStructData, DiskStructDataView,
    DiskSymbolKind, symbol_kind_of};

verus! {

/// A decoded symbol body.
#[derive(Debug)]
pub enum SymbolBody {
    Mod(DiskModData),
    Struct(DiskStructData),
    Fn(DiskFnData),
    NativeTypeAlias(DiskNativeTypeAliasData),
}

/// A symbol body as plain values.
pub ghost enum SymbolBodyView {
    Mod(DiskModDataView),
    Struct(DiskStructDataView),
    Fn(DiskFnDataView),
    NativeTypeAlias(DiskNativeTypeAliasDataView),
}

impl View for SymbolBody {
    type V = SymbolBodyView;

    open spec fn view(&self) -> SymbolBodyView {
        match self {
            SymbolBody::Mod(d) => SymbolBodyView::Mod(d@),
            SymbolBody::Struct(d) => SymbolBodyView::Struct(d@),
            SymbolBody::Fn(d) => SymbolBodyView::Fn(d@),
            SymbolBody::NativeTypeAlias(d) => SymbolBodyView::NativeTypeAlias(d@),
        }
    }
}

/// What decoding a body of kind `kind` (its number) from `bytes` gives.
/// Bytes after the body are not looked at.
pub open spec fn parse_body(kind: u32, bytes: Seq<u8>) -> Result<SymbolBodyView, DepMetadataError> {
    match symbol_kind_of(kind) {
        Err(e) => Err(e),
        Ok(DiskSymbolKind::Mod) => match <DiskModData as DiskDecode>::parse(bytes) {
            Ok((d, _)) => Ok(SymbolBodyView::Mod(d)),
            Err(e) => Err(e),
        },
        Ok(DiskSymbolKind::Struct) => match <DiskStructData as DiskDecode>::parse(bytes) {
            Ok((d, _)) => Ok(SymbolBodyView::Struct(d)),
            Err(e) => Err(e),
        },
        Ok(DiskSymbolKind::Fn) => match <DiskFnData as DiskDecode>::parse(bytes) {
            Ok((d, _)) => Ok(SymbolBodyView::Fn(d)),
            Err(e) => Err(e),
        },
        Ok(DiskSymbolKind::NativeTypeAlias) => match <DiskNativeTypeAliasData as DiskDecode>::parse(
            bytes,
        ) {
            Ok((d, _)) => Ok(SymbolBodyView::NativeTypeAlias(d)),
            Err(e) => Err(e),
        },
    }
}

/// The number of the kind of a body, as symbol headers store it.
pub open spec fn body_kind_code(v: SymbolBodyView) -> u32 {
    match v {
        SymbolBodyView::Mod(_) => 0,
        SymbolBodyView::Struct(_) => 1,
        SymbolBodyView::Fn(_) => 2,
        SymbolBodyView::NativeTypeAlias(_) => 3,
    }
}

/// Every count in the body fits in a `u32`.
pub open spec fn body_encodable(v: SymbolBodyView) -> bool {
    match v {
        SymbolBodyView::Mod(d) => <DiskModData as DiskCodec>::encodable(d),
        SymbolBodyView::Struct(d) => <DiskStructData as DiskCodec>::encodable(d),
        SymbolBodyView::Fn(d) => <DiskFnData as DiskCodec>::encodable(d),
        SymbolBodyView::NativeTypeAlias(d) => <DiskNativeTypeAliasData as DiskCodec>::encodable(d),
    }
}

impl SymbolBody {
    /// Decodes the bytes of a body by its kind (the number in its header).
    pub fn decode(kind: u32, bytes: &[u8]) -> (r: Result<SymbolBody, DepMetadataError>)
        ensures
            match r {
                Ok(b) => parse_body(kind, bytes@) == Ok::<SymbolBodyView, DepMetadataError>(b@),
                Err(e) => parse_body(kind, bytes@) == Err::<SymbolBodyView, DepMetadataError>(e),
            },
    {
        let k = match DiskSymbolKind::try_from(kind) {
            Ok(k) => k,
            Err(e) => return Err(e),
        };
        match k {
            DiskSymbolKind::Mod => match DiskModData::decode(bytes) {
                Ok((data, _)) => Ok(SymbolBody::Mod(data)),
                Err(e) => Err(e),
            },
            DiskSymbolKind::Struct => match DiskStructData::decode(bytes) {
                Ok((data, _)) => Ok(SymbolBody::Struct(data)),
                Err(e) => Err(e),
            },
            DiskSymbolKind::Fn => match DiskFnData::decode(bytes) {
                Ok((data, _)) => Ok(SymbolBody::Fn(data)),
                Err(e) => Err(e),
            },
            DiskSymbolKind::NativeTypeAlias => match DiskNativeTypeAliasData::decode(bytes) {
                Ok((data, _)) => Ok(SymbolBody::NativeTypeAlias(data)),
                Err(e) => Err(e),
            },
        }
    }
}

impl DiskEncode for SymbolBody {
    open spec fn encoding(v: SymbolBodyView) -> Seq<u8> {
        match v {
            SymbolBodyView::Mod(d) => <DiskModData as DiskEncode>::encoding(d),
            SymbolBodyView::Struct(d) => <DiskStructData as DiskEncode>::encoding(d),
            SymbolBodyView::Fn(d) => <DiskFnData as DiskEncode>::encoding(d),
            SymbolBodyView::NativeTypeAlias(d) => <DiskNativeTypeAliasData as DiskEncode>::encoding(
                d,
            ),
        }
    }

    fn encode(&self, buf: &mut Vec<u8>) {
        match self {
            SymbolBody::Mod(d) => d.encode(buf),
            SymbolBody::Struct(d) => d.encode(buf),
            SymbolBody::Fn(d) => d.encode(buf),
            SymbolBody::NativeTypeAlias(d) => d.encode(buf),
        }
    }
}

/// Decoding the bytes of a body, by the number of its kind, gives it back,
/// whatever follows.
pub proof fn lemma_body_roundtrip(v: SymbolBodyView, rest: Seq<u8>)
    requires
        body_encodable(v),
    ensures
        parse_body(body_kind_code(v), <SymbolBody as DiskEncode>::encoding(v) + rest) == Ok::<
            SymbolBodyView,
            DepMetadataError,
        >(v),
{
    match v {
        SymbolBodyView::Mod(d) => <DiskModData as DiskCodec>::lemma_roundtrip(d, rest),
        SymbolBodyView::Struct(d) => <DiskStructData as DiskCodec>::lemma_roundtrip(d, rest),
        SymbolBodyView::Fn(d) => <DiskFnData as DiskCodec>::lemma_roundtrip(d, rest),
        SymbolBodyView::NativeTypeAlias(d) => <DiskNativeTypeAliasData as DiskCodec>::lemma_roundtrip(
            d,
            rest,
        ),
    }
}

} // verus!
