//! The lang items a package defines.
//!
//! With them, a package that depends on std can rebuild the lang item table
//! from std's metadata. `lang_item` is the number that stands for a lang item
//! in the compiler; it changes when lang items are added or reordered, so it
//! moves in step with the metadata format version.

use vstd::prelude::*;
use vstd::seq_lib::lemma_concat_associative;
use super::codec::{DiskDecode, DiskEncode, DiskCodec, field, lemma_field, lemma_field_first};
use super::error::DepMetadataError;
use super::format::DiskSymbolIndex;

verus! {

/// One lang item: its number and the symbol that defines it.
#[derive(Debug, Clone, Copy, PartialEq, Eq, Structural)]
pub struct DiskLangItem {
    pub lang_item: u32,
    pub sym_idx: DiskSymbolIndex,
}


impl View for DiskLangItem {
    type V = DiskLangItem;

    open spec fn view(&self) -> DiskLangItem {
        *self
    }
}


impl DiskDecode for DiskLangItem {
    open spec fn parse(bytes: Seq<u8>) -> Result<(DiskLangItem, int), DepMetadataError> {
        match field::<u32>(bytes, 0) {
            Err(e) => Err(e),
            Ok((lang_item, p0)) => match field::<DiskSymbolIndex>(bytes, p0) {
                    Err(e) => Err(e),
                    Ok((sym_idx, p1)) => Ok((DiskLangItem { lang_item, sym_idx }, p1)),
                },
        }
    }

    fn decode(bytes: &[u8]) -> (r: Result<(DiskLangItem, usize), DepMetadataError>) {
        proof {
            assert(bytes@.subrange(0, bytes@.len() as int) =~= bytes@);
        }
        let mut pos: usize = 0;
        let (lang_item, n) = match <u32 as DiskDecode>::decode(&bytes[pos..bytes.len()]) {
            Ok(x) => x,
            Err(e) => return Err(e),
        };
        pos = pos + n;
        let (sym_idx, n) = match <DiskSymbolIndex as DiskDecode>::decode(&bytes[pos..bytes.len()]) {
            Ok(x) => x,
            Err(e) => return Err(e),
        };
        pos = pos + n;
        Ok((DiskLangItem { lang_item, sym_idx }, pos))
    }
}


impl DiskEncode for DiskLangItem {
    open spec fn encoding(v: DiskLangItem) -> Seq<u8> {
        <u32 as DiskEncode>::encoding(v.lang_item) + <DiskSymbolIndex as DiskEncode>::encoding(v.sym_idx)
    }

    fn encode(&self, buf: &mut Vec<u8>) {
        self.lang_item.encode(buf);
        self.sym_idx.encode(buf);
        assert(final(buf)@ =~= old(buf)@ + Self::encoding(self@));
    }
}


impl DiskCodec for DiskLangItem {
    open spec fn encodable(v: DiskLangItem) -> bool {
        <u32 as DiskCodec>::encodable(v.lang_item) && <DiskSymbolIndex as DiskCodec>::encodable(v.sym_idx)
    }

    proof fn lemma_roundtrip(v: DiskLangItem, rest: Seq<u8>) {
        let e0 = <u32 as DiskEncode>::encoding(v.lang_item);
        let e1 = <DiskSymbolIndex as DiskEncode>::encoding(v.sym_idx);
        let data = Self::encoding(v) + rest;
        let a1 = e0;
        let a2 = a1 + e1;
        let s2 = rest;
        let s1 = e1 + s2;
        assert(data == a2 + s2);
        lemma_concat_associative(a1, e1, s2);
        assert(data == a1 + s1);
        lemma_field_first::<u32>(v.lang_item, s1);
        assert(field::<u32>(data, 0) == Ok::<(<u32 as View>::V, int), DepMetadataError>((v.lang_item, a1.len() as int)));
        lemma_field::<DiskSymbolIndex>(a1, v.sym_idx, s2);
        assert(field::<DiskSymbolIndex>(data, a1.len() as int) == Ok::<(<DiskSymbolIndex as View>::V, int), DepMetadataError>((v.sym_idx, a2.len() as int)));
    }
}

} // verus!
