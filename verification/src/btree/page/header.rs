use vstd::prelude::*;
use crate::codec::{append_u64, append_u8, be_bytes, be_value, lemma_be_bytes_len,
    lemma_be_value_of_bytes, lemma_pow256_values, Cursor};
use crate::error::{eof, DbError, DbResult};

verus! {

/// The size in bytes of one block of the page file.
pub const PAGE_SIZE: usize = 4096;

/// What a page holds.
#[derive(Debug, Clone, Copy, PartialEq, Eq, Structural)]
pub enum PageType {
    Meta,
    Internal,
    Leaf,
}

impl PageType {
    /// The byte that stands for the page type on disk.
    pub open spec fn spec_code(self) -> u8 {
        match self {
            PageType::Meta => 0,
            PageType::Internal => 1,
            PageType::Leaf => 2,
        }
    }

    /// The page type that a byte stands for, or the error for an unknown byte.
    pub open spec fn spec_from_code(value: u8) -> DbResult<PageType> {
        if value == 0 {
            Ok(PageType::Meta)
        } else if value == 1 {
            Ok(PageType::Internal)
        } else if value == 2 {
            Ok(PageType::Leaf)
        } else {
            Err(DbError::InvalidPageType(value))
        }
    }

    pub fn code(self) -> (r: u8)
        ensures
            r == self.spec_code(),
    {
        match self {
            PageType::Meta => 0,
            PageType::Internal => 1,
            PageType::Leaf => 2,
        }
    }

    pub fn try_from_u8(value: u8) -> (r: DbResult<PageType>)
        ensures
            r == PageType::spec_from_code(value),
    {
        match value {
            0 => Ok(PageType::Meta),
            1 => Ok(PageType::Internal),
            2 => Ok(PageType::Leaf),
            _ => Err(DbError::InvalidPageType(value)),
        }
    }
}

/// The fixed header at the start of every page.
#[derive(Debug, Clone, Copy, PartialEq, Eq, Structural)]
pub struct PageHeader {
    pub page_type: PageType,
    pub next_page_pointer: u64,
    pub prev_page_pointer: u64,
}

impl PageHeader {
    /// Encoded size of a header: one type byte and two 8-byte pointers.
    pub const SIZE: usize = 17;

    /// The bytes of the header on disk.
    pub open spec fn spec_encode(self) -> Seq<u8> {
        seq![self.page_type.spec_code()] + be_bytes(self.next_page_pointer as nat, 8) + be_bytes(
            self.prev_page_pointer as nat,
            8,
        )
    }

    /// The header at the front of `s` and the number of bytes it takes, or the error
    /// that reading it meets.
    pub open spec fn spec_decode(s: Seq<u8>) -> DbResult<(PageHeader, nat)> {
        if s.len() < 1 {
            Err(eof())
        } else {
            match PageType::spec_from_code(s[0]) {
                Err(e) => Err(e),
                Ok(t) => if s.len() < 17 {
                    Err(eof())
                } else {
                    Ok(
                        (
                            PageHeader {
                                page_type: t,
                                next_page_pointer: be_value(s.subrange(1, 9)) as u64,
                                prev_page_pointer: be_value(s.subrange(9, 17)) as u64,
                            },
                            17nat,
                        ),
                    )
                },
            }
        }
    }

    /// A header of the given type with both pointers zero.
    pub open spec fn fresh(page_type: PageType) -> PageHeader {
        PageHeader { page_type, next_page_pointer: 0, prev_page_pointer: 0 }
    }

    #[verifier::when_used_as_spec(fresh)]
    pub fn new(page_type: PageType) -> (h: Self)
        ensures
            h == PageHeader::fresh(page_type),
    {
        Self { page_type, next_page_pointer: 0, prev_page_pointer: 0 }
    }

    pub fn write_to(&self, writer: &mut Vec<u8>) -> (r: DbResult<()>)
        ensures
            r is Ok,
            final(writer)@ == old(writer)@ + self.spec_encode(),
    {
        append_u8(writer, self.page_type.code());
        append_u64(writer, self.next_page_pointer);
        append_u64(writer, self.prev_page_pointer);
        assert(writer@ =~= old(writer)@ + self.spec_encode());
        Ok(())
    }

    pub fn read_from(reader: &mut Cursor) -> (r: DbResult<Self>)
        ensures
            match PageHeader::spec_decode(old(reader).remaining()) {
                Ok((h, n)) => r == Ok::<PageHeader, DbError>(h) && final(reader).remaining()
                    == old(reader).remaining().skip(n as int),
                Err(e) => r == Err::<PageHeader, DbError>(e),
            },
    {
        let ghost s = reader.remaining();
        let code = reader.read_u8()?;
        let page_type = PageType::try_from_u8(code)?;
        let next_page_pointer = reader.read_u64_be()?;
        assert(s.skip(1).take(8) =~= s.subrange(1, 9));
        let prev_page_pointer = reader.read_u64_be()?;
        assert(s.skip(1).skip(8).take(8) =~= s.subrange(9, 17));
        assert(s.skip(1).skip(8).skip(8) =~= s.skip(17));
        Ok(Self { page_type, next_page_pointer, prev_page_pointer })
    }
}

/// Reading back what `write_to` wrote gives the same header, whatever follows it.
pub proof fn lemma_header_roundtrip(h: PageHeader, rest: Seq<u8>)
    ensures
        h.spec_encode().len() == PageHeader::SIZE,
        PageHeader::spec_decode(h.spec_encode() + rest) == Ok::<(PageHeader, nat), DbError>(
            (h, 17),
        ),
{
    let s = h.spec_encode() + rest;
    lemma_pow256_values();
    lemma_be_bytes_len(h.next_page_pointer as nat, 8);
    lemma_be_bytes_len(h.prev_page_pointer as nat, 8);
    lemma_be_value_of_bytes(h.next_page_pointer as nat, 8);
    lemma_be_value_of_bytes(h.prev_page_pointer as nat, 8);
    assert(s.subrange(1, 9) =~= be_bytes(h.next_page_pointer as nat, 8));
    assert(s.subrange(9, 17) =~= be_bytes(h.prev_page_pointer as nat, 8));
}

} // verus!
