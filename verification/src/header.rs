//! The header in front of each entry of the log file.
use crate::bytes::{
    get_le, le_bytes, le_value, lemma_le_bounds, lemma_le_bytes_len, lemma_le_bytes_of_value,
    lemma_le_value_of_bytes, put_le,
};
use crate::crc32::{crc32, crc32_of, law_burst_changes_checksum};
use crate::error::WalError;
use vstd::prelude::*;

verus! {

/// WAL entry header containing metadata for integrity checking.
///
/// Format on disk:
/// ```text
/// [length: u64][checksum: u32][version: u8][entry_data: bytes]
/// ```
#[derive(Debug, Clone, Copy, PartialEq, Eq, Structural)]
pub struct WalEntryHeader {
    /// Length of the serialized entry data (not counting the header)
    pub length: u64,
    /// CRC32 checksum of the serialized entry data
    pub checksum: u32,
    /// Format version (currently always 1)
    pub version: u8,
}

/// The header of data with the given length and checksum.
pub open spec fn header_for(length: nat, checksum: u32) -> WalEntryHeader {
    WalEntryHeader { length: length as u64, checksum, version: WalEntryHeader::VERSION }
}

/// The header that the first bytes of `bytes` hold.
pub open spec fn header_in(bytes: Seq<u8>) -> WalEntryHeader {
    WalEntryHeader {
        length: le_value(bytes.subrange(0, 8)) as u64,
        checksum: le_value(bytes.subrange(8, 12)) as u32,
        version: bytes[12],
    }
}

impl WalEntryHeader {
    /// Current WAL format version
    pub const VERSION: u8 = 1;

    /// Size of header in bytes (8 + 4 + 1 = 13)
    pub const SIZE: usize = 13;

    /// The bytes of the header on disk.
    pub open spec fn encoding(self) -> Seq<u8> {
        le_bytes(self.length as nat, 8) + le_bytes(self.checksum as nat, 4) + seq![self.version]
    }

    /// Whether data has the checksum of the header.
    pub open spec fn accepts(self, data: Seq<u8>) -> bool {
        crc32_of(data) == self.checksum
    }

    /// Creates a new header for the given serialized entry data.
    pub fn new(data: &[u8]) -> (header: Self)
        ensures
            header == header_for(data@.len(), crc32_of(data@)),
            header.length == data@.len(),
    {
        Self::with_checksum(data.len(), crc32(data))
    }

    /// The header of data with the given length and checksum.
    pub fn with_checksum(length: usize, checksum: u32) -> (header: Self)
        ensures
            header == header_for(length as nat, checksum),
            header.length == length,
    {
        WalEntryHeader { length: length as u64, checksum, version: Self::VERSION }
    }

    /// Serializes the header to bytes.
    pub fn to_bytes(&self) -> (bytes: [u8; 13])
        ensures
            bytes@ == self.encoding(),
    {
        let mut out: Vec<u8> = Vec::new();
        put_le(&mut out, self.length, 8);
        put_le(&mut out, self.checksum as u64, 4);
        out.push(self.version);
        proof {
            lemma_le_bytes_len(self.length as nat, 8);
            lemma_le_bytes_len(self.checksum as nat, 4);
            assert(out@ =~= self.encoding());
        }
        let bytes = [
            out[0],
            out[1],
            out[2],
            out[3],
            out[4],
            out[5],
            out[6],
            out[7],
            out[8],
            out[9],
            out[10],
            out[11],
            out[12],
        ];
        assert(bytes@ =~= out@);
        bytes
    }

    /// Deserializes a header from bytes.
    pub fn from_bytes(bytes: &[u8; 13]) -> (header: Self)
        ensures
            header == header_in(bytes@),
    {
        let slice: &[u8] = bytes.as_slice();
        proof {
            lemma_le_bounds();
            lemma_le_bytes_of_value(bytes@.subrange(0, 8));
            lemma_le_bytes_of_value(bytes@.subrange(8, 12));
        }
        WalEntryHeader {
            length: get_le(slice, 0, 8),
            checksum: get_le(slice, 8, 4) as u32,
            version: slice[12],
        }
    }

    /// Validates that the data matches the header's checksum.
    pub fn validate(&self, data: &[u8]) -> (r: Result<(), WalError>)
        ensures
            match r {
                Ok(_) => self.accepts(data@),
                Err(e) => !self.accepts(data@) && e == (WalError::ChecksumMismatch {
                    expected: self.checksum,
                    actual: crc32_of(data@),
                }),
            },
    {
        self.validate_checksum(crc32(data))
    }

    /// Validates that data with the checksum `actual` matches the header.
    pub fn validate_checksum(&self, actual: u32) -> (r: Result<(), WalError>)
        ensures
            match r {
                Ok(_) => actual == self.checksum,
                Err(e) => actual != self.checksum && e == (WalError::ChecksumMismatch {
                    expected: self.checksum,
                    actual,
                }),
            },
    {
        if actual != self.checksum {
            return Err(WalError::ChecksumMismatch { expected: self.checksum, actual });
        }
        Ok(())
    }
}

/// The header that is made for data accepts the data, and refuses data that was damaged within four
/// consecutive bytes.
pub proof fn law_header_refuses_damaged_data(data: Seq<u8>, damaged: Seq<u8>, at: int)
    requires
        data.len() == damaged.len(),
        data != damaged,
        0 <= at <= data.len() - 4,
        forall|j: int| 0 <= j < data.len() && !(at <= j < at + 4) ==> data[j] == damaged[j],
    ensures
        header_for(data.len(), crc32_of(data)).accepts(data),
        !header_for(data.len(), crc32_of(data)).accepts(damaged),
{
    law_burst_changes_checksum(data, damaged, at);
}

/// Reading the bytes of a header gives back the header, whatever follows them.
pub proof fn law_header_read_inverts_write(header: WalEntryHeader, rest: Seq<u8>)
    ensures
        header.encoding().len() == WalEntryHeader::SIZE,
        header_in(header.encoding() + rest) == header,
{
    let bytes = header.encoding() + rest;
    lemma_le_bounds();
    lemma_le_bytes_len(header.length as nat, 8);
    lemma_le_bytes_len(header.checksum as nat, 4);
    lemma_le_value_of_bytes(header.length as nat, 8);
    lemma_le_value_of_bytes(header.checksum as nat, 4);
    assert(bytes.subrange(0, 8) =~= le_bytes(header.length as nat, 8));
    assert(bytes.subrange(8, 12) =~= le_bytes(header.checksum as nat, 4));
}

/// Writing the header that thirteen bytes hold gives back the bytes.
pub proof fn law_header_write_inverts_read(bytes: Seq<u8>)
    requires
        bytes.len() == WalEntryHeader::SIZE,
    ensures
        header_in(bytes).encoding() == bytes,
{
    lemma_le_bounds();
    lemma_le_bytes_of_value(bytes.subrange(0, 8));
    lemma_le_bytes_of_value(bytes.subrange(8, 12));
    assert(bytes.subrange(0, 8) + bytes.subrange(8, 12) + seq![bytes[12]] =~= bytes);
}

} // verus!
