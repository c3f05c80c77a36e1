//! Chunked authenticated file encryption.
//!
//! A source file is split into fixed-size chunks, each chunk is encrypted
//! independently with an AEAD cipher under a key derived from a password,
//! and the encrypted chunks plus an encrypted metadata header are assembled
//! into one self-describing container of length-prefixed entries.
use vstd::prelude::*;

mod cli;
mod config;
mod encryption;
mod encryptr;
mod errors;
mod utils;
mod wal;

pub use crate::cli::{Cli, Operation};
pub use crate::config::{Algorithm, Config};
pub use crate::encryption::{
    decrypt_chunk, default_output_name, derive_key, digest_of, encrypt_chunk, hash_bytes,
    hex_encode, plain_of, random_nonce, spec_hex, spec_hex_digit, KEY_LEN,
};
pub use crate::encryptr::{
    chunk_data, concat_bodies, decrypt_container, encrypt_container, recovered_file_name,
    show_info, spec_chunk_count, spec_decrypt_container, spec_meta_step, spec_parse_records,
    spec_read_chunks, CHUNK_SIZE,
};
pub use crate::errors::Error;
pub use crate::utils::{
    filter_zero_bytes, slice_to_array, spec_zero_pad, string_from_utf8, utf8_of,
};
pub use crate::wal::{
    get_and_validate_wal_files, lemma_entry_round_trip, lemma_prefix_end_unique, parse_wal_index,
    spec_contiguous, spec_digits_val, spec_entry_bytes, spec_expected_indices, spec_is_digits,
    spec_is_prefix_end, spec_is_wal_name, spec_keys_of, spec_parse_entry, spec_parse_u32,
    spec_pow10, spec_prefix_end, spec_record, spec_sequence_ok, spec_wal_filter, spec_wal_index,
    wal_file_name, WALEntry, ENTRY_OVERHEAD, NONCE_LEN,
};

verus! {

/// Capacity of the fixed name buffer in a metadata block.
pub const NAME_CAPACITY: usize = 256;

/// Size of a serialized metadata block: name buffer, 8-byte size, 32 reserved.
pub const METADATA_LEN: usize = 296;

/// The serialized form of a metadata block: the zero-padded name buffer,
/// the file size as 8 little-endian bytes, then 32 reserved zero bytes.
pub open spec fn spec_metadata_bytes(name: Seq<u8>, size: u64) -> Seq<u8> {
    name + vstd::bytes::spec_u64_to_le_bytes(size) + Seq::new(32, |i: int| 0u8)
}

/// What a 296-byte metadata block decodes to: the name buffer and the size.
/// Any other length is not a metadata block.
pub open spec fn spec_parse_metadata(bytes: Seq<u8>) -> Option<(Seq<u8>, u64)> {
    if bytes.len() == METADATA_LEN {
        Some(
            (
                bytes.subrange(0, NAME_CAPACITY as int),
                vstd::bytes::spec_u64_from_le_bytes(bytes.subrange(256, 264)),
            ),
        )
    } else {
        None
    }
}

/// Decoding inverts encoding for every well-formed name buffer.
pub proof fn lemma_metadata_round_trip(name: Seq<u8>, size: u64)
    requires
        name.len() == NAME_CAPACITY,
    ensures
        spec_parse_metadata(spec_metadata_bytes(name, size)) == Some((name, size)),
{
    vstd::bytes::lemma_auto_spec_u64_to_from_le_bytes();
    let bytes = spec_metadata_bytes(name, size);
    assert(bytes.subrange(0, NAME_CAPACITY as int) =~= name);
    assert(bytes.subrange(256, 264) =~= vstd::bytes::spec_u64_to_le_bytes(size));
}

/// Fixed-width description of the original file: its base name,
/// zero-padded to [`NAME_CAPACITY`] bytes, and its size in bytes.
#[derive(Debug)]
pub struct Metadata {
    pub file_name: Vec<u8>,
    pub file_size: u64,
}

impl Metadata {
    /// The name buffer always holds exactly [`NAME_CAPACITY`] bytes.
    pub open spec fn wf(&self) -> bool {
        self.file_name@.len() == NAME_CAPACITY
    }

    /// The zero-padded name buffer.
    pub open spec fn spec_name(&self) -> Seq<u8> {
        self.file_name@
    }

    /// The recorded file size.
    pub open spec fn spec_size(&self) -> u64 {
        self.file_size
    }

    /// Builds the metadata for a file, zero-padding its base name.
    /// The name must fit the buffer with at least one byte to spare,
    /// or the file is rejected as [`Error::NameTooLong`].
    pub fn new(file_name: &Vec<u8>, file_size: u64) -> (r: Result<Metadata, Error>)
        ensures
            match r {
                Ok(m) => {
                    &&& file_name@.len() < NAME_CAPACITY
                    &&& m.wf()
                    &&& m.spec_name() == spec_zero_pad(file_name@, NAME_CAPACITY as nat)
                    &&& m.spec_size() == file_size
                },
                Err(e) => {
                    &&& file_name@.len() >= NAME_CAPACITY
                    &&& e == Error::NameTooLong
                },
            },
    {
        let padded = slice_to_array(file_name, NAME_CAPACITY)?;
        Ok(Metadata { file_name: padded, file_size })
    }

    /// The zero-padded name buffer.
    pub fn file_name(&self) -> (r: &Vec<u8>)
        ensures
            r@ == self.spec_name(),
    {
        &self.file_name
    }

    /// The recorded file size.
    pub fn file_size(&self) -> (r: u64)
        ensures
            r == self.spec_size(),
    {
        self.file_size
    }

    /// Encodes the metadata as its fixed 296-byte block.
    pub fn to_bytes(&self) -> (r: Vec<u8>)
        requires
            self.wf(),
        ensures
            r@ == spec_metadata_bytes(self.spec_name(), self.spec_size()),
            r@.len() == METADATA_LEN,
    {
        let mut buffer = vstd::slice::slice_to_vec(self.file_name.as_slice());
        let mut size_bytes = vstd::bytes::u64_to_le_bytes(self.file_size);
        buffer.append(&mut size_bytes);
        let mut i: usize = 0;
        while i < 32
            invariant
                buffer@ == self.file_name@ + vstd::bytes::spec_u64_to_le_bytes(self.file_size)
                    + Seq::new(i as nat, |j: int| 0u8),
                i <= 32,
            decreases 32 - i,
        {
            buffer.push(0u8);
            proof {
                assert(Seq::new((i + 1) as nat, |j: int| 0u8) =~= Seq::new(i as nat, |j: int| 0u8).push(
                    0u8,
                ));
            }
            i += 1;
        }
        proof {
            assert(buffer@ =~= spec_metadata_bytes(self.spec_name(), self.spec_size()));
            vstd::bytes::lemma_auto_spec_u64_to_from_le_bytes();
        }
        buffer
    }

    /// Decodes a metadata block. Exactly the 296-byte blocks are accepted;
    /// anything else is [`Error::MalformedContainer`].
    pub fn from_bytes(bytes: &Vec<u8>) -> (r: Result<Metadata, Error>)
        ensures
            match r {
                Ok(m) => {
                    &&& spec_parse_metadata(bytes@) == Some((m.spec_name(), m.spec_size()))
                    &&& m.wf()
                },
                Err(e) => {
                    &&& spec_parse_metadata(bytes@) is None
                    &&& e == Error::MalformedContainer
                },
            },
    {
        if bytes.len() != METADATA_LEN {
            return Err(Error::MalformedContainer);
        }
        let name_slice = vstd::slice::slice_subrange(bytes.as_slice(), 0, NAME_CAPACITY);
        let file_name = vstd::slice::slice_to_vec(name_slice);
        let size_slice = vstd::slice::slice_subrange(bytes.as_slice(), 256, 264);
        let file_size = vstd::bytes::u64_from_le_bytes(size_slice);
        Ok(Metadata { file_name, file_size })
    }
}

} // verus!
