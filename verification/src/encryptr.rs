use vstd::prelude::*;

use crate::encryption::{decrypt_chunk, encrypt_chunk, plain_of, random_nonce, KEY_LEN};
use crate::errors::Error;
use crate::utils::{spec_zero_pad, string_from_utf8, utf8_of};
use crate::wal::{lemma_entry_round_trip, spec_parse_entry, spec_record, WALEntry};
use crate::{
    filter_zero_bytes, spec_metadata_bytes, spec_parse_metadata, Metadata, NAME_CAPACITY,
};
use crate::lemma_metadata_round_trip;

verus! {

/// Nominal plaintext chunk size: 512 KiB. Every chunk but the last has
/// exactly this size; the last may be shorter but never empty.
pub const CHUNK_SIZE: usize = 524288;

/// How many chunks a file of `len` bytes splits into: `ceil(len / CHUNK_SIZE)`,
/// zero for an empty file.
pub open spec fn spec_chunk_count(len: nat) -> nat {
    ((len + CHUNK_SIZE - 1) / (CHUNK_SIZE as int)) as nat
}

/// Reading the container's first record and decrypting it to a metadata
/// block. On success: the name buffer, the size, and the offset of the
/// first chunk record.
pub open spec fn spec_meta_step(bytes: Seq<u8>, key: Seq<u8>) -> Result<
    ((Seq<u8>, u64), int),
    Error,
> {
    if bytes.len() < 4 {
        Err(Error::MalformedContainer)
    } else {
        let l = vstd::bytes::spec_u32_from_le_bytes(bytes.subrange(0, 4)) as int;
        if bytes.len() < 4 + l {
            Err(Error::MalformedContainer)
        } else {
            match spec_parse_entry(bytes.subrange(4, 4 + l)) {
                Option::None => Err(Error::MalformedContainer),
                Option::Some((index, payload, nonce)) => match plain_of(key, nonce, payload) {
                    Option::None => Err(Error::AuthenticationFailure),
                    Option::Some(mb) => match spec_parse_metadata(mb) {
                        Option::None => Err(Error::MalformedContainer),
                        Option::Some(meta) => Ok((meta, 4 + l)),
                    },
                },
            }
        }
    }
}

/// Reading length-prefixed records to the end of the container and
/// decrypting each: the sequence of chunk plaintexts, in on-disk order,
/// or the first error. An empty rest is the success terminal.
pub open spec fn spec_read_chunks(bytes: Seq<u8>, key: Seq<u8>) -> Result<Seq<Seq<u8>>, Error>
    decreases bytes.len(),
{
    if bytes.len() == 0 {
        Ok(Seq::empty())
    } else if bytes.len() < 4 {
        Err(Error::MalformedContainer)
    } else {
        let l = vstd::bytes::spec_u32_from_le_bytes(bytes.subrange(0, 4)) as int;
        if bytes.len() < 4 + l {
            Err(Error::MalformedContainer)
        } else {
            match spec_parse_entry(bytes.subrange(4, 4 + l)) {
                Option::None => Err(Error::MalformedContainer),
                Option::Some((index, payload, nonce)) => match plain_of(key, nonce, payload) {
                    Option::None => Err(Error::AuthenticationFailure),
                    Option::Some(pt) => match spec_read_chunks(bytes.skip(4 + l), key) {
                        Ok(rest) => Ok(seq![pt] + rest),
                        Err(e) => Err(e),
                    },
                },
            }
        }
    }
}

/// The whole decryption state machine over a container: the metadata entry
/// first, then every chunk entry to the end of the stream.
pub open spec fn spec_decrypt_container(bytes: Seq<u8>, key: Seq<u8>) -> Result<
    ((Seq<u8>, u64), Seq<Seq<u8>>),
    Error,
> {
    match spec_meta_step(bytes, key) {
        Ok((meta, end)) => match spec_read_chunks(bytes.skip(end), key) {
            Ok(chunks) => Ok((meta, chunks)),
            Err(e) => Err(e),
        },
        Err(e) => Err(e),
    }
}

/// Reads one length-prefixed record starting at `pos`: the record's body
/// and the offset just past it. A truncated length or body is
/// [`Error::MalformedContainer`].
fn read_record(container: &Vec<u8>, pos: usize) -> (r: Result<(Vec<u8>, usize), Error>)
    requires
        pos < container@.len(),
    ensures
        ({
            let suffix = container@.skip(pos as int);
            match r {
                Ok((blob, new_pos)) => {
                    let l = vstd::bytes::spec_u32_from_le_bytes(suffix.subrange(0, 4)) as int;
                    &&& suffix.len() >= 4
                    &&& suffix.len() >= 4 + l
                    &&& blob@ == suffix.subrange(4, 4 + l)
                    &&& new_pos == pos + 4 + l
                    &&& pos < new_pos <= container@.len()
                },
                Err(e) => {
                    &&& e == Error::MalformedContainer
                    &&& (suffix.len() < 4 || suffix.len() < 4 + (
                    vstd::bytes::spec_u32_from_le_bytes(suffix.subrange(0, 4)) as int))
                },
            }
        }),
{
    let len = container.len();
    if len - pos < 4 {
        return Err(Error::MalformedContainer);
    }
    let length_slice = vstd::slice::slice_subrange(container.as_slice(), pos, pos + 4);
    proof {
        assert(container@.subrange(pos as int, pos + 4) =~= container@.skip(pos as int).subrange(
            0,
            4,
        ));
    }
    let l = vstd::bytes::u32_from_le_bytes(length_slice);
    let remaining = len - pos - 4;
    if (l as usize) > remaining {
        return Err(Error::MalformedContainer);
    }
    let body_end = pos + 4 + (l as usize);
    let blob = vstd::slice::slice_to_vec(
        vstd::slice::slice_subrange(container.as_slice(), pos + 4, body_end),
    );
    proof {
        assert(container@.subrange(pos + 4, body_end as int) =~= container@.skip(
            pos as int,
        ).subrange(4, 4 + (l as int)));
    }
    Ok((blob, body_end))
}

/// Runs the metadata step of the state machine: reads the first record,
/// decrypts it and decodes the metadata block.
fn read_metadata(container: &Vec<u8>, key: &Vec<u8>) -> (r: Result<(Metadata, usize), Error>)
    requires
        key@.len() == KEY_LEN,
    ensures
        match r {
            Ok((m, end)) => {
                &&& spec_meta_step(container@, key@) == Ok::<((Seq<u8>, u64), int), Error>(
                    ((m.spec_name(), m.spec_size()), end as int),
                )
                &&& m.wf()
                &&& end <= container@.len()
            },
            Err(e) => spec_meta_step(container@, key@) == Err::<((Seq<u8>, u64), int), Error>(e),
        },
{
    if container.len() == 0 {
        return Err(Error::MalformedContainer);
    }
    proof {
        assert(container@.skip(0) =~= container@);
    }
    let (blob, end) = read_record(container, 0)?;
    let entry = WALEntry::from_bytes(&blob)?;
    let meta_plain = decrypt_chunk(entry.encrypted_data, key, &entry.nonce)?;
    let metadata = Metadata::from_bytes(&meta_plain)?;
    Ok((metadata, end))
}

/// Decrypts a whole container: recovers the metadata and the original
/// file contents, or fails exactly as the state machine does — closed on
/// any tampering, truncation or invalid serialization.
pub fn decrypt_container(container: &Vec<u8>, key: &Vec<u8>) -> (r: Result<(Metadata, Vec<u8>), Error>)
    requires
        key@.len() == KEY_LEN,
    ensures
        match r {
            Ok((m, data)) => {
                &&& m.wf()
                &&& spec_decrypt_container(container@, key@) matches Ok((meta, chunks))
                &&& spec_decrypt_container(container@, key@) == Ok::<
                    ((Seq<u8>, u64), Seq<Seq<u8>>),
                    Error,
                >(((m.spec_name(), m.spec_size()), chunks))
                &&& data@ == chunks.flatten()
            },
            Err(e) => spec_decrypt_container(container@, key@) == Err::<
                ((Seq<u8>, u64), Seq<Seq<u8>>),
                Error,
            >(e),
        },
{
    let (metadata, start) = read_metadata(container, key)?;
    let mut pos: usize = start;
    let mut out: Vec<u8> = Vec::new();
    let ghost mut chunks: Seq<Seq<u8>> = Seq::empty();
    while pos < container.len()
        invariant
            key@.len() == KEY_LEN,
            pos <= container@.len(),
            out@ == chunks.flatten(),
            metadata.wf(),
            ({
                let tail = spec_read_chunks(container@.skip(pos as int), key@);
                match tail {
                    Ok(rest) => spec_decrypt_container(container@, key@) == Ok::<
                        ((Seq<u8>, u64), Seq<Seq<u8>>),
                        Error,
                    >(((metadata.spec_name(), metadata.spec_size()), chunks + rest)),
                    Err(e) => spec_decrypt_container(container@, key@) == Err::<
                        ((Seq<u8>, u64), Seq<Seq<u8>>),
                        Error,
                    >(e),
                }
            }),
        decreases container@.len() - pos,
    {
        let ghost suffix = container@.skip(pos as int);
        let (blob, new_pos) = read_record(container, pos)?;
        let entry = WALEntry::from_bytes(&blob)?;
        let mut pt = decrypt_chunk(entry.encrypted_data, key, &entry.nonce)?;
        let ghost ptv = pt@;
        out.append(&mut pt);
        proof {
            broadcast use Seq::group_seq_flatten;

            let l = vstd::bytes::spec_u32_from_le_bytes(suffix.subrange(0, 4)) as int;
            assert(suffix.skip(4 + l) =~= container@.skip(new_pos as int));
            let prior = chunks;
            chunks = chunks.push(ptv);
            assert(chunks.flatten() =~= out@);
            match spec_read_chunks(container@.skip(new_pos as int), key@) {
                Ok(rest) => {
                    assert(spec_read_chunks(suffix, key@) == Ok::<Seq<Seq<u8>>, Error>(
                        seq![ptv] + rest,
                    ));
                    assert(chunks + rest =~= prior + (seq![ptv] + rest));
                },
                Err(e) => {
                    assert(spec_read_chunks(suffix, key@) == Err::<Seq<Seq<u8>>, Error>(e));
                },
            }
        }
        pos = new_pos;
    }
    proof {
        assert(container@.skip(pos as int) =~= Seq::<u8>::empty());
        assert(chunks + Seq::<Seq<u8>>::empty() =~= chunks);
    }
    Ok((metadata, out))
}

/// Opens a container and performs only the metadata step: a read-only
/// projection of the header, the chunk entries untouched.
pub fn show_info(container: &Vec<u8>, key: &Vec<u8>) -> (r: Result<Metadata, Error>)
    requires
        key@.len() == KEY_LEN,
    ensures
        match r {
            Ok(m) => {
                &&& m.wf()
                &&& spec_meta_step(container@, key@) matches Ok((meta, end)) && meta == (
                m.spec_name(), m.spec_size())
            },
            Err(e) => spec_meta_step(container@, key@) matches Err(e2) && e2 == e,
        },
{
    let (metadata, _) = read_metadata(container, key)?;
    Ok(metadata)
}

/// Splitting a container into the bodies of its length-prefixed records,
/// with no decryption: the record structure alone.
pub open spec fn spec_parse_records(bytes: Seq<u8>) -> Option<Seq<Seq<u8>>>
    decreases bytes.len(),
{
    if bytes.len() == 0 {
        Some(Seq::empty())
    } else if bytes.len() < 4 {
        None
    } else {
        let l = vstd::bytes::spec_u32_from_le_bytes(bytes.subrange(0, 4)) as int;
        if bytes.len() < 4 + l {
            None
        } else {
            match spec_parse_records(bytes.skip(4 + l)) {
                Option::Some(rest) => Some(seq![bytes.subrange(4, 4 + l)] + rest),
                Option::None => None,
            }
        }
    }
}

/// The byte stream that records with the given bodies concatenate to.
pub open spec fn concat_bodies(bodies: Seq<Seq<u8>>) -> Seq<u8>
    decreases bodies.len(),
{
    if bodies.len() == 0 {
        Seq::empty()
    } else {
        spec_record(bodies.first()) + concat_bodies(bodies.drop_first())
    }
}

/// A record followed by more bytes starts with its own length prefix, then
/// its body, then the rest.
proof fn lemma_record_prepend(body: Seq<u8>, rest: Seq<u8>)
    requires
        body.len() <= u32::MAX,
    ensures
        ({
            let s = spec_record(body) + rest;
            &&& s.len() == 4 + body.len() + rest.len()
            &&& vstd::bytes::spec_u32_from_le_bytes(s.subrange(0, 4)) == body.len()
            &&& s.subrange(4, 4 + body.len() as int) == body
            &&& s.skip(4 + body.len() as int) == rest
        }),
{
    vstd::bytes::lemma_auto_spec_u32_to_from_le_bytes();
    let s = spec_record(body) + rest;
    assert(s.subrange(0, 4) =~= vstd::bytes::spec_u32_to_le_bytes(body.len() as u32));
    assert(s.subrange(4, 4 + body.len() as int) =~= body);
    assert(s.skip(4 + body.len() as int) =~= rest);
}

/// Appending one more record extends the concatenation at the end.
proof fn lemma_concat_bodies_push(bodies: Seq<Seq<u8>>, b: Seq<u8>)
    ensures
        concat_bodies(bodies.push(b)) == concat_bodies(bodies) + spec_record(b),
    decreases bodies.len(),
{
    if bodies.len() == 0 {
        assert(bodies.push(b).drop_first() =~= Seq::<Seq<u8>>::empty());
        assert(concat_bodies(Seq::<Seq<u8>>::empty()) =~= Seq::<u8>::empty());
        assert(concat_bodies(bodies.push(b)) =~= concat_bodies(bodies) + spec_record(b));
    } else {
        assert(bodies.push(b).drop_first() =~= bodies.drop_first().push(b));
        lemma_concat_bodies_push(bodies.drop_first(), b);
        assert(spec_record(bodies.first()) + (concat_bodies(bodies.drop_first()) + spec_record(b))
            =~= (spec_record(bodies.first()) + concat_bodies(bodies.drop_first())) + spec_record(
            b,
        ));
    }
}

/// Record splitting inverts record concatenation, for bodies whose lengths
/// fit their 4-byte prefixes.
proof fn lemma_parse_records_concat(bodies: Seq<Seq<u8>>)
    requires
        forall|i: int| 0 <= i < bodies.len() ==> #[trigger] bodies[i].len() <= u32::MAX,
    ensures
        spec_parse_records(concat_bodies(bodies)) == Some(bodies),
    decreases bodies.len(),
{
    if bodies.len() == 0 {
        assert(bodies =~= Seq::<Seq<u8>>::empty());
    } else {
        let rest = concat_bodies(bodies.drop_first());
        lemma_record_prepend(bodies.first(), rest);
        lemma_parse_records_concat(bodies.drop_first());
        let s = concat_bodies(bodies);
        assert(s.len() >= 4);
        assert(seq![bodies.first()] + bodies.drop_first() =~= bodies);
    }
}

/// Reading chunks back from concatenated records yields exactly the
/// plaintexts the records' payloads decrypt to.
proof fn lemma_read_chunks_concat(bodies: Seq<Seq<u8>>, key: Seq<u8>, plains: Seq<Seq<u8>>)
    requires
        plains.len() == bodies.len(),
        forall|i: int| 0 <= i < bodies.len() ==> #[trigger] bodies[i].len() <= u32::MAX,
        forall|i: int|
            0 <= i < bodies.len() ==> #[trigger] spec_parse_entry(bodies[i]) is Some && plain_of(
                key,
                spec_parse_entry(bodies[i]).unwrap().2,
                spec_parse_entry(bodies[i]).unwrap().1,
            ) == Some(plains[i]),
    ensures
        spec_read_chunks(concat_bodies(bodies), key) == Ok::<Seq<Seq<u8>>, Error>(plains),
    decreases bodies.len(),
{
    if bodies.len() == 0 {
        assert(plains =~= Seq::<Seq<u8>>::empty());
    } else {
        let rest = concat_bodies(bodies.drop_first());
        lemma_record_prepend(bodies.first(), rest);
        lemma_read_chunks_concat(bodies.drop_first(), key, plains.drop_first());
        let s = concat_bodies(bodies);
        assert(s.len() >= 4);
        assert(seq![plains.first()] + plains.drop_first() =~= plains);
    }
}

/// Splits the data into nominal-size chunks: every chunk but the last is
/// exactly [`CHUNK_SIZE`] bytes, the last holds the remainder, an empty
/// input yields no chunks, and the chunks concatenate back to the data.
pub fn chunk_data(data: &Vec<u8>) -> (r: Vec<Vec<u8>>)
    ensures
        r@.len() == spec_chunk_count(data@.len()),
        r@.map_values(|c: Vec<u8>| c@).flatten() == data@,
        forall|i: int| 0 <= i < r@.len() ==> 0 < #[trigger] r@[i]@.len() <= CHUNK_SIZE,
        forall|i: int| 0 <= i < r@.len() - 1 ==> #[trigger] r@[i]@.len() == CHUNK_SIZE,
{
    let mut chunks: Vec<Vec<u8>> = Vec::new();
    let mut pos: usize = 0;
    while pos < data.len()
        invariant
            pos <= data@.len(),
            chunks@.map_values(|c: Vec<u8>| c@).flatten() == data@.subrange(0, pos as int),
            forall|i: int| 0 <= i < chunks@.len() ==> 0 < #[trigger] chunks@[i]@.len()
                <= CHUNK_SIZE,
            forall|i: int| 0 <= i < chunks@.len() - 1 ==> #[trigger] chunks@[i]@.len()
                == CHUNK_SIZE,
            pos == data@.len() || (forall|i: int|
                0 <= i < chunks@.len() ==> #[trigger] chunks@[i]@.len() == CHUNK_SIZE),
            pos <= chunks@.len() * CHUNK_SIZE,
            chunks@.len() > 0 ==> pos > (chunks@.len() - 1) * CHUNK_SIZE,
            pos < data@.len() ==> pos == chunks@.len() * CHUNK_SIZE,
        decreases data@.len() - pos,
    {
        let remaining = data.len() - pos;
        let m = if remaining < CHUNK_SIZE {
            remaining
        } else {
            CHUNK_SIZE
        };
        let piece = vstd::slice::slice_to_vec(
            vstd::slice::slice_subrange(data.as_slice(), pos, pos + m),
        );
        let ghost prior = chunks@.map_values(|c: Vec<u8>| c@);
        chunks.push(piece);
        proof {
            broadcast use Seq::group_seq_flatten;

            assert(chunks@.map_values(|c: Vec<u8>| c@) =~= prior.push(data@.subrange(
                pos as int,
                pos + m,
            )));
            assert(prior.push(data@.subrange(pos as int, pos + m)).flatten() =~= data@.subrange(
                0,
                pos + m,
            ));
        }
        pos = pos + m;
    }
    proof {
        assert(data@.subrange(0, data@.len() as int) =~= data@);
        let n = chunks@.len() as int;
        let c = CHUNK_SIZE as int;
        let len = data@.len() as int;
        if n == 0 {
            assert(spec_chunk_count(data@.len()) == 0);
        } else {
            assert((n - 1) * c < len <= n * c);
            assert((len + c - 1) / c == n) by (nonlinear_arith)
                requires
                    (n - 1) * c < len <= n * c,
                    c > 0,
            ;
        }
    }
    chunks
}

/// Encrypts a whole file held in memory into a container: the encrypted
/// metadata entry first, then one entry per chunk, indices 1 up, in order.
/// Decrypting the result with the same key recovers the metadata and the
/// data exactly; the container parses into `1 + ceil(len / CHUNK_SIZE)`
/// records whose entry indices are `0, 1, …` in position order.
pub fn encrypt_container(data: &Vec<u8>, file_name: &Vec<u8>, key: &Vec<u8>) -> (r: Result<
    Vec<u8>,
    Error,
>)
    requires
        key@.len() == KEY_LEN,
    ensures
        match r {
            Ok(c) => {
                &&& file_name@.len() < NAME_CAPACITY
                &&& spec_decrypt_container(c@, key@) matches Ok((meta, chunks)) && meta == (
                    spec_zero_pad(file_name@, NAME_CAPACITY as nat),
                    data@.len() as u64,
                ) && chunks.flatten() == data@ && chunks.len() == spec_chunk_count(data@.len())
                &&& spec_parse_records(c@) matches Some(blobs) && blobs.len() == 1
                    + spec_chunk_count(data@.len()) && (forall|i: int|
                    0 <= i < blobs.len() ==> #[trigger] spec_parse_entry(blobs[i]) is Some
                        && spec_parse_entry(blobs[i]).unwrap().0 == i)
            },
            Err(e) => {
                &&& file_name@.len() >= NAME_CAPACITY
                &&& e == Error::NameTooLong
            },
        },
{
    let metadata = Metadata::new(file_name, data.len() as u64)?;
    let chunks = chunk_data(data);
    let meta_bytes = metadata.to_bytes();
    let meta_nonce = random_nonce();
    let meta_ct = match encrypt_chunk(&meta_bytes, key, &meta_nonce) {
        Ok(c) => c,
        Err(_) => {
            proof {
                assert(false);
            }
            return Err(Error::NameTooLong);
        },
    };
    let meta_entry = WALEntry { chunk_index: 0u64, encrypted_data: meta_ct, nonce: meta_nonce };
    let mut container = meta_entry.to_record();
    let ghost meta_blob = meta_entry.spec_bytes();
    proof {
        lemma_entry_round_trip(0u64, meta_entry.encrypted_data@, meta_entry.nonce@);
        lemma_metadata_round_trip(metadata.spec_name(), metadata.spec_size());
        assert(container@ =~= spec_record(meta_blob) + concat_bodies(Seq::<Seq<u8>>::empty()));
    }
    let ghost mut chunk_bodies: Seq<Seq<u8>> = Seq::empty();
    let ghost mut plains: Seq<Seq<u8>> = Seq::empty();
    let mut i: usize = 0;
    while i < chunks.len()
        invariant
            key@.len() == KEY_LEN,
            i <= chunks@.len(),
            chunk_bodies.len() == i,
            plains.len() == i,
            container@ == spec_record(meta_blob) + concat_bodies(chunk_bodies),
            meta_blob.len() <= u32::MAX,
            spec_parse_entry(meta_blob) is Some,
            spec_parse_entry(meta_blob).unwrap().0 == 0,
            plain_of(
                key@,
                spec_parse_entry(meta_blob).unwrap().2,
                spec_parse_entry(meta_blob).unwrap().1,
            ) == Some(spec_metadata_bytes(metadata.spec_name(), metadata.spec_size())),
            metadata.wf(),
            metadata.spec_name() == spec_zero_pad(file_name@, NAME_CAPACITY as nat),
            metadata.spec_size() == data@.len() as u64,
            forall|i_0: int| 0 <= i_0 < chunks@.len() ==> 0 < #[trigger] chunks@[i_0]@.len()
                <= CHUNK_SIZE,
            forall|j: int| 0 <= j < i ==> #[trigger] chunk_bodies[j].len() <= u32::MAX,
            forall|j: int|
                0 <= j < i ==> #[trigger] spec_parse_entry(chunk_bodies[j]) is Some
                    && spec_parse_entry(chunk_bodies[j]).unwrap().0 == j + 1 && plain_of(
                    key@,
                    spec_parse_entry(chunk_bodies[j]).unwrap().2,
                    spec_parse_entry(chunk_bodies[j]).unwrap().1,
                ) == Some(plains[j]),
            forall|j: int| 0 <= j < i ==> #[trigger] plains[j] == chunks@[j]@,
        decreases chunks@.len() - i,
    {
        let chunk = &chunks[i];
        let nonce = random_nonce();
        let ct = match encrypt_chunk(chunk, key, &nonce) {
            Ok(c) => c,
            Err(_) => {
                proof {
                    assert(false);
                }
                return Err(Error::NameTooLong);
            },
        };
        let entry = WALEntry { chunk_index: (i as u64) + 1, encrypted_data: ct, nonce };
        let mut rec = entry.to_record();
        container.append(&mut rec);
        proof {
            lemma_entry_round_trip(entry.chunk_index, entry.encrypted_data@, entry.nonce@);
            lemma_concat_bodies_push(chunk_bodies, entry.spec_bytes());
            assert(spec_record(meta_blob) + (concat_bodies(chunk_bodies) + spec_record(
                entry.spec_bytes(),
            )) =~= (spec_record(meta_blob) + concat_bodies(chunk_bodies)) + spec_record(
                entry.spec_bytes(),
            ));
            chunk_bodies = chunk_bodies.push(entry.spec_bytes());
            plains = plains.push(chunk@);
        }
        i += 1;
    }
    proof {
        lemma_record_prepend(meta_blob, concat_bodies(chunk_bodies));
        lemma_read_chunks_concat(chunk_bodies, key@, plains);
        let all_bodies = seq![meta_blob] + chunk_bodies;
        assert(all_bodies.drop_first() =~= chunk_bodies);
        assert(concat_bodies(all_bodies) =~= container@);
        assert(forall|j: int|
            0 <= j < all_bodies.len() ==> #[trigger] all_bodies[j].len() <= u32::MAX);
        lemma_parse_records_concat(all_bodies);
        assert(plains =~= chunks@.map_values(|c: Vec<u8>| c@));
        assert(spec_meta_step(container@, key@) == Ok::<((Seq<u8>, u64), int), Error>(
            ((metadata.spec_name(), metadata.spec_size()), 4 + meta_blob.len() as int),
        ));
        assert(container@.skip(4 + meta_blob.len() as int) == concat_bodies(chunk_bodies));
    }
    Ok(container)
}

/// The file name recovered from a metadata block: its zero padding dropped
/// and the rest decoded as text, or [`Error::EncodingError`].
pub fn recovered_file_name(metadata: &Metadata) -> (r: Result<String, Error>)
    ensures
        match r {
            Ok(s) => utf8_of(metadata.spec_name().filter(|b: u8| b != 0)) == Some(s@),
            Err(e) => {
                &&& utf8_of(metadata.spec_name().filter(|b: u8| b != 0)) is None
                &&& e == Error::EncodingError
            },
        },
{
    let trimmed = filter_zero_bytes(metadata.file_name());
    string_from_utf8(trimmed)
}

} // verus!
