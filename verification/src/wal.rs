use vstd::prelude::*;

use crate::errors::Error;

verus! {

/// Length of a per-entry AEAD nonce, in bytes.
pub const NONCE_LEN: usize = 12;

/// Fixed bytes of a serialized entry: 8 for the index, 8 for the payload
/// length, 12 for the nonce.
pub const ENTRY_OVERHEAD: usize = 28;

/// The serialized form of an entry: the chunk index as 8 little-endian
/// bytes, the payload length as 8 little-endian bytes, the payload, and
/// the 12-byte nonce.
pub open spec fn spec_entry_bytes(index: u64, payload: Seq<u8>, nonce: Seq<u8>) -> Seq<u8> {
    vstd::bytes::spec_u64_to_le_bytes(index) + vstd::bytes::spec_u64_to_le_bytes(
        payload.len() as u64,
    ) + payload + nonce
}

/// What a serialized entry decodes to: its index, payload and nonce.
/// The recorded payload length must account for the entry's length exactly.
pub open spec fn spec_parse_entry(bytes: Seq<u8>) -> Option<(u64, Seq<u8>, Seq<u8>)> {
    if bytes.len() < ENTRY_OVERHEAD {
        None
    } else {
        let plen = vstd::bytes::spec_u64_from_le_bytes(bytes.subrange(8, 16)) as int;
        if bytes.len() != ENTRY_OVERHEAD + plen {
            None
        } else {
            Some(
                (
                    vstd::bytes::spec_u64_from_le_bytes(bytes.subrange(0, 8)),
                    bytes.subrange(16, 16 + plen),
                    bytes.subrange(16 + plen, bytes.len() as int),
                ),
            )
        }
    }
}

/// Decoding inverts encoding for every entry with a 12-byte nonce.
pub proof fn lemma_entry_round_trip(index: u64, payload: Seq<u8>, nonce: Seq<u8>)
    requires
        nonce.len() == NONCE_LEN,
        payload.len() <= u64::MAX,
    ensures
        spec_parse_entry(spec_entry_bytes(index, payload, nonce)) == Some((index, payload, nonce)),
{
    vstd::bytes::lemma_auto_spec_u64_to_from_le_bytes();
    let bytes = spec_entry_bytes(index, payload, nonce);
    assert(bytes.subrange(0, 8) =~= vstd::bytes::spec_u64_to_le_bytes(index));
    assert(bytes.subrange(8, 16) =~= vstd::bytes::spec_u64_to_le_bytes(payload.len() as u64));
    let plen = payload.len() as int;
    assert(bytes.subrange(16, 16 + plen) =~= payload);
    assert(bytes.subrange(16 + plen, bytes.len() as int) =~= nonce);
}

/// One staging/container record: a chunk index, the authenticated
/// ciphertext of that chunk, and the nonce the chunk was encrypted with.
/// Index 0 is reserved for the encrypted metadata entry; plaintext chunks
/// count from 1.
#[derive(Debug)]
pub struct WALEntry {
    pub chunk_index: u64,
    pub encrypted_data: Vec<u8>,
    pub nonce: Vec<u8>,
}

/// A length-prefixed record: the body's length as 4 little-endian bytes,
/// then the body.
pub open spec fn spec_record(body: Seq<u8>) -> Seq<u8>
    recommends
        body.len() <= u32::MAX,
{
    vstd::bytes::spec_u32_to_le_bytes(body.len() as u32) + body
}

impl WALEntry {
    /// The nonce is always 12 bytes and the payload leaves the serialized
    /// length within a 4-byte length prefix.
    pub open spec fn wf(&self) -> bool {
        &&& self.nonce@.len() == NONCE_LEN
        &&& self.encrypted_data@.len() + ENTRY_OVERHEAD <= u32::MAX
    }

    /// The serialized form of this entry.
    pub open spec fn spec_bytes(&self) -> Seq<u8> {
        spec_entry_bytes(self.chunk_index, self.encrypted_data@, self.nonce@)
    }

    /// Encodes the entry.
    pub fn to_vec(&self) -> (r: Vec<u8>)
        requires
            self.wf(),
        ensures
            r@ == self.spec_bytes(),
            r@.len() == self.encrypted_data@.len() + ENTRY_OVERHEAD,
    {
        let mut out = vstd::bytes::u64_to_le_bytes(self.chunk_index);
        let mut plen_bytes = vstd::bytes::u64_to_le_bytes(self.encrypted_data.len() as u64);
        out.append(&mut plen_bytes);
        let mut payload = vstd::slice::slice_to_vec(self.encrypted_data.as_slice());
        out.append(&mut payload);
        let mut nonce = vstd::slice::slice_to_vec(self.nonce.as_slice());
        out.append(&mut nonce);
        proof {
            assert(out@ =~= self.spec_bytes());
        }
        out
    }

    /// Length of the serialized entry, as recorded in a record's prefix.
    pub fn get_length(&self) -> (r: u32)
        requires
            self.wf(),
        ensures
            r == self.encrypted_data@.len() + ENTRY_OVERHEAD,
    {
        (self.encrypted_data.len() as u32) + (ENTRY_OVERHEAD as u32)
    }

    /// Encodes the entry as a length-prefixed record, the unit from which
    /// staged files and the container are built.
    pub fn to_record(&self) -> (r: Vec<u8>)
        requires
            self.wf(),
        ensures
            r@ == spec_record(self.spec_bytes()),
            r@.len() == self.encrypted_data@.len() + ENTRY_OVERHEAD + 4,
    {
        let mut body = self.to_vec();
        let mut out = vstd::bytes::u32_to_le_bytes(body.len() as u32);
        out.append(&mut body);
        out
    }

    /// Decodes a serialized entry. Anything that is not the exact encoding
    /// of some entry is [`Error::MalformedContainer`].
    pub fn from_bytes(bytes: &Vec<u8>) -> (r: Result<WALEntry, Error>)
        ensures
            match r {
                Ok(e) => {
                    &&& spec_parse_entry(bytes@) == Some(
                        (e.chunk_index, e.encrypted_data@, e.nonce@),
                    )
                    &&& e.nonce@.len() == NONCE_LEN
                },
                Err(err) => {
                    &&& spec_parse_entry(bytes@) is None
                    &&& err == Error::MalformedContainer
                },
            },
    {
        if bytes.len() < ENTRY_OVERHEAD {
            return Err(Error::MalformedContainer);
        }
        let chunk_index = vstd::bytes::u64_from_le_bytes(
            vstd::slice::slice_subrange(bytes.as_slice(), 0, 8),
        );
        let plen_recorded = vstd::bytes::u64_from_le_bytes(
            vstd::slice::slice_subrange(bytes.as_slice(), 8, 16),
        );
        let plen: usize = bytes.len() - ENTRY_OVERHEAD;
        if plen_recorded != plen as u64 {
            return Err(Error::MalformedContainer);
        }
        let encrypted_data = vstd::slice::slice_to_vec(
            vstd::slice::slice_subrange(bytes.as_slice(), 16, 16 + plen),
        );
        let nonce = vstd::slice::slice_to_vec(
            vstd::slice::slice_subrange(bytes.as_slice(), 16 + plen, bytes.len()),
        );
        Ok(WALEntry { chunk_index, encrypted_data, nonce })
    }
}

/// Whether a file name follows the staging convention: it ends in "_wal".
pub open spec fn spec_is_wal_name(s: Seq<u8>) -> bool {
    &&& s.len() >= 4
    &&& s[s.len() - 4] == 95u8
    &&& s[s.len() - 3] == 119u8
    &&& s[s.len() - 2] == 97u8
    &&& s[s.len() - 1] == 108u8
}

/// Whether `i` is where the numeric prefix of a staged file name ends:
/// everything before it is not an underscore, and it is the first
/// underscore or the end of the name.
pub open spec fn spec_is_prefix_end(s: Seq<u8>, i: int) -> bool {
    &&& 0 <= i <= s.len()
    &&& forall|j: int| 0 <= j < i ==> s[j] != 95u8
    &&& (i == s.len() || s[i] == 95u8)
}

/// Where the numeric prefix of a staged file name ends.
pub open spec fn spec_prefix_end(s: Seq<u8>) -> int {
    choose|i: int| spec_is_prefix_end(s, i)
}

/// The prefix end is unique, so the exec scan lands exactly on it.
pub proof fn lemma_prefix_end_unique(s: Seq<u8>, i: int)
    requires
        spec_is_prefix_end(s, i),
    ensures
        spec_prefix_end(s) == i,
{
    assert(spec_is_prefix_end(s, spec_prefix_end(s)));
    let j = spec_prefix_end(s);
    if j < i {
        assert(s[j] != 95u8);
        assert(false);
    } else if j > i {
        assert(s[i] != 95u8);
        assert(false);
    }
}

/// Whether a byte string is one or more decimal digits.
pub open spec fn spec_is_digits(s: Seq<u8>) -> bool {
    &&& s.len() > 0
    &&& forall|i: int| 0 <= i < s.len() ==> 48 <= #[trigger] s[i] <= 57
}

/// The number a digit string denotes.
pub open spec fn spec_digits_val(s: Seq<u8>) -> int
    decreases s.len(),
{
    if s.len() == 0 {
        0
    } else {
        spec_digits_val(s.drop_last()) * 10 + (s.last() - 48)
    }
}

/// A digit string denotes a non-negative number, and longer digit strings
/// denote no less than their prefixes.
proof fn lemma_digits_val_bounds(s: Seq<u8>, i: int)
    requires
        0 <= i <= s.len(),
        forall|j: int| 0 <= j < s.len() ==> 48 <= #[trigger] s[j] <= 57,
    ensures
        0 <= spec_digits_val(s.take(i)) <= spec_digits_val(s),
    decreases s.len() - i,
{
    if i == s.len() {
        assert(s.take(i) =~= s);
        lemma_digits_val_nonneg(s);
    } else {
        lemma_digits_val_bounds(s, i + 1);
        assert(s.take(i + 1).drop_last() =~= s.take(i));
        assert(spec_digits_val(s.take(i + 1)) == spec_digits_val(s.take(i)) * 10 + (s.take(
            i + 1,
        ).last() - 48));
        assert(0 <= spec_digits_val(s.take(i))) by {
            lemma_digits_val_nonneg(s.take(i));
        }
    }
}

/// A digit-or-shorter string never denotes a negative number.
proof fn lemma_digits_val_nonneg(s: Seq<u8>)
    requires
        forall|j: int| 0 <= j < s.len() ==> 48 <= #[trigger] s[j] <= 57,
    ensures
        spec_digits_val(s) >= 0,
    decreases s.len(),
{
    if s.len() > 0 {
        lemma_digits_val_nonneg(s.drop_last());
    }
}

/// What a digit string parses to as a 32-bit number: its value, unless it
/// is empty, holds a non-digit, or overflows.
pub open spec fn spec_parse_u32(s: Seq<u8>) -> Option<u32> {
    if spec_is_digits(s) && spec_digits_val(s) <= u32::MAX {
        Some(spec_digits_val(s) as u32)
    } else {
        None
    }
}

/// The staging index a file name carries: its numeric prefix, read up to
/// the first underscore, or 0 when that prefix is not a number.
pub open spec fn spec_wal_index(s: Seq<u8>) -> u32 {
    match spec_parse_u32(s.take(spec_prefix_end(s))) {
        Some(v) => v,
        None => 0,
    }
}

/// Reads the staging index from a file name, as the assembler orders
/// staged files: the decimal prefix before the first underscore, with 0
/// standing in for anything unparsable.
pub fn parse_wal_index(name: &Vec<u8>) -> (r: u32)
    ensures
        r == spec_wal_index(name@),
{
    let n = name.len();
    let mut end: usize = 0;
    while end < n && name[end] != 95u8
        invariant
            0 <= end <= n == name@.len(),
            forall|j: int| 0 <= j < end ==> name@[j] != 95u8,
        decreases n - end,
    {
        end += 1;
    }
    proof {
        lemma_prefix_end_unique(name@, end as int);
    }
    let ghost prefix = name@.take(end as int);
    if end == 0 {
        return 0;
    }
    let mut val: u32 = 0;
    let mut k: usize = 0;
    while k < end
        invariant
            0 <= k <= end <= name@.len(),
            end > 0,
            prefix == name@.take(end as int),
            spec_prefix_end(name@) == end as int,
            forall|j: int| 0 <= j < k ==> 48 <= #[trigger] prefix[j] <= 57,
            val == spec_digits_val(prefix.take(k as int)),
        decreases end - k,
    {
        let b = name[k];
        proof {
            assert(prefix.take(k + 1).drop_last() =~= prefix.take(k as int));
            assert(prefix.take(k + 1).last() == prefix[k as int]);
        }
        if b < 48 || b > 57 {
            proof {
                assert(prefix[k as int] == name@[k as int]);
                assert(!(48 <= prefix[k as int] <= 57));
                assert(!spec_is_digits(prefix));
            }
            return 0;
        }
        let wide: u64 = (val as u64) * 10 + ((b - 48) as u64);
        if wide > 0xFFFF_FFFFu64 {
            proof {
                assert(prefix[k as int] == name@[k as int]);
                if spec_is_digits(prefix) {
                    assert(spec_digits_val(prefix.take(k + 1)) == spec_digits_val(prefix.take(
                        k as int,
                    )) * 10 + (prefix[k as int] - 48));
                    assert(spec_digits_val(prefix.take(k + 1)) == wide);
                    lemma_digits_val_bounds(prefix, k + 1);
                    assert(spec_digits_val(prefix) > u32::MAX);
                }
            }
            return 0;
        }
        val = wide as u32;
        k += 1;
    }
    proof {
        assert(prefix.take(end as int) =~= prefix);
        assert(spec_is_digits(prefix));
    }
    val
}

/// Powers of ten, for reading a number off its digits.
pub open spec fn spec_pow10(n: nat) -> int
    decreases n,
{
    if n == 0 {
        1
    } else {
        10 * spec_pow10((n - 1) as nat)
    }
}

/// Putting a digit in front of a digit string multiplies its place value
/// by ten for every digit behind it.
proof fn lemma_digits_val_prepend(c: u8, s: Seq<u8>)
    ensures
        spec_digits_val(seq![c] + s) == (c - 48) * spec_pow10(s.len()) + spec_digits_val(s),
    decreases s.len(),
{
    if s.len() == 0 {
        assert(seq![c] + s =~= seq![c]);
        assert(seq![c].drop_last() =~= Seq::<u8>::empty());
        assert(spec_digits_val(Seq::<u8>::empty()) == 0);
        assert(spec_digits_val(seq![c]) == (c - 48));
    } else {
        let t = seq![c] + s;
        let p = spec_pow10((s.len() - 1) as nat);
        assert(t.last() == s.last());
        assert(t.drop_last() =~= seq![c] + s.drop_last());
        assert(spec_digits_val(t) == spec_digits_val(seq![c] + s.drop_last()) * 10 + (s.last()
            - 48));
        lemma_digits_val_prepend(c, s.drop_last());
        assert(spec_digits_val(s) == spec_digits_val(s.drop_last()) * 10 + (s.last() - 48));
        assert(spec_pow10(s.len()) == 10 * p);
        assert(((c - 48) * p) * 10 == (c - 48) * spec_pow10(s.len())) by (nonlinear_arith)
            requires
                spec_pow10(s.len()) == 10 * p,
        ;
    }
}

/// Builds the staging file name for an index: its decimal digits, then
/// "_wal". Reading the index back from the name recovers it exactly.
pub fn wal_file_name(index: u32) -> (r: Vec<u8>)
    ensures
        spec_is_wal_name(r@),
        spec_wal_index(r@) == index,
{
    let mut digits: Vec<u8> = Vec::new();
    if index == 0 {
        digits.push(48u8);
        proof {
            assert(digits@ =~= seq![48u8]);
            assert(digits@.drop_last() =~= Seq::<u8>::empty());
            assert(spec_digits_val(Seq::<u8>::empty()) == 0);
            assert(spec_digits_val(digits@) == 0);
        }
    } else {
        let mut v: u32 = index;
        while v > 0
            invariant
                index == v * spec_pow10(digits@.len() as nat) + spec_digits_val(digits@),
                v < index || digits@.len() == 0,
                forall|j: int| 0 <= j < digits@.len() ==> 48 <= #[trigger] digits@[j] <= 57,
            decreases v,
        {
            let d = (v % 10) as u8;
            let b: u8 = 48u8 + d;
            let ghost before = digits@;
            digits.insert(0, b);
            proof {
                assert(digits@ =~= seq![b] + before);
                lemma_digits_val_prepend(b, before);
                assert((v / 10) * 10 * spec_pow10(before.len() as nat) == (v / 10) * (10
                    * spec_pow10(before.len() as nat))) by (nonlinear_arith);
                assert(v * spec_pow10(before.len() as nat) == ((v / 10) * 10 + (v % 10))
                    * spec_pow10(before.len() as nat)) by (nonlinear_arith);
                assert(((v / 10) * 10 + (v % 10)) * spec_pow10(before.len() as nat) == (v / 10)
                    * 10 * spec_pow10(before.len() as nat) + (v % 10) * spec_pow10(
                    before.len() as nat,
                )) by (nonlinear_arith);
            }
            v = v / 10;
        }
        proof {
            assert(index == spec_digits_val(digits@));
            assert(digits@.len() > 0);
        }
    }
    let ghost digit_part = digits@;
    digits.push(95u8);
    digits.push(119u8);
    digits.push(97u8);
    digits.push(108u8);
    proof {
        let name = digits@;
        assert(name =~= digit_part + seq![95u8, 119u8, 97u8, 108u8]);
        assert(spec_is_prefix_end(name, digit_part.len() as int));
        lemma_prefix_end_unique(name, digit_part.len() as int);
        assert(name.take(digit_part.len() as int) =~= digit_part);
        assert(spec_is_digits(digit_part));
        assert(spec_digits_val(digit_part) == index);
    }
    digits
}

/// Whether the name at each position carries the staging index for that
/// position: position `i` holds index `i + 1`, with no gap or duplicate.
pub open spec fn spec_contiguous(names: Seq<Seq<u8>>) -> bool {
    forall|i: int| 0 <= i < names.len() ==> spec_wal_index(#[trigger] names[i]) == i + 1
}

/// The staged names among a directory's file names.
pub open spec fn spec_wal_filter(names: Seq<Seq<u8>>) -> Seq<Seq<u8>> {
    names.filter(|s: Seq<u8>| spec_is_wal_name(s))
}

/// The staging indices a complete set of `n` staged chunks must carry:
/// 1 through `n`, each exactly once.
pub open spec fn spec_expected_indices(n: nat) -> Seq<u32> {
    Seq::new(n, |i: int| (i + 1) as u32)
}

/// Whether a set of file names stages a complete, gap-free, duplicate-free
/// chunk sequence: the indices of its staged names are exactly 1..=n.
pub open spec fn spec_sequence_ok(names: Seq<Seq<u8>>) -> bool {
    let ks = spec_keys_of(spec_wal_filter(names));
    &&& ks.len() <= u32::MAX  // more staged files than 32-bit indices cannot be contiguous
    &&& ks.to_multiset() == spec_expected_indices(ks.len()).to_multiset()
}

/// A sorted sequence is determined by its multiset of elements.
proof fn lemma_sorted_multiset_unique(a: Seq<u32>, b: Seq<u32>)
    requires
        forall|i: int, j: int| 0 <= i < j < a.len() ==> #[trigger] a[i] <= #[trigger] a[j],
        forall|i: int, j: int| 0 <= i < j < b.len() ==> #[trigger] b[i] <= #[trigger] b[j],
        a.to_multiset() == b.to_multiset(),
    ensures
        a == b,
    decreases a.len(),
{
    broadcast use vstd::seq_lib::group_to_multiset_ensures;

    assert(a.to_multiset().len() == a.len()) by {
        a.to_multiset_ensures();
    }
    assert(b.to_multiset().len() == b.len()) by {
        b.to_multiset_ensures();
    }
    if a.len() == 0 {
        assert(b.len() == 0);
        assert(a =~= b);
    } else {
        assert(b.len() == a.len());
        assert(a.to_multiset().contains(a[0]));
        assert(b.to_multiset().contains(a[0]));
        let bi = choose|bi: int| 0 <= bi < b.len() && b[bi] == a[0];
        assert(b[0] <= a[0]);
        assert(b.to_multiset().contains(b[0]));
        assert(a.to_multiset().contains(b[0]));
        let ai = choose|ai: int| 0 <= ai < a.len() && a[ai] == b[0];
        assert(a[0] <= b[0]);
        assert(a[0] == b[0]);
        assert(a.remove(0).to_multiset() =~= a.to_multiset().remove(a[0]));
        assert(b.remove(0).to_multiset() =~= b.to_multiset().remove(b[0]));
        assert forall|i: int, j: int| 0 <= i < j < a.remove(0).len() implies #[trigger] a.remove(
            0,
        )[i] <= #[trigger] a.remove(0)[j] by {
            assert(a.remove(0)[i] == a[i + 1]);
            assert(a.remove(0)[j] == a[j + 1]);
        }
        assert forall|i: int, j: int| 0 <= i < j < b.remove(0).len() implies #[trigger] b.remove(
            0,
        )[i] <= #[trigger] b.remove(0)[j] by {
            assert(b.remove(0)[i] == b[i + 1]);
            assert(b.remove(0)[j] == b[j + 1]);
        }
        lemma_sorted_multiset_unique(a.remove(0), b.remove(0));
        assert(a =~= seq![a[0]] + a.remove(0));
        assert(b =~= seq![b[0]] + b.remove(0));
    }
}

/// The staging indices the names carry, position by position.
pub open spec fn spec_keys_of(names: Seq<Seq<u8>>) -> Seq<u32> {
    names.map_values(|s: Seq<u8>| spec_wal_index(s))
}

/// Collects the staged entry files among a directory's file names and
/// validates them, as the assembler requires: keeps the names that follow
/// the staging convention, orders them by their numeric index, and demands
/// that those indices are exactly 1, 2, …, n — any gap, duplicate or
/// unparsable index fails the whole assembly with
/// [`Error::SequenceError`], and no partial result is returned.
pub fn get_and_validate_wal_files(names: Vec<Vec<u8>>) -> (r: Result<Vec<Vec<u8>>, Error>)
    ensures
        ({
            let filtered = spec_wal_filter(names@.map_values(|v: Vec<u8>| v@));
            match r {
                Ok(out) => {
                    &&& spec_sequence_ok(names@.map_values(|v: Vec<u8>| v@))
                    &&& out@.map_values(|v: Vec<u8>| v@).to_multiset() == filtered.to_multiset()
                    &&& out@.len() == filtered.len()
                    &&& spec_contiguous(out@.map_values(|v: Vec<u8>| v@))
                },
                Err(e) => {
                    &&& e == Error::SequenceError
                    &&& !spec_sequence_ok(names@.map_values(|v: Vec<u8>| v@))
                },
            }
        }),
{
    broadcast use vstd::seq_lib::group_to_multiset_ensures;

    let ghost namesv = names@.map_values(|v: Vec<u8>| v@);
    let mut wal: Vec<Vec<u8>> = Vec::new();
    let mut i: usize = 0;
    while i < names.len()
        invariant
            i <= names@.len(),
            namesv == names@.map_values(|v: Vec<u8>| v@),
            wal@.map_values(|v: Vec<u8>| v@) == spec_wal_filter(namesv.take(i as int)),
        decreases names@.len() - i,
    {
        let name = &names[i];
        let n = name.len();
        let is_wal = n >= 4 && name[n - 1] == 108u8 && name[n - 2] == 97u8 && name[n - 3] == 119u8
            && name[n - 4] == 95u8;
        proof {
            reveal(Seq::filter);
            assert(namesv.take(i + 1).drop_last() =~= namesv.take(i as int));
            assert(namesv.take(i + 1).last() == name@);
            assert(is_wal == spec_is_wal_name(name@));
        }
        if is_wal {
            let copy = vstd::slice::slice_to_vec(name.as_slice());
            let ghost before = wal@.map_values(|v: Vec<u8>| v@);
            wal.push(copy);
            proof {
                assert(wal@.map_values(|v: Vec<u8>| v@) =~= before.push(name@));
            }
        }
        i += 1;
    }
    proof {
        assert(namesv.take(namesv.len() as int) =~= namesv);
    }
    let ghost filtered = spec_wal_filter(namesv);
    let mut sorted = wal;
    let mut idx: usize = 1;
    while idx < sorted.len()
        invariant
            idx >= 1,
            sorted@.len() == filtered.len(),
            sorted@.map_values(|v: Vec<u8>| v@).to_multiset() == filtered.to_multiset(),
            spec_keys_of(sorted@.map_values(|v: Vec<u8>| v@)).to_multiset() == spec_keys_of(
                filtered,
            ).to_multiset(),
            forall|a: int, b: int|
                #![trigger sorted@[a], sorted@[b]]
                0 <= a < b < idx && b < sorted@.len() ==> spec_wal_index(sorted@[a]@)
                    <= spec_wal_index(sorted@[b]@),
        decreases sorted@.len() - idx,
    {
        let key_x = parse_wal_index(&sorted[idx]);
        let ghost s0 = sorted@.map_values(|v: Vec<u8>| v@);
        let ghost keys0 = spec_keys_of(s0);
        let mut j: usize = idx;
        while j > 0 && parse_wal_index(&sorted[j - 1]) > key_x
            invariant
                j <= idx < sorted@.len(),
                s0 == sorted@.map_values(|v: Vec<u8>| v@),
                keys0 == spec_keys_of(s0),
                key_x == keys0[idx as int],
                forall|k: int| j <= k < idx ==> #[trigger] keys0[k] > key_x,
            decreases j,
        {
            j -= 1;
        }
        proof {
            if j > 0 {
                assert(keys0[j - 1] <= key_x);
            }
        }
        let x = sorted.remove(idx);
        sorted.insert(j, x);
        proof {
            broadcast use vstd::seq_lib::group_to_multiset_ensures;

            let xv = s0[idx as int];
            let s1 = sorted@.map_values(|v: Vec<u8>| v@);
            assert(s1 =~= s0.remove(idx as int).insert(j as int, xv));
            let keys1 = spec_keys_of(s1);
            assert(keys1 =~= keys0.remove(idx as int).insert(j as int, keys0[idx as int]));
            assert(s0.remove(idx as int).to_multiset() =~= s0.to_multiset().remove(xv));
            lemma_insert_to_multiset(s0.remove(idx as int), j as int, xv);
            assert(s0.to_multiset().count(xv) >= 1) by {
                assert(s0.contains(xv));
            }
            assert(s1.to_multiset() =~= s0.to_multiset());
            assert(keys0.remove(idx as int).to_multiset() =~= keys0.to_multiset().remove(
                keys0[idx as int],
            ));
            lemma_insert_to_multiset(
                keys0.remove(idx as int),
                j as int,
                keys0[idx as int],
            );
            assert(keys0.to_multiset().count(keys0[idx as int]) >= 1) by {
                assert(keys0.contains(keys0[idx as int]));
            }
            assert(keys1.to_multiset() =~= keys0.to_multiset());
            assert forall|a: int, b: int| 0 <= a < b < idx + 1 implies #[trigger] keys1[a]
                <= #[trigger] keys1[b] by {
                if b < j {
                    assert(keys1[a] == keys0[a] && keys1[b] == keys0[b]);
                } else if a < j && b == j {
                    assert(keys1[a] == keys0[a]);
                    assert(keys0[j - 1] <= key_x);
                    assert(keys0[a] <= keys0[j - 1] || a == j - 1);
                } else if a < j && b > j {
                    assert(keys1[a] == keys0[a]);
                    assert(keys1[b] == keys0[b - 1]);
                    assert(keys0[j - 1] <= key_x);
                    assert(keys0[b - 1] > key_x);
                    assert(keys0[a] <= keys0[j - 1] || a == j - 1);
                } else if a == j {
                    assert(keys1[a] == key_x);
                    assert(keys1[b] == keys0[b - 1]);
                    assert(keys0[b - 1] > key_x);
                } else {
                    assert(keys1[a] == keys0[a - 1]);
                    assert(keys1[b] == keys0[b - 1]);
                }
            }
            assert forall|a: int, b: int|
                #![trigger sorted@[a], sorted@[b]]
                0 <= a < b < idx + 1 && b < sorted@.len() implies spec_wal_index(sorted@[a]@)
                <= spec_wal_index(sorted@[b]@) by {
                assert(keys1[a] == spec_wal_index(sorted@[a]@));
                assert(keys1[b] == spec_wal_index(sorted@[b]@));
            }
        }
        idx += 1;
    }
    let m = sorted.len();
    let ghost sortedv = sorted@.map_values(|v: Vec<u8>| v@);
    let ghost keys = spec_keys_of(sortedv);
    proof {
        assert forall|a: int, b: int| 0 <= a < b < keys.len() implies #[trigger] keys[a]
            <= #[trigger] keys[b] by {
            assert(keys[a] == spec_wal_index(sorted@[a]@));
            assert(keys[b] == spec_wal_index(sorted@[b]@));
        }
    }
    let mut t: usize = 0;
    while t < m
        invariant
            t <= m == sorted@.len(),
            namesv == names@.map_values(|v: Vec<u8>| v@),
            filtered == spec_wal_filter(namesv),
            sortedv == sorted@.map_values(|v: Vec<u8>| v@),
            keys == spec_keys_of(sortedv),
            sortedv.len() == filtered.len(),
            sortedv.to_multiset() == filtered.to_multiset(),
            keys.to_multiset() == spec_keys_of(filtered).to_multiset(),
            forall|a: int, b: int| 0 <= a < b < keys.len() ==> #[trigger] keys[a]
                <= #[trigger] keys[b],
            forall|q: int| 0 <= q < t ==> #[trigger] keys[q] == q + 1,
        decreases m - t,
    {
        let kt = parse_wal_index(&sorted[t]);
        if (kt as u64) != (t as u64) + 1 {
            proof {
                broadcast use vstd::seq_lib::group_to_multiset_ensures;

                if spec_sequence_ok(namesv) {
                    let expected = spec_expected_indices(spec_keys_of(filtered).len() as nat);
                    assert(spec_keys_of(filtered).len() == filtered.len());
                    assert(expected.len() == keys.len());
                    assert(keys.len() <= u32::MAX);
                    assert forall|a: int, b: int|
                        0 <= a < b < expected.len() implies #[trigger] expected[a]
                        <= #[trigger] expected[b] by {
                        assert(expected[a] == (a + 1) as u32);
                        assert(expected[b] == (b + 1) as u32);
                    }
                    assert(keys.to_multiset() == expected.to_multiset());
                    lemma_sorted_multiset_unique(keys, expected);
                    assert(keys[t as int] == t + 1);
                    assert(false);
                }
            }
            return Err(Error::SequenceError);
        }
        t += 1;
    }
    proof {
        broadcast use vstd::seq_lib::group_to_multiset_ensures;

        let expected = spec_expected_indices(spec_keys_of(filtered).len() as nat);
        assert(spec_keys_of(filtered).len() == filtered.len());
        if m > 0 {
            assert(keys[m - 1] == m);
            assert(m <= u32::MAX);
        }
        assert(keys =~= expected);
        assert forall|q: int| 0 <= q < sortedv.len() implies spec_wal_index(
            #[trigger] sortedv[q],
        ) == q + 1 by {
            assert(keys[q] == spec_wal_index(sortedv[q]));
        }
    }
    Ok(sorted)
}

/// Inserting an element anywhere adds exactly it to the multiset.
proof fn lemma_insert_to_multiset<A>(s: Seq<A>, i: int, x: A)
    requires
        0 <= i <= s.len(),
    ensures
        s.insert(i, x).to_multiset() == s.to_multiset().insert(x),
{
    broadcast use vstd::seq_lib::group_to_multiset_ensures;

    let t = s.insert(i, x);
    assert(t.remove(i) =~= s);
    assert(t.remove(i).to_multiset() =~= t.to_multiset().remove(t[i]));
    assert(t.to_multiset().count(x) >= 1) by {
        assert(t[i] == x);
        assert(t.contains(x));
    }
    assert(t.to_multiset() =~= s.to_multiset().insert(x));
}

} // verus!
