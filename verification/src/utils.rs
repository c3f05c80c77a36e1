use vstd::prelude::*;

use crate::errors::Error;

verus! {

/// A byte sequence extended with zeros up to a fixed width.
pub open spec fn spec_zero_pad(s: Seq<u8>, n: nat) -> Seq<u8>
    recommends
        s.len() <= n,
{
    s + Seq::new((n - s.len()) as nat, |i: int| 0u8)
}

/// Copies the input into a fresh zero-padded buffer of exactly `n` bytes.
/// The input must be strictly shorter than `n`; at capacity or beyond it is
/// rejected as [`Error::NameTooLong`].
pub fn slice_to_array(input: &Vec<u8>, n: usize) -> (r: Result<Vec<u8>, Error>)
    ensures
        match r {
            Ok(out) => {
                &&& input@.len() < n
                &&& out@ == spec_zero_pad(input@, n as nat)
                &&& out@.len() == n
            },
            Err(e) => {
                &&& input@.len() >= n
                &&& e == Error::NameTooLong
            },
        },
{
    if input.len() >= n {
        return Err(Error::NameTooLong);
    }
    let mut out = vstd::slice::slice_to_vec(input.as_slice());
    let mut i: usize = input.len();
    while i < n
        invariant
            input@.len() <= i <= n,
            out@ == input@ + Seq::new((i - input@.len()) as nat, |j: int| 0u8),
        decreases n - i,
    {
        out.push(0u8);
        proof {
            assert(Seq::new((i + 1 - input@.len()) as nat, |j: int| 0u8) =~= Seq::new(
                (i - input@.len()) as nat,
                |j: int| 0u8,
            ).push(0u8));
        }
        i += 1;
    }
    proof {
        assert(out@ =~= spec_zero_pad(input@, n as nat));
    }
    Ok(out)
}

/// What a byte string decodes to as UTF-8, when it is valid UTF-8 at all.
/// The decoding depends on the bytes alone.
pub uninterp spec fn utf8_of(bytes: Seq<u8>) -> Option<Seq<char>>;

/// Relies on String::from_utf8: succeeds exactly on valid UTF-8, and then
/// returns the decoded text.
#[verifier::external_body]
pub fn string_from_utf8(bytes: Vec<u8>) -> (r: Result<String, Error>)
    ensures
        match r {
            Ok(s) => utf8_of(bytes@) == Some(s@),
            Err(e) => {
                &&& utf8_of(bytes@) is None
                &&& e == Error::EncodingError
            },
        },
{
    String::from_utf8(bytes).map_err(|_| Error::EncodingError)
}

/// Drops every zero byte from the input, keeping the order of the rest.
/// This is how a zero-padded name buffer is turned back into a name.
pub fn filter_zero_bytes(input: &Vec<u8>) -> (r: Vec<u8>)
    ensures
        r@ == input@.filter(|b: u8| b != 0),
{
    let mut out: Vec<u8> = Vec::new();
    let mut i: usize = 0;
    while i < input.len()
        invariant
            i <= input@.len(),
            out@ == input@.subrange(0, i as int).filter(|b: u8| b != 0),
        decreases input@.len() - i,
    {
        let b = input[i];
        proof {
            reveal(Seq::filter);
            assert(input@.subrange(0, i + 1).drop_last() =~= input@.subrange(0, i as int));
            assert(input@.subrange(0, i + 1).last() == input@[i as int]);
        }
        if b != 0 {
            out.push(b);
        }
        i += 1;
    }
    proof {
        assert(input@.subrange(0, input@.len() as int) =~= input@);
    }
    out
}

} // verus!
