use vstd::prelude::*;

verus! {

/// The AEAD algorithm a run uses. Only the ChaCha20-Poly1305 pipeline is
/// implemented; the variant is recorded so a run's configuration is
/// self-describing.
#[derive(Debug, Clone, Copy, PartialEq, Eq, Structural)]
pub enum Algorithm {
    ChaChaPoly,
    AesGcm,
}

/// One run's configuration: the input path, the optional output path, and
/// the algorithm.
#[derive(Debug, Clone)]
pub struct Config {
    pub in_file: String,
    pub out_file: Option<String>,
    pub enc_algorithm: Algorithm,
}

} // verus!
