use vstd::prelude::*;

verus! {

/// What a run does with its input file. Encryption is the default when no
/// operation is named.
#[derive(Debug, Clone, Copy, PartialEq, Eq, Structural)]
pub enum Operation {
    Encrypt,
    Decrypt,
    ShowInfo,
}

/// The parsed command line: input path, optional output path, and the
/// chosen operation. Argument parsing itself happens outside the library;
/// this is the plain value it produces.
#[derive(Debug, Clone)]
pub struct Cli {
    pub in_path: String,
    pub out: Option<String>,
    pub operation: Option<Operation>,
}

impl Cli {
    /// The operation a run performs: the one asked for, or encryption.
    pub fn effective_operation(&self) -> (r: Operation)
        ensures
            r == match self.operation {
                Some(op) => op,
                None => Operation::Encrypt,
            },
    {
        match self.operation {
            Some(op) => op,
            None => Operation::Encrypt,
        }
    }
}

} // verus!
