use vstd::prelude::*;

verus! {

#[verifier::external_type_specification]
#[verifier::external_body]
pub struct ExIoError(std::io::Error);

/// What can go wrong while reading or removing metadata.
#[derive(Debug)]
pub enum Error {
    /// The file is encrypted and cannot be read without a password.
    Encryption,
    /// The file does not have the layout that its format prescribes.
    File,
    /// Reading or writing the file failed.
    Io(std::io::Error),
    /// A metadata block inside the file is malformed.
    Metadata,
}

/// The message of an I/O error (std's `Display` for `std::io::Error`).
/// Nothing is stated of the text, which comes from the system.
#[verifier::external_body]
fn io_message(error: &std::io::Error) -> String {
    format!("{}", error)
}

impl Error {
    /// The error as a message for the user.
    pub fn message(&self) -> (r: String)
        ensures
            *self == Error::Encryption ==> r@ == "encrypted file"@,
            *self == Error::File ==> r@ == "invalid file"@,
            *self == Error::Metadata ==> r@ == "invalid metadata"@,
    {
        match self {
            Error::Encryption => crate::text::owned("encrypted file"),
            Error::File => crate::text::owned("invalid file"),
            Error::Io(error) => io_message(error),
            Error::Metadata => crate::text::owned("invalid metadata"),
        }
    }
}

} // verus!
