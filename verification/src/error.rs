//! Errors.

use crate::text::{decimal, with_number_inside};
use vstd::prelude::*;
use vstd::std_specs::convert::FromSpecImpl;

verus! {

/// Why a proof was refused.
#[derive(Clone, Copy, Debug, PartialEq, Eq)]
pub enum CryptoError {
    /// A commitment does not satisfy the proof's equations.
    CommitmentMismatch,
    /// The challenge is not the one derived from the transcript.
    ChallengeMismatch,
    /// The parts of a proof do not have the required lengths.
    LengthMismatch,
    /// The parts of a proof do not have the required shape.
    InvalidInputShape,
    /// The randomness does not belong to the ciphertext.
    RandomPointMismatch,
    /// The plaintext is not in the lookup table.
    ElementNotFound,
}

/// Why a decryption failed.
#[derive(Clone, Copy, Debug, PartialEq, Eq)]
pub enum DecryptionError {
    RandomPointMismatch,
    ElementNotFound,
}

/// The errors of the library.
#[derive(Clone, Debug, PartialEq)]
#[non_exhaustive]
pub enum Error {
    InvalidSize(String),
    IdOutOfRange(usize),
    IdMissmatch(usize),
    DvKeysNotSet(usize),
    FailedVerification(CryptoError),
    FailedDecryption(DecryptionError),
    FailedCredentialControl(usize),
    FailedVerifiableDecryption(usize),
    CiphertextMismatch(String),
    DlogMismatch(String),
    Mismatch(String),
}

impl CryptoError {
    /// The text of the error.
    pub open spec fn text(self) -> Seq<char> {
        match self {
            CryptoError::CommitmentMismatch => "commitment does not match the one provided in the proof"@,
            CryptoError::ChallengeMismatch => "challenge does not match the one derived from the transcript"@,
            CryptoError::LengthMismatch => "length does not match"@,
            CryptoError::InvalidInputShape => "invalid input shape/order for verification"@,
            CryptoError::RandomPointMismatch => "random point reconstructed from randomness does not match"@,
            CryptoError::ElementNotFound => "element not found (e.g., lookup table may be too small)"@,
        }
    }

    /// The text of the error.
    pub fn to_string(&self) -> (r: String)
        ensures
            r@ == self.text(),
    {
        match self {
            CryptoError::CommitmentMismatch =>
                "commitment does not match the one provided in the proof".to_owned(),
            CryptoError::ChallengeMismatch =>
                "challenge does not match the one derived from the transcript".to_owned(),
            CryptoError::LengthMismatch => "length does not match".to_owned(),
            CryptoError::InvalidInputShape =>
                "invalid input shape/order for verification".to_owned(),
            CryptoError::RandomPointMismatch =>
                "random point reconstructed from randomness does not match".to_owned(),
            CryptoError::ElementNotFound =>
                "element not found (e.g., lookup table may be too small)".to_owned(),
        }
    }
}

impl Error {
    /// The text of the error.
    pub open spec fn text(self) -> Seq<char> {
        match self {
            Error::InvalidSize(message) => "Input has inconsistent size: "@ + message@,
            Error::IdOutOfRange(id) => "The ID:"@ + decimal(id as int)
                + " given in input is outside the range of RegistrationTeller"@,
            Error::IdMissmatch(id) => "The ID:"@ + decimal(id as int)
                + " included in the Credential is different from the position inside the list!"@,
            Error::DvKeysNotSet(id) => "The Designated Verifier public key of ID:"@ + decimal(
                id as int,
            ) + " is not set!"@,
            Error::FailedVerification(err) => "Verification Failed: "@ + err.text(),
            Error::FailedDecryption(_) => "Decryption Failed"@,
            Error::FailedCredentialControl(index) => "The ID:"@ + decimal(index as int)
                + " failed the credential control check"@,
            Error::FailedVerifiableDecryption(index) => "The ID:"@ + decimal(index as int)
                + " failed the veryfiable decryption check"@,
            Error::CiphertextMismatch(s) => "Ciphertext mismatch: "@ + s@,
            Error::DlogMismatch(s) => "Dlog mismatch: "@ + s@,
            Error::Mismatch(s) => "Mismatch: "@ + s@,
        }
    }

    /// The text of the error.
    pub fn to_string(&self) -> (r: String)
        ensures
            r@ == self.text(),
    {
        match self {
            Error::InvalidSize(message) => "Input has inconsistent size: ".to_owned().concat(
                message.as_str(),
            ),
            Error::IdOutOfRange(id) => with_number_inside(
                "The ID:",
                *id,
                " given in input is outside the range of RegistrationTeller",
            ),
            Error::IdMissmatch(id) => with_number_inside(
                "The ID:",
                *id,
                " included in the Credential is different from the position inside the list!",
            ),
            Error::DvKeysNotSet(id) => with_number_inside(
                "The Designated Verifier public key of ID:",
                *id,
                " is not set!",
            ),
            Error::FailedVerification(err) => "Verification Failed: ".to_owned().concat(
                err.to_string().as_str(),
            ),
            Error::FailedDecryption(_) => "Decryption Failed".to_owned(),
            Error::FailedCredentialControl(index) => with_number_inside(
                "The ID:",
                *index,
                " failed the credential control check",
            ),
            Error::FailedVerifiableDecryption(index) => with_number_inside(
                "The ID:",
                *index,
                " failed the veryfiable decryption check",
            ),
            Error::CiphertextMismatch(s) => "Ciphertext mismatch: ".to_owned().concat(s.as_str()),
            Error::DlogMismatch(s) => "Dlog mismatch: ".to_owned().concat(s.as_str()),
            Error::Mismatch(s) => "Mismatch: ".to_owned().concat(s.as_str()),
        }
    }
}

impl From<CryptoError> for Error {
    fn from(err: CryptoError) -> (r: Error) {
        Error::FailedVerification(err)
    }
}

impl FromSpecImpl<CryptoError> for Error {
    open spec fn obeys_from_spec() -> bool {
        true
    }

    open spec fn from_spec(err: CryptoError) -> Error {
        Error::FailedVerification(err)
    }
}

impl From<DecryptionError> for Error {
    fn from(err: DecryptionError) -> (r: Error) {
        Error::FailedDecryption(err)
    }
}

impl FromSpecImpl<DecryptionError> for Error {
    open spec fn obeys_from_spec() -> bool {
        true
    }

    open spec fn from_spec(err: DecryptionError) -> Error {
        Error::FailedDecryption(err)
    }
}

} // verus!
