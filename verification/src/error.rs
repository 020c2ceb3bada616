//! What can go wrong with a state proof.

use vstd::prelude::*;
use vstd::string::StringExecFns;

use crate::text;

verus! {

/// An input or output error of the standard library.
#[verifier::external_type_specification]
#[verifier::external_body]
pub struct ExIoError(std::io::Error);

/// A refused state proof.
#[derive(Debug)]
pub enum SubstrateError {
    /// There are too few bytes for a proof.
    BufferUnderflow { expected: usize, found: usize },
    /// The public key has the wrong length.
    InvalidLatticePublicKey,
    /// The signature has the wrong length or is no encoded signature.
    InvalidLatticeSignature,
    /// The signature is not one of the message under the public key.
    CryptographicAttestationFailed,
    /// The proof is past its validity.
    ProofExpired { valid_until: u64, now: u64 },
    /// The proof could not be read or written.
    IoError(std::io::Error),
}

impl From<std::io::Error> for SubstrateError {
    fn from(err: std::io::Error) -> (error: SubstrateError) {
        SubstrateError::IoError(err)
    }
}

impl vstd::std_specs::convert::FromSpecImpl<std::io::Error> for SubstrateError {
    open spec fn obeys_from_spec() -> bool {
        true
    }

    open spec fn from_spec(err: std::io::Error) -> SubstrateError {
        SubstrateError::IoError(err)
    }
}

impl SubstrateError {
    /// Whether `message` is what the error says to a reader. What an input or
    /// output error says is up to the standard library.
    pub open spec fn says(self, message: Seq<char>) -> bool {
        match self {
            SubstrateError::BufferUnderflow { expected, found } => message
                == "Wire protocol chunk mismatch: expected "@ + text::decimal(expected as nat)
                + " bytes, found "@ + text::decimal(found as nat),
            SubstrateError::InvalidLatticePublicKey => message
                == "Failed to instantiate FIPS 204 verifying key geometry from wire slice"@,
            SubstrateError::InvalidLatticeSignature => message
                == "Failed to parse standard module-lattice signature layout"@,
            SubstrateError::CryptographicAttestationFailed => message
                == "Lattice verification equation failed to resolve structurally"@,
            SubstrateError::ProofExpired { valid_until, now } => message
                == "Proof expired: valid_until="@ + text::decimal(valid_until as nat) + ", now="@
                + text::decimal(now as nat),
            SubstrateError::IoError(err) => exists|cause: String|
                vstd::string::to_string_from_display_ensures(&err, cause) && message
                    == "Substrate hardware storage I/O fault: "@ + #[trigger] cause@,
        }
    }

    /// The error as a line of text.
    pub fn message(&self) -> (message: String)
        ensures
            self.says(message@),
    {
        match self {
            SubstrateError::BufferUnderflow { expected, found } => {
                let mut message = "Wire protocol chunk mismatch: expected ".to_owned();
                text::append_decimal(&mut message, *expected as u64);
                message.append(" bytes, found ");
                text::append_decimal(&mut message, *found as u64);
                message
            },
            SubstrateError::InvalidLatticePublicKey => {
                "Failed to instantiate FIPS 204 verifying key geometry from wire slice".to_owned()
            },
            SubstrateError::InvalidLatticeSignature => {
                "Failed to parse standard module-lattice signature layout".to_owned()
            },
            SubstrateError::CryptographicAttestationFailed => {
                "Lattice verification equation failed to resolve structurally".to_owned()
            },
            SubstrateError::ProofExpired { valid_until, now } => {
                let mut message = "Proof expired: valid_until=".to_owned();
                text::append_decimal(&mut message, *valid_until);
                message.append(", now=");
                text::append_decimal(&mut message, *now);
                message
            },
            SubstrateError::IoError(err) => {
                let cause = err.to_string();
                let mut message = "Substrate hardware storage I/O fault: ".to_owned();
                message.append(cause.as_str());
                message
            },
        }
    }
}

/// What each error says: a number in a message is the one that the error carries,
/// in the order in which the text names them.
pub proof fn law_messages_say_what_went_wrong(
    expected: usize,
    found: usize,
    valid_until: u64,
    now: u64,
    message: Seq<char>,
)
    ensures
        (SubstrateError::BufferUnderflow { expected, found }).says(message) <==> message
            == "Wire protocol chunk mismatch: expected "@ + text::decimal(expected as nat)
            + " bytes, found "@ + text::decimal(found as nat),
        SubstrateError::InvalidLatticePublicKey.says(message) <==> message
            == "Failed to instantiate FIPS 204 verifying key geometry from wire slice"@,
        SubstrateError::InvalidLatticeSignature.says(message) <==> message
            == "Failed to parse standard module-lattice signature layout"@,
        SubstrateError::CryptographicAttestationFailed.says(message) <==> message
            == "Lattice verification equation failed to resolve structurally"@,
        (SubstrateError::ProofExpired { valid_until, now }).says(message) <==> message
            == "Proof expired: valid_until="@ + text::decimal(valid_until as nat) + ", now="@
            + text::decimal(now as nat),
{
}

/// An input or output error is kept as it is, and named as the cause.
pub proof fn law_io_errors_are_named_as_the_cause(err: std::io::Error, message: Seq<char>)
    ensures
        <SubstrateError as vstd::std_specs::convert::FromSpec<std::io::Error>>::from_spec(err)
            == SubstrateError::IoError(err),
        SubstrateError::IoError(err).says(message) <==> exists|cause: String|
            vstd::string::to_string_from_display_ensures(&err, cause) && message
                == "Substrate hardware storage I/O fault: "@ + #[trigger] cause@,
{
}

} // verus!
