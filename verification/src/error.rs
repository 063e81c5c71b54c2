use vstd::prelude::*;
use vstd::string::StringExecFns;

verus! {

/// The I/O error type of std, carried through unchanged.
#[verifier::external_type_specification]
#[verifier::external_body]
pub struct ExIoError(std::io::Error);

/// Every way an operation of this library can fail.
#[derive(Debug)]
pub enum HiddenWaveError {
    /// The carrier is too small: `needed` bytes of PCM (or of PCM after the
    /// header area) would be required, only `available` are there.
    PayloadTooLarge { needed: usize, available: usize },
    /// No valid steganography header could be read from the carrier.
    NoHeaderFound,
    /// The end-of-payload sentinel was not found in the carrier.
    SentinelMissing,
    /// The WAV container could not be understood.
    WavParse(String),
    /// Encryption or decryption failed.
    Crypto(String),
    /// Reading or writing a file failed.
    Io(std::io::Error),
}

impl From<std::io::Error> for HiddenWaveError {
    fn from(e: std::io::Error) -> (r: HiddenWaveError) {
        HiddenWaveError::Io(e)
    }
}

impl vstd::std_specs::convert::FromSpecImpl<std::io::Error> for HiddenWaveError {
    open spec fn obeys_from_spec() -> bool {
        true
    }

    open spec fn from_spec(e: std::io::Error) -> HiddenWaveError {
        HiddenWaveError::Io(e)
    }
}

/// The decimal digit character for `d`.
pub open spec fn digit_char(d: nat) -> char {
    (48 + d) as char
}

/// The decimal representation of `n`, without leading zeros.
pub open spec fn decimal(n: nat) -> Seq<char>
    decreases n,
{
    if n < 10 {
        seq![digit_char(n)]
    } else {
        decimal(n / 10).push(digit_char(n % 10))
    }
}

/// Calls `ToString::to_string` on a `usize`: its decimal representation.
#[verifier::external_body]
fn usize_to_decimal(n: usize) -> (s: String)
    ensures
        s@ == decimal(n as nat),
{
    n.to_string()
}

/// Calls `ToString::to_string` on an `std::io::Error`. Its text may come from
/// the operating system, so nothing is stated of it.
#[verifier::external_body]
fn io_error_text(e: &std::io::Error) -> (s: String) {
    e.to_string()
}

impl HiddenWaveError {
    /// The human-readable description of the error.
    pub fn message(&self) -> (m: String)
        ensures
            match self {
                HiddenWaveError::PayloadTooLarge { needed, available } => m@
                    == "Payload too large: need "@ + decimal(*needed as nat)
                    + " bytes of PCM, have "@ + decimal(*available as nat),
                HiddenWaveError::NoHeaderFound => m@ == "No steg header found in audio"@,
                HiddenWaveError::SentinelMissing => m@
                    == "Sentinel not found — file may be corrupt or not a hiddenwave file"@,
                HiddenWaveError::WavParse(s) => m@ == "WAV parse error: "@ + s@,
                HiddenWaveError::Crypto(s) => m@ == "Cryptography error: "@ + s@,
                HiddenWaveError::Io(_) => exists|t: Seq<char>| m@ == "IO error: "@ + t,
            },
    {
        match self {
            HiddenWaveError::PayloadTooLarge { needed, available } => {
                let mut m = String::from_str("Payload too large: need ");
                m.append(usize_to_decimal(*needed).as_str());
                m.append(" bytes of PCM, have ");
                m.append(usize_to_decimal(*available).as_str());
                m
            },
            HiddenWaveError::NoHeaderFound => String::from_str("No steg header found in audio"),
            HiddenWaveError::SentinelMissing => String::from_str(
                "Sentinel not found — file may be corrupt or not a hiddenwave file",
            ),
            HiddenWaveError::WavParse(s) => {
                let mut m = String::from_str("WAV parse error: ");
                m.append(s.as_str());
                m
            },
            HiddenWaveError::Crypto(s) => {
                let mut m = String::from_str("Cryptography error: ");
                m.append(s.as_str());
                m
            },
            HiddenWaveError::Io(e) => {
                let t = io_error_text(e);
                let mut m = String::from_str("IO error: ");
                m.append(t.as_str());
                m
            },
        }
    }
}

} // verus!
