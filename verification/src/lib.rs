//! Audio steganography: hide (optionally encrypted) payloads inside the PCM
//! samples of a WAV file, and recover them again.

pub mod crypto;
pub mod error;
pub mod payload;
pub mod stego;
pub mod text;
pub mod wav;

pub use error::HiddenWaveError;
pub use payload::ExtractedPayload;
pub use stego::embed::embed;
pub use stego::extract::extract;
pub use wav::WavFile;
