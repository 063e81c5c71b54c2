# hiddenwave

Audio steganography with verified contracts. A payload, optionally
encrypted with AES-256-GCM under a PBKDF2-derived key, is hidden in the PCM
bytes of a WAV file: a nine-byte header (stride, file extension, payload
type) every 64 bytes at the start, then the payload followed by the marker
`@<;;` at an even stride over the rest of the samples.

- `src/stego/` — header format, `embed`, `extract`, `max_capacity`, and the
  proofs that `extract` reads back what `embed` wrote (a payload that holds
  `@<;;` itself comes back cut before it) and that `max_capacity` is exactly
  what `embed` accepts for carriers up to `u32::MAX` bytes, except that an
  empty payload never fits a carrier of 577 to 591 bytes.
- `src/wav.rs` — splitting a WAV file at its `data` chunk and building a
  WAV header, with the proofs that writing a parsed file back is lossless.
- `src/crypto.rs` — payload encryption and decryption; the cipher and key
  derivation are called from `aes-gcm` and `pbkdf2`.
- `src/text.rs` — the std text functions the library uses, with their
  behaviour stated.
- `app/` — the command-line tool.
