# azoth

A K-plane deniable container: a fixed-size block of random-looking bytes that holds up to
`K` independent encrypted payloads, each on its own bit-plane and found only with its
password, `K`, KDF cost and cipher. The library is written in Verus and its behaviour is
stated in `requires` / `ensures` contracts that Verus proves.

## Layout

- `src/primitives.rs`: the trusted calls into the RustCrypto crates (SHAKE256, SHA-256,
  HMAC-SHA256, Argon2id, AES-256-CTR, ChaCha20, constant-time compare), `getrandom` and
  `zeroize`, with the names given to their results.
- `src/bits.rs`, `src/plane.rs`: bytes as LSB-first bits, big-endian integers, and the
  plane geometry (plane `p` owns the bits `g` with `g % K == p`).
- `src/walk.rs`: rejection-sampled draws from a SHAKE256 stream; the home plane and the
  distinct-slot walk of a plane.
- `src/derive.rs`: the key and position derivations, the ciphers and the KDF cost.
- `src/primes.rs`: the choice of `K` (odd primes).
- `src/kpdc.rs`: the container: construction checks, read, write, whole-block rebuild,
  and the laws that relate them.
- `src/app.rs`, `src/cli.rs`, `src/gui.rs`: the block-level operations, size parser and
  messages shared by the front-ends, and the decisions of the command line and the
  desktop forms.
- `src/text.rs`: decimal rendering and string quoting for messages.
- `app/`: the command-line program (files, devices, prompts, printing) and the file
  operations of the desktop forms.
- `tests/`: functional, security, known-answer (wire format at the recommended cost) and
  front-end tests.
