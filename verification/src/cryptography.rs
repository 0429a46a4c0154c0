//! Chunked authenticated encryption and decryption of byte streams.
//!
//! A plaintext is cut into chunks of `CHUNK_SIZE` bytes; every chunk is
//! encrypted and authenticated on its own with XChaCha20-Poly1305, under a
//! per-chunk nonce derived from the caller's 19-byte base nonce, a 32-bit
//! big-endian chunk counter, and a one-byte flag that marks the final chunk.
//! The final chunk holds whatever remains, which may be empty, so every
//! ciphertext stream ends in exactly one final chunk and authenticates its
//! own termination point.

use vstd::prelude::*;
use vstd::slice::slice_subrange;

use chacha20poly1305::KeyInit;
use chacha20poly1305::XChaCha20Poly1305;
use chacha20poly1305::aead::stream::NewStream;
use chacha20poly1305::aead::stream::StreamBE32;
use chacha20poly1305::aead::stream::StreamPrimitive;
use rand::RngCore;

verus! {

/// Bytes of plaintext in every chunk but the last; the last holds fewer.
pub const CHUNK_SIZE: usize = 500;

/// Bytes the authentication tag adds to each chunk.
pub const TAG_SIZE: usize = 16;

/// Bytes of a full chunk of ciphertext: a full chunk of plaintext plus its tag.
pub const CIPHER_CHUNK_SIZE: usize = 516;

/// Why encryption would fail. The cipher itself is the only failure source
/// here — opening and writing files is the caller's business — and the
/// contracts prove it cannot fail on chunk-sized inputs, so the library's own
/// operations never return this; the `Result` shape stays for callers that
/// treat cipher failure as a case of its own.
#[derive(Clone, Copy, Debug, PartialEq, Eq)]
pub enum EncryptError {
    /// The underlying cipher refused the chunk; not retryable.
    CipherError,
}

/// Why decryption failed. The only failure source here is a chunk whose
/// authentication tag does not match: a wrong key, a wrong nonce, tampered
/// bytes, a reordered chunk, or a truncated stream.
#[derive(Clone, Copy, Debug, PartialEq, Eq)]
pub enum DecryptError {
    /// Some chunk of the stream did not authenticate. No plaintext derived
    /// from that chunk is ever released.
    AuthenticationFailed,
}

/// What the cipher makes of one chunk: a function of the key, the base nonce,
/// the chunk counter, the final-chunk flag and the chunk's plaintext, and of
/// nothing else. Its value is the cipher's business; the library only carries
/// it around. `chunk_cipher` is the form the contracts use.
pub uninterp spec fn sealed_chunk(
    key: Seq<u8>,
    nonce: Seq<u8>,
    counter: int,
    last: bool,
    plain: Seq<u8>,
) -> Seq<u8>;

/// One chunk of ciphertext: the sealed bytes, which are always exactly
/// `TAG_SIZE` longer than the chunk's plaintext.
pub open spec fn chunk_cipher(
    key: Seq<u8>,
    nonce: Seq<u8>,
    counter: int,
    last: bool,
    plain: Seq<u8>,
) -> Seq<u8> {
    Seq::new(
        (plain.len() + TAG_SIZE) as nat,
        |i: int| sealed_chunk(key, nonce, counter, last, plain)[i],
    )
}

/// The whole ciphertext stream of `plain`, with chunk counters starting at
/// `counter`: full chunks as long as at least `CHUNK_SIZE` bytes remain, then
/// one final chunk holding the remainder, which may be empty.
pub open spec fn stream_cipher_from(
    key: Seq<u8>,
    nonce: Seq<u8>,
    counter: int,
    plain: Seq<u8>,
) -> Seq<u8>
    decreases plain.len(),
{
    if plain.len() < CHUNK_SIZE {
        chunk_cipher(key, nonce, counter, true, plain)
    } else {
        chunk_cipher(key, nonce, counter, false, plain.take(CHUNK_SIZE as int))
            + stream_cipher_from(key, nonce, counter + 1, plain.skip(CHUNK_SIZE as int))
    }
}

/// The ciphertext stream that encrypting `plain` under `key` and `nonce`
/// produces, counters starting at zero.
pub open spec fn stream_cipher(key: Seq<u8>, nonce: Seq<u8>, plain: Seq<u8>) -> Seq<u8> {
    stream_cipher_from(key, nonce, 0, plain)
}

/// No plaintext at all seals to `chunk` at counter `counter` with flag
/// `last`: the chunk fails authentication there.
pub open spec fn no_chunk_preimage(
    key: Seq<u8>,
    nonce: Seq<u8>,
    counter: int,
    last: bool,
    chunk: Seq<u8>,
) -> bool {
    forall|w: Seq<u8>| chunk != chunk_cipher(key, nonce, counter, last, w)
}

/// Relies on `rand::rngs::OsRng`, the operating system's secure random
/// source, to fill the 32-byte key. Nothing is promised of the value drawn.
#[verifier::external_body]
pub fn generate_key() -> [u8; 32] {
    let mut key = [0u8; 32];
    rand::rngs::OsRng.fill_bytes(&mut key);
    key
}

/// Relies on `rand::rngs::OsRng`, the operating system's secure random
/// source, to fill the 19-byte nonce. Nothing is promised of the value drawn.
#[verifier::external_body]
pub fn generate_nonce() -> [u8; 19] {
    let mut nonce = [0u8; 19];
    rand::rngs::OsRng.fill_bytes(&mut nonce);
    nonce
}

/// Relies on `aead::stream::StreamBE32` over `chacha20poly1305::XChaCha20Poly1305`:
/// `StreamPrimitive::encrypt` derives the chunk's nonce from the base nonce,
/// the big-endian 32-bit position and the last-block flag, and returns the
/// encrypted chunk with its 16-byte tag appended. The result depends on the
/// arguments alone, and the call succeeds on every chunk this small: its only
/// error paths are a size ceiling near 2^38 bytes and the infallible growth
/// of the `Vec` it writes into.
#[verifier::external_body]
fn seal_chunk(
    key: &[u8; 32],
    nonce: &[u8; 19],
    counter: u32,
    last: bool,
    plain: &[u8],
) -> (r: Result<Vec<u8>, EncryptError>)
    requires
        plain@.len() <= CHUNK_SIZE,
    ensures
        match r {
            Ok(c) => c@ == sealed_chunk(key@, nonce@, counter as int, last, plain@)
                && c@ == chunk_cipher(key@, nonce@, counter as int, last, plain@),
            Err(_) => false,
        },
{
    let aead = XChaCha20Poly1305::new(key.into());
    let stream = StreamBE32::from_aead(aead, nonce.into());
    stream.encrypt(counter, last, plain).map_err(|_e| EncryptError::CipherError)
}

/// Relies on `aead::stream::StreamBE32` over `chacha20poly1305::XChaCha20Poly1305`:
/// `StreamPrimitive::decrypt` at a given position and last-block flag returns
/// the chunk's plaintext exactly when the chunk is what `encrypt` at that same
/// position and flag makes of that plaintext, and an error otherwise: it
/// verifies the tag before releasing anything, and decryption inverts
/// encryption, so the plaintext returned is the only one that seals to the
/// given chunk.
#[verifier::external_body]
fn open_chunk(
    key: &[u8; 32],
    nonce: &[u8; 19],
    counter: u32,
    last: bool,
    cipher: &[u8],
) -> (r: Result<Vec<u8>, DecryptError>)
    requires
        cipher@.len() <= CIPHER_CHUNK_SIZE,
    ensures
        match r {
            Ok(p) => cipher@ == chunk_cipher(key@, nonce@, counter as int, last, p@)
                && forall|q: Seq<u8>|
                    cipher@ == chunk_cipher(key@, nonce@, counter as int, last, q) ==> q == p@,
            Err(e) => e == DecryptError::AuthenticationFailed
                && forall|q: Seq<u8>|
                    cipher@ != chunk_cipher(key@, nonce@, counter as int, last, q),
        },
{
    let aead = XChaCha20Poly1305::new(key.into());
    let stream = StreamBE32::from_aead(aead, nonce.into());
    stream.decrypt(counter, last, cipher).map_err(|_e| DecryptError::AuthenticationFailed)
}

/// Streaming encryption state. Fresh from `new`, it consumes full chunks
/// through `encrypt_next` and exactly one final chunk, possibly empty, through
/// `encrypt_last`, which closes it; each call hands back the chunk's
/// ciphertext, and the pieces concatenate to the one ciphertext stream of the
/// plaintext fed in. Only one chunk is held at a time, so memory stays bounded
/// however long the stream grows.
pub struct StreamEncryptor {
    key: [u8; 32],
    nonce: [u8; 19],
    counter: u32,
    done: bool,
    plain_ghost: Ghost<Seq<u8>>,
    cipher_ghost: Ghost<Seq<u8>>,
}

impl StreamEncryptor {
    /// The key this encryptor was created with.
    pub closed spec fn key_spec(self) -> Seq<u8> {
        self.key@
    }

    /// The base nonce this encryptor was created with.
    pub closed spec fn nonce_spec(self) -> Seq<u8> {
        self.nonce@
    }

    /// The plaintext consumed so far.
    pub closed spec fn plain_so_far(self) -> Seq<u8> {
        self.plain_ghost@
    }

    /// The ciphertext handed out so far.
    pub closed spec fn cipher_so_far(self) -> Seq<u8> {
        self.cipher_ghost@
    }

    /// Whether the final chunk has been sealed.
    pub closed spec fn is_done(self) -> bool {
        self.done
    }

    /// The state is consistent: while the stream is open, the ciphertext
    /// handed out so far, followed by the stream of any remaining plaintext at
    /// the current counter, is the stream of the whole plaintext; once closed,
    /// the ciphertext handed out is the stream of the plaintext consumed.
    pub closed spec fn wf(self) -> bool {
        if !self.done {
            &&& self.plain_ghost@.len() == (self.counter as int) * (CHUNK_SIZE as int)
            &&& forall|rest: Seq<u8>|
                self.cipher_ghost@ + stream_cipher_from(
                    self.key@,
                    self.nonce@,
                    self.counter as int,
                    rest,
                ) == stream_cipher(self.key@, self.nonce@, self.plain_ghost@ + rest)
        } else {
            self.cipher_ghost@ == stream_cipher(self.key@, self.nonce@, self.plain_ghost@)
        }
    }

    /// A fresh stream: nothing consumed, nothing handed out.
    pub fn new(key: &[u8; 32], nonce: &[u8; 19]) -> (r: StreamEncryptor)
        ensures
            r.wf(),
            !r.is_done(),
            r.key_spec() == key@,
            r.nonce_spec() == nonce@,
            r.plain_so_far() == Seq::<u8>::empty(),
            r.cipher_so_far() == Seq::<u8>::empty(),
    {
        let r = StreamEncryptor {
            key: *key,
            nonce: *nonce,
            counter: 0,
            done: false,
            plain_ghost: Ghost(Seq::empty()),
            cipher_ghost: Ghost(Seq::empty()),
        };
        proof {
            assert forall|rest: Seq<u8>|
                r.cipher_ghost@ + stream_cipher_from(r.key@, r.nonce@, 0, rest) == stream_cipher(
                    r.key@,
                    r.nonce@,
                    r.plain_ghost@ + rest,
                ) by {
                let s = stream_cipher_from(r.key@, r.nonce@, 0, rest);
                assert(r.cipher_ghost@ + s =~= s);
                assert(r.plain_ghost@ + rest =~= rest);
            }
        }
        r
    }

    /// Seal the next full chunk as a non-final one: the stream stays open and
    /// the chunk's ciphertext comes back. The call always succeeds — the
    /// cipher cannot fail on a chunk — and the length bound on what was
    /// consumed keeps the 32-bit chunk counter from wrapping.
    pub fn encrypt_next(&mut self, chunk: &[u8]) -> (r: Result<Vec<u8>, EncryptError>)
        requires
            old(self).wf(),
            !old(self).is_done(),
            chunk@.len() == CHUNK_SIZE,
            old(self).plain_so_far().len() + CHUNK_SIZE < (CHUNK_SIZE as int) * 0x1_0000_0000,
        ensures
            final(self).key_spec() == old(self).key_spec(),
            final(self).nonce_spec() == old(self).nonce_spec(),
            match r {
                Ok(c) => final(self).wf() && !final(self).is_done() && final(self).plain_so_far()
                    == old(self).plain_so_far() + chunk@ && final(self).cipher_so_far() == old(
                    self,
                ).cipher_so_far() + c@,
                Err(_) => false,
            },
    {
        match seal_chunk(&self.key, &self.nonce, self.counter, false, chunk) {
            Ok(c) => {
                proof {
                    let key = self.key@;
                    let nonce = self.nonce@;
                    let ctr = self.counter as int;
                    let plain0 = self.plain_ghost@;
                    let cipher0 = self.cipher_ghost@;
                    assert forall|rest: Seq<u8>|
                        (cipher0 + c@) + stream_cipher_from(key, nonce, ctr + 1, rest)
                            == stream_cipher(key, nonce, (plain0 + chunk@) + rest) by {
                        let ext = chunk@ + rest;
                        assert(ext.take(CHUNK_SIZE as int) =~= chunk@);
                        assert(ext.skip(CHUNK_SIZE as int) =~= rest);
                        assert(stream_cipher_from(key, nonce, ctr, ext) == chunk_cipher(
                            key,
                            nonce,
                            ctr,
                            false,
                            chunk@,
                        ) + stream_cipher_from(key, nonce, ctr + 1, rest));
                        assert(cipher0 + stream_cipher_from(key, nonce, ctr, ext) =~= (cipher0
                            + c@) + stream_cipher_from(key, nonce, ctr + 1, rest));
                        assert(plain0 + ext =~= (plain0 + chunk@) + rest);
                    }
                }
                self.counter = self.counter + 1;
                self.plain_ghost = Ghost(self.plain_ghost@ + chunk@);
                self.cipher_ghost = Ghost(self.cipher_ghost@ + c@);
                Ok(c)
            },
            Err(e) => Err(e),
        }
    }

    /// Seal the final chunk, which may be empty, and close the stream. The
    /// call always succeeds, and the ciphertext handed out over the whole
    /// session is exactly the ciphertext stream of the plaintext consumed.
    pub fn encrypt_last(&mut self, chunk: &[u8]) -> (r: Result<Vec<u8>, EncryptError>)
        requires
            old(self).wf(),
            !old(self).is_done(),
            chunk@.len() < CHUNK_SIZE,
        ensures
            final(self).key_spec() == old(self).key_spec(),
            final(self).nonce_spec() == old(self).nonce_spec(),
            match r {
                Ok(c) => final(self).wf() && final(self).is_done() && final(self).plain_so_far()
                    == old(self).plain_so_far() + chunk@ && final(self).cipher_so_far() == old(
                    self,
                ).cipher_so_far() + c@ && final(self).cipher_so_far() == stream_cipher(
                    old(self).key_spec(),
                    old(self).nonce_spec(),
                    final(self).plain_so_far(),
                ),
                Err(_) => false,
            },
    {
        match seal_chunk(&self.key, &self.nonce, self.counter, true, chunk) {
            Ok(c) => {
                proof {
                    let key = self.key@;
                    let nonce = self.nonce@;
                    let ctr = self.counter as int;
                    assert(stream_cipher_from(key, nonce, ctr, chunk@) == chunk_cipher(
                        key,
                        nonce,
                        ctr,
                        true,
                        chunk@,
                    ));
                }
                self.done = true;
                self.plain_ghost = Ghost(self.plain_ghost@ + chunk@);
                self.cipher_ghost = Ghost(self.cipher_ghost@ + c@);
                Ok(c)
            },
            Err(e) => Err(e),
        }
    }
}

/// Streaming decryption state, the mirror of `StreamEncryptor`. Fresh from
/// `new`, it consumes full ciphertext chunks through `decrypt_next` and
/// exactly one final short chunk through `decrypt_last`, which closes it;
/// each call verifies the chunk's tag before handing its plaintext back, and
/// once closed, the ciphertext consumed over the whole session is exactly the
/// encryption of the plaintext handed out. What it says of success is the
/// completeness half of `decrypt`'s contract; `decrypt` states in addition
/// that no other plaintext explains the same stream. Only one chunk is held
/// at a time, so memory stays bounded.
pub struct StreamDecryptor {
    key: [u8; 32],
    nonce: [u8; 19],
    counter: u32,
    done: bool,
    plain_ghost: Ghost<Seq<u8>>,
    cipher_ghost: Ghost<Seq<u8>>,
}

impl StreamDecryptor {
    /// The key this decryptor was created with.
    pub closed spec fn key_spec(self) -> Seq<u8> {
        self.key@
    }

    /// The base nonce this decryptor was created with.
    pub closed spec fn nonce_spec(self) -> Seq<u8> {
        self.nonce@
    }

    /// The plaintext handed out so far.
    pub closed spec fn plain_so_far(self) -> Seq<u8> {
        self.plain_ghost@
    }

    /// The ciphertext consumed so far.
    pub closed spec fn cipher_so_far(self) -> Seq<u8> {
        self.cipher_ghost@
    }

    /// Whether the final chunk has been opened.
    pub closed spec fn is_done(self) -> bool {
        self.done
    }

    /// The state is consistent: while the stream is open, the ciphertext
    /// consumed so far, followed by the stream of any remaining plaintext at
    /// the current counter, is the stream of the plaintext handed out so far
    /// followed by that remainder; once closed, the ciphertext consumed is
    /// exactly the stream of the plaintext handed out.
    pub closed spec fn wf(self) -> bool {
        if !self.done {
            &&& self.cipher_ghost@.len() == (self.counter as int) * (CIPHER_CHUNK_SIZE as int)
            &&& forall|rest: Seq<u8>|
                self.cipher_ghost@ + stream_cipher_from(
                    self.key@,
                    self.nonce@,
                    self.counter as int,
                    rest,
                ) == stream_cipher(self.key@, self.nonce@, self.plain_ghost@ + rest)
        } else {
            self.cipher_ghost@ == stream_cipher(self.key@, self.nonce@, self.plain_ghost@)
        }
    }

    /// A fresh stream: nothing consumed, nothing handed out.
    pub fn new(key: &[u8; 32], nonce: &[u8; 19]) -> (r: StreamDecryptor)
        ensures
            r.wf(),
            !r.is_done(),
            r.key_spec() == key@,
            r.nonce_spec() == nonce@,
            r.plain_so_far() == Seq::<u8>::empty(),
            r.cipher_so_far() == Seq::<u8>::empty(),
    {
        let r = StreamDecryptor {
            key: *key,
            nonce: *nonce,
            counter: 0,
            done: false,
            plain_ghost: Ghost(Seq::empty()),
            cipher_ghost: Ghost(Seq::empty()),
        };
        proof {
            assert forall|rest: Seq<u8>|
                r.cipher_ghost@ + stream_cipher_from(r.key@, r.nonce@, 0, rest) == stream_cipher(
                    r.key@,
                    r.nonce@,
                    r.plain_ghost@ + rest,
                ) by {
                let s = stream_cipher_from(r.key@, r.nonce@, 0, rest);
                assert(r.cipher_ghost@ + s =~= s);
                assert(r.plain_ghost@ + rest =~= rest);
            }
        }
        r
    }

    /// Open the next full chunk as a non-final one. On success its verified
    /// plaintext comes back and the stream stays open; on failure nothing has
    /// changed, nothing is released, and the chunk really is no non-final
    /// sealing of any plaintext at this position in the stream. The length
    /// bound on what was consumed keeps the 32-bit chunk counter from
    /// wrapping.
    pub fn decrypt_next(&mut self, chunk: &[u8]) -> (r: Result<Vec<u8>, DecryptError>)
        requires
            old(self).wf(),
            !old(self).is_done(),
            chunk@.len() == CIPHER_CHUNK_SIZE,
            old(self).cipher_so_far().len() + CIPHER_CHUNK_SIZE < (CIPHER_CHUNK_SIZE as int)
                * 0x1_0000_0000,
        ensures
            final(self).key_spec() == old(self).key_spec(),
            final(self).nonce_spec() == old(self).nonce_spec(),
            match r {
                Ok(p) => final(self).wf() && !final(self).is_done() && final(self).cipher_so_far()
                    == old(self).cipher_so_far() + chunk@ && final(self).plain_so_far() == old(
                    self,
                ).plain_so_far() + p@,
                Err(e) => e == DecryptError::AuthenticationFailed && *final(self) == *old(self)
                    && no_chunk_preimage(
                    old(self).key_spec(),
                    old(self).nonce_spec(),
                    old(self).cipher_so_far().len() as int / (CIPHER_CHUNK_SIZE as int),
                    false,
                    chunk@,
                ),
            },
    {
        match open_chunk(&self.key, &self.nonce, self.counter, false, chunk) {
            Ok(p) => {
                proof {
                    let key = self.key@;
                    let nonce = self.nonce@;
                    let ctr = self.counter as int;
                    let plain0 = self.plain_ghost@;
                    let cipher0 = self.cipher_ghost@;
                    assert forall|rest: Seq<u8>|
                        (cipher0 + chunk@) + stream_cipher_from(key, nonce, ctr + 1, rest)
                            == stream_cipher(key, nonce, (plain0 + p@) + rest) by {
                        let ext = p@ + rest;
                        assert(ext.take(CHUNK_SIZE as int) =~= p@);
                        assert(ext.skip(CHUNK_SIZE as int) =~= rest);
                        assert(stream_cipher_from(key, nonce, ctr, ext) == chunk_cipher(
                            key,
                            nonce,
                            ctr,
                            false,
                            p@,
                        ) + stream_cipher_from(key, nonce, ctr + 1, rest));
                        assert(cipher0 + stream_cipher_from(key, nonce, ctr, ext) =~= (cipher0
                            + chunk@) + stream_cipher_from(key, nonce, ctr + 1, rest));
                        assert(plain0 + ext =~= (plain0 + p@) + rest);
                    }
                }
                self.counter = self.counter + 1;
                self.plain_ghost = Ghost(self.plain_ghost@ + p@);
                self.cipher_ghost = Ghost(self.cipher_ghost@ + chunk@);
                Ok(p)
            },
            Err(e) => {
                proof {
                    vstd::arithmetic::div_mod::lemma_div_multiples_vanish(
                        self.counter as int,
                        CIPHER_CHUNK_SIZE as int,
                    );
                }
                Err(e)
            },
        }
    }

    /// Open the final short chunk and close the stream. On success the
    /// ciphertext consumed over the whole session is exactly the encryption
    /// of the plaintext handed out; on failure nothing has changed, nothing
    /// is released, and the chunk really is no final sealing of any plaintext
    /// at this position in the stream.
    pub fn decrypt_last(&mut self, chunk: &[u8]) -> (r: Result<Vec<u8>, DecryptError>)
        requires
            old(self).wf(),
            !old(self).is_done(),
            chunk@.len() < CIPHER_CHUNK_SIZE,
        ensures
            final(self).key_spec() == old(self).key_spec(),
            final(self).nonce_spec() == old(self).nonce_spec(),
            match r {
                Ok(p) => final(self).wf() && final(self).is_done() && final(self).cipher_so_far()
                    == old(self).cipher_so_far() + chunk@ && final(self).plain_so_far() == old(
                    self,
                ).plain_so_far() + p@ && final(self).cipher_so_far() == stream_cipher(
                    old(self).key_spec(),
                    old(self).nonce_spec(),
                    final(self).plain_so_far(),
                ),
                Err(e) => e == DecryptError::AuthenticationFailed && *final(self) == *old(self)
                    && no_chunk_preimage(
                    old(self).key_spec(),
                    old(self).nonce_spec(),
                    old(self).cipher_so_far().len() as int / (CIPHER_CHUNK_SIZE as int),
                    true,
                    chunk@,
                ),
            },
    {
        match open_chunk(&self.key, &self.nonce, self.counter, true, chunk) {
            Ok(p) => {
                proof {
                    let key = self.key@;
                    let nonce = self.nonce@;
                    let ctr = self.counter as int;
                    assert(stream_cipher_from(key, nonce, ctr, p@) == chunk_cipher(
                        key,
                        nonce,
                        ctr,
                        true,
                        p@,
                    ));
                }
                self.done = true;
                self.plain_ghost = Ghost(self.plain_ghost@ + p@);
                self.cipher_ghost = Ghost(self.cipher_ghost@ + chunk@);
                Ok(p)
            },
            Err(e) => {
                proof {
                    vstd::arithmetic::div_mod::lemma_div_multiples_vanish(
                        self.counter as int,
                        CIPHER_CHUNK_SIZE as int,
                    );
                }
                Err(e)
            },
        }
    }
}

/// How long the ciphertext stream of an `n`-byte plaintext is: one full
/// ciphertext chunk for every full chunk of plaintext, then the remainder
/// with its tag.
pub open spec fn stream_cipher_len(n: nat) -> nat
    decreases n,
{
    if n < CHUNK_SIZE {
        (n + TAG_SIZE) as nat
    } else {
        (CIPHER_CHUNK_SIZE + stream_cipher_len((n - CHUNK_SIZE) as nat)) as nat
    }
}

/// The length of a ciphertext stream depends on the plaintext's length alone,
/// as `stream_cipher_len` gives it.
pub proof fn lemma_stream_cipher_len(key: Seq<u8>, nonce: Seq<u8>, counter: int, plain: Seq<u8>)
    ensures
        stream_cipher_from(key, nonce, counter, plain).len() == stream_cipher_len(plain.len()),
    decreases plain.len(),
{
    if plain.len() >= CHUNK_SIZE {
        lemma_stream_cipher_len(key, nonce, counter + 1, plain.skip(CHUNK_SIZE as int));
    }
}

/// A stream is always at least `TAG_SIZE` longer than its plaintext.
proof fn lemma_stream_cipher_len_min(n: nat)
    ensures
        stream_cipher_len(n) >= n + TAG_SIZE,
    decreases n,
{
    if n >= CHUNK_SIZE {
        lemma_stream_cipher_len_min((n - CHUNK_SIZE) as nat);
    }
}

/// A stream with its final tag cut off is shorter than every genuine stream
/// whose final chunk would explain it, provided the cut stream's final chunk
/// carried fewer plaintext bytes than the tag is long: no genuine stream has
/// the truncated length.
proof fn lemma_truncated_len_distinct(np: nat, nq: nat)
    requires
        np % (CHUNK_SIZE as nat) < TAG_SIZE,
    ensures
        stream_cipher_len(np) - (TAG_SIZE as int) != stream_cipher_len(nq),
    decreases np, nq,
{
    if np < CHUNK_SIZE {
        if nq >= CHUNK_SIZE {
            lemma_stream_cipher_len_min((nq - CHUNK_SIZE) as nat);
        }
    } else {
        lemma_stream_cipher_len_min((np - CHUNK_SIZE) as nat);
        if nq >= CHUNK_SIZE {
            vstd::arithmetic::div_mod::lemma_mod_sub_multiples_vanish(
                np as int,
                CHUNK_SIZE as int,
            );
            lemma_truncated_len_distinct((np - CHUNK_SIZE) as nat, (nq - CHUNK_SIZE) as nat);
        }
    }
}

/// Every ciphertext stream is at least `TAG_SIZE` bytes long: even an empty
/// plaintext ends in one empty final chunk carrying its tag.
pub proof fn lemma_stream_cipher_min_len(key: Seq<u8>, nonce: Seq<u8>, counter: int, plain: Seq<u8>)
    ensures
        stream_cipher_from(key, nonce, counter, plain).len() >= plain.len() + TAG_SIZE,
    decreases plain.len(),
{
    if plain.len() >= CHUNK_SIZE {
        lemma_stream_cipher_min_len(key, nonce, counter + 1, plain.skip(CHUNK_SIZE as int));
    }
}

/// A ciphertext stream shorter than a full ciphertext chunk is a single final
/// chunk, and its plaintext is `TAG_SIZE` bytes shorter than it.
proof fn lemma_stream_cipher_small(key: Seq<u8>, nonce: Seq<u8>, counter: int, plain: Seq<u8>)
    requires
        stream_cipher_from(key, nonce, counter, plain).len() < CIPHER_CHUNK_SIZE,
    ensures
        plain.len() < CHUNK_SIZE,
        stream_cipher_from(key, nonce, counter, plain) == chunk_cipher(
            key,
            nonce,
            counter,
            true,
            plain,
        ),
{
    if plain.len() >= CHUNK_SIZE {
        lemma_stream_cipher_min_len(key, nonce, counter + 1, plain.skip(CHUNK_SIZE as int));
    }
}

/// A ciphertext stream of at least one full ciphertext chunk splits into that
/// full chunk, sealed as non-final, and the stream of the remaining plaintext
/// at the next counter.
proof fn lemma_stream_cipher_split(key: Seq<u8>, nonce: Seq<u8>, counter: int, plain: Seq<u8>)
    requires
        stream_cipher_from(key, nonce, counter, plain).len() >= CIPHER_CHUNK_SIZE,
    ensures
        plain.len() >= CHUNK_SIZE,
        stream_cipher_from(key, nonce, counter, plain).take(CIPHER_CHUNK_SIZE as int)
            == chunk_cipher(key, nonce, counter, false, plain.take(CHUNK_SIZE as int)),
        stream_cipher_from(key, nonce, counter, plain).skip(CIPHER_CHUNK_SIZE as int)
            == stream_cipher_from(key, nonce, counter + 1, plain.skip(CHUNK_SIZE as int)),
{
    if plain.len() >= CHUNK_SIZE {
        let head = chunk_cipher(key, nonce, counter, false, plain.take(CHUNK_SIZE as int));
        let tail = stream_cipher_from(key, nonce, counter + 1, plain.skip(CHUNK_SIZE as int));
        assert((head + tail).take(CIPHER_CHUNK_SIZE as int) =~= head);
        assert((head + tail).skip(CIPHER_CHUNK_SIZE as int) =~= tail);
    }
}

/// Encrypt `plain` under `key` and `nonce` into one ciphertext stream.
///
/// Encryption always succeeds: the cipher cannot fail on chunk-sized inputs.
/// The plaintext may be empty; the stream then consists of one empty final
/// chunk of `TAG_SIZE` bytes. The length bound keeps the 32-bit chunk counter
/// from wrapping; exceeding it is a caller error, not a recoverable failure.
pub fn encrypt(plain: &[u8], key: &[u8; 32], nonce: &[u8; 19]) -> (r: Result<
    Vec<u8>,
    EncryptError,
>)
    requires
        plain@.len() < (CHUNK_SIZE as int) * 0x1_0000_0000,
    ensures
        r matches Ok(c) && c@ == stream_cipher(key@, nonce@, plain@),
{
    let mut enc = StreamEncryptor::new(key, nonce);
    let mut out: Vec<u8> = Vec::new();
    let mut off: usize = 0;
    proof {
        assert(plain@.take(0) =~= Seq::<u8>::empty());
    }
    while plain.len() - off >= CHUNK_SIZE
        invariant
            off <= plain@.len(),
            plain@.len() < (CHUNK_SIZE as int) * 0x1_0000_0000,
            enc.wf(),
            !enc.is_done(),
            enc.key_spec() == key@,
            enc.nonce_spec() == nonce@,
            enc.plain_so_far() == plain@.take(off as int),
            enc.cipher_so_far() == out@,
        decreases plain@.len() - off,
    {
        let chunk = slice_subrange(plain, off, off + CHUNK_SIZE);
        let mut c = match enc.encrypt_next(chunk) {
            Ok(c) => c,
            Err(e) => {
                return Err(e);
            },
        };
        proof {
            assert(plain@.take(off as int) + chunk@ =~= plain@.take(
                off as int + CHUNK_SIZE as int,
            ));
        }
        out.append(&mut c);
        off = off + CHUNK_SIZE;
    }
    let chunk = slice_subrange(plain, off, plain.len());
    let mut c = match enc.encrypt_last(chunk) {
        Ok(c) => c,
        Err(e) => {
            return Err(e);
        },
    };
    proof {
        assert(plain@.take(off as int) + chunk@ =~= plain@);
    }
    out.append(&mut c);
    Ok(out)
}

/// While decryption is underway — `out` handed out, `off` bytes and `ctr`
/// chunks of `cipher` consumed — the rest of `cipher`, read as a stream at
/// counter `ctr` of any remaining plaintext, completes `out` to a plaintext
/// whose stream is the whole of `cipher`.
spec fn decrypt_forward_inv(
    key: Seq<u8>,
    nonce: Seq<u8>,
    cipher: Seq<u8>,
    ctr: int,
    off: int,
    out: Seq<u8>,
) -> bool {
    forall|rp: Seq<u8>|
        stream_cipher_from(key, nonce, ctr, rp) == cipher.skip(off) ==> stream_cipher(
            key,
            nonce,
            out + rp,
        ) == cipher
}

/// While decryption is underway, any plaintext whose stream is the whole of
/// `cipher` begins with exactly the `out` handed out so far, and its
/// remainder's stream at counter `ctr` is the rest of `cipher`.
spec fn decrypt_backward_inv(
    key: Seq<u8>,
    nonce: Seq<u8>,
    cipher: Seq<u8>,
    ctr: int,
    off: int,
    out: Seq<u8>,
) -> bool {
    forall|q: Seq<u8>|
        stream_cipher(key, nonce, q) == cipher ==> q.len() >= out.len() && q.take(out.len() as int)
            == out && stream_cipher_from(key, nonce, ctr, q.skip(out.len() as int)) == cipher.skip(
            off,
        )
}

/// Both invariants hold before anything was consumed.
proof fn lemma_decrypt_init(key: Seq<u8>, nonce: Seq<u8>, cipher: Seq<u8>)
    ensures
        decrypt_forward_inv(key, nonce, cipher, 0, 0, Seq::<u8>::empty()),
        decrypt_backward_inv(key, nonce, cipher, 0, 0, Seq::<u8>::empty()),
{
    let out = Seq::<u8>::empty();
    assert(cipher.skip(0) =~= cipher);
    assert forall|rp: Seq<u8>|
        stream_cipher_from(key, nonce, 0, rp) == cipher.skip(0) implies stream_cipher(
        key,
        nonce,
        out + rp,
    ) == cipher by {
        assert(out + rp =~= rp);
    }
    assert forall|q: Seq<u8>| stream_cipher(key, nonce, q) == cipher implies q.len() >= out.len()
        && q.take(out.len() as int) == out && stream_cipher_from(
        key,
        nonce,
        0,
        q.skip(out.len() as int),
    ) == cipher.skip(0) by {
        assert(q.take(0) =~= out);
        assert(q.skip(0) =~= q);
    }
}

/// Opening one full chunk as non-final carries both invariants one chunk
/// forward; the chunk's plaintext is a full chunk long.
proof fn lemma_decrypt_step(
    key: Seq<u8>,
    nonce: Seq<u8>,
    cipher: Seq<u8>,
    ctr: int,
    off: int,
    out: Seq<u8>,
    chunk: Seq<u8>,
    p: Seq<u8>,
)
    requires
        0 <= off,
        off + CIPHER_CHUNK_SIZE <= cipher.len(),
        chunk == cipher.skip(off).take(CIPHER_CHUNK_SIZE as int),
        chunk == chunk_cipher(key, nonce, ctr, false, p),
        forall|w: Seq<u8>| chunk == chunk_cipher(key, nonce, ctr, false, w) ==> w == p,
        decrypt_forward_inv(key, nonce, cipher, ctr, off, out),
        decrypt_backward_inv(key, nonce, cipher, ctr, off, out),
    ensures
        p.len() == CHUNK_SIZE,
        decrypt_forward_inv(
            key,
            nonce,
            cipher,
            ctr + 1,
            off + CIPHER_CHUNK_SIZE,
            out + p,
        ),
        decrypt_backward_inv(
            key,
            nonce,
            cipher,
            ctr + 1,
            off + CIPHER_CHUNK_SIZE,
            out + p,
        ),
{
    let out2 = out + p;
    let off2 = off + CIPHER_CHUNK_SIZE;
    vstd::seq_lib::lemma_seq_skip_of_skip(cipher, off, CIPHER_CHUNK_SIZE as int);
    assert(chunk + cipher.skip(off2) =~= cipher.skip(off));
    assert forall|rp: Seq<u8>|
        stream_cipher_from(key, nonce, ctr + 1, rp) == cipher.skip(off2) implies stream_cipher(
        key,
        nonce,
        out2 + rp,
    ) == cipher by {
        let pr = p + rp;
        assert(pr.take(CHUNK_SIZE as int) =~= p);
        assert(pr.skip(CHUNK_SIZE as int) =~= rp);
        assert(stream_cipher_from(key, nonce, ctr, pr) == chunk_cipher(key, nonce, ctr, false, p)
            + stream_cipher_from(key, nonce, ctr + 1, rp));
        assert(stream_cipher_from(key, nonce, ctr, pr) =~= cipher.skip(off));
        assert(stream_cipher(key, nonce, out + pr) == cipher);
        assert(out + pr =~= out2 + rp);
    }
    assert forall|q: Seq<u8>| stream_cipher(key, nonce, q) == cipher implies q.len() >= out2.len()
        && q.take(out2.len() as int) == out2 && stream_cipher_from(
        key,
        nonce,
        ctr + 1,
        q.skip(out2.len() as int),
    ) == cipher.skip(off2) by {
        let qr = q.skip(out.len() as int);
        lemma_stream_cipher_split(key, nonce, ctr, qr);
        assert(chunk == chunk_cipher(key, nonce, ctr, false, qr.take(CHUNK_SIZE as int)));
        assert(qr.take(CHUNK_SIZE as int) == p);
        assert(q.take(out2.len() as int) =~= out + p);
        assert(q.skip(out2.len() as int) =~= qr.skip(CHUNK_SIZE as int));
    }
}

/// A full chunk that does not open as non-final refutes every plaintext:
/// nothing encrypts to this stream.
proof fn lemma_decrypt_step_fail(
    key: Seq<u8>,
    nonce: Seq<u8>,
    cipher: Seq<u8>,
    ctr: int,
    off: int,
    out: Seq<u8>,
    chunk: Seq<u8>,
)
    requires
        0 <= off,
        off + CIPHER_CHUNK_SIZE <= cipher.len(),
        chunk == cipher.skip(off).take(CIPHER_CHUNK_SIZE as int),
        forall|w: Seq<u8>| chunk != chunk_cipher(key, nonce, ctr, false, w),
        decrypt_backward_inv(key, nonce, cipher, ctr, off, out),
    ensures
        forall|q: Seq<u8>| stream_cipher(key, nonce, q) != cipher,
{
    assert forall|q: Seq<u8>| stream_cipher(key, nonce, q) != cipher by {
        if stream_cipher(key, nonce, q) == cipher {
            let qr = q.skip(out.len() as int);
            lemma_stream_cipher_split(key, nonce, ctr, qr);
            assert(chunk == chunk_cipher(key, nonce, ctr, false, qr.take(CHUNK_SIZE as int)));
        }
    }
}

/// A stream that ends exactly at a chunk boundary has no final chunk, so
/// nothing encrypts to it: every genuine stream ends in one.
proof fn lemma_decrypt_no_final(
    key: Seq<u8>,
    nonce: Seq<u8>,
    cipher: Seq<u8>,
    ctr: int,
    off: int,
    out: Seq<u8>,
)
    requires
        off == cipher.len(),
        decrypt_backward_inv(key, nonce, cipher, ctr, off, out),
    ensures
        forall|q: Seq<u8>| stream_cipher(key, nonce, q) != cipher,
{
    assert forall|q: Seq<u8>| stream_cipher(key, nonce, q) != cipher by {
        if stream_cipher(key, nonce, q) == cipher {
            let qr = q.skip(out.len() as int);
            lemma_stream_cipher_min_len(key, nonce, ctr, qr);
            assert(cipher.skip(off).len() == 0);
        }
    }
}

/// Opening the final short chunk completes both directions: what was handed
/// out plus this chunk's plaintext is the one plaintext whose stream is the
/// whole of `cipher`.
proof fn lemma_decrypt_last_ok(
    key: Seq<u8>,
    nonce: Seq<u8>,
    cipher: Seq<u8>,
    ctr: int,
    off: int,
    out: Seq<u8>,
    chunk: Seq<u8>,
    p: Seq<u8>,
)
    requires
        0 <= off < cipher.len(),
        cipher.len() - off < CIPHER_CHUNK_SIZE,
        chunk == cipher.skip(off),
        chunk == chunk_cipher(key, nonce, ctr, true, p),
        forall|w: Seq<u8>| chunk == chunk_cipher(key, nonce, ctr, true, w) ==> w == p,
        decrypt_forward_inv(key, nonce, cipher, ctr, off, out),
        decrypt_backward_inv(key, nonce, cipher, ctr, off, out),
    ensures
        stream_cipher(key, nonce, out + p) == cipher,
        forall|q: Seq<u8>| stream_cipher(key, nonce, q) == cipher ==> q == out + p,
{
    assert(chunk.len() == cipher.len() - off);
    assert(chunk.len() == p.len() + TAG_SIZE);
    assert(p.len() < CHUNK_SIZE);
    assert(stream_cipher_from(key, nonce, ctr, p) == chunk);
    assert(stream_cipher(key, nonce, out + p) == cipher);
    assert forall|q: Seq<u8>| stream_cipher(key, nonce, q) == cipher implies q == out + p by {
        let qr = q.skip(out.len() as int);
        lemma_stream_cipher_small(key, nonce, ctr, qr);
        assert(chunk == chunk_cipher(key, nonce, ctr, true, qr));
        assert(qr == p);
        assert(q.len() >= out.len());
        assert(q.take(out.len() as int) == out);
        q.lemma_split_at(out.len() as int);
        assert(q == out + p);
    }
}

/// A final short chunk that does not open refutes every plaintext: nothing
/// encrypts to this stream.
proof fn lemma_decrypt_last_fail(
    key: Seq<u8>,
    nonce: Seq<u8>,
    cipher: Seq<u8>,
    ctr: int,
    off: int,
    out: Seq<u8>,
    chunk: Seq<u8>,
)
    requires
        0 <= off < cipher.len(),
        cipher.len() - off < CIPHER_CHUNK_SIZE,
        chunk == cipher.skip(off),
        forall|w: Seq<u8>| chunk != chunk_cipher(key, nonce, ctr, true, w),
        decrypt_backward_inv(key, nonce, cipher, ctr, off, out),
    ensures
        forall|q: Seq<u8>| stream_cipher(key, nonce, q) != cipher,
{
    assert forall|q: Seq<u8>| stream_cipher(key, nonce, q) != cipher by {
        if stream_cipher(key, nonce, q) == cipher {
            let qr = q.skip(out.len() as int);
            lemma_stream_cipher_small(key, nonce, ctr, qr);
            assert(chunk == chunk_cipher(key, nonce, ctr, true, qr));
        }
    }
}

/// Decrypt the ciphertext stream `cipher` under `key` and `nonce`.
///
/// Success means the whole stream authenticated: the result is the one
/// plaintext whose encryption under this key and nonce is exactly `cipher`.
/// Anything else fails closed with `AuthenticationFailed`, and no byte
/// derived from an unauthenticated chunk is ever part of the result. The
/// length bound keeps the 32-bit chunk counter from wrapping.
pub fn decrypt(cipher: &[u8], key: &[u8; 32], nonce: &[u8; 19]) -> (r: Result<
    Vec<u8>,
    DecryptError,
>)
    requires
        cipher@.len() < (CIPHER_CHUNK_SIZE as int) * 0x1_0000_0000,
    ensures
        match r {
            Ok(p) => stream_cipher(key@, nonce@, p@) == cipher@ && forall|q: Seq<u8>|
                stream_cipher(key@, nonce@, q) == cipher@ ==> q == p@,
            Err(e) => e == DecryptError::AuthenticationFailed && forall|q: Seq<u8>|
                stream_cipher(key@, nonce@, q) != cipher@,
        },
{
    let mut out: Vec<u8> = Vec::new();
    let mut off: usize = 0;
    let mut counter: u32 = 0;
    proof {
        lemma_decrypt_init(key@, nonce@, cipher@);
    }
    while cipher.len() - off >= CIPHER_CHUNK_SIZE
        invariant
            off <= cipher@.len(),
            cipher@.len() < (CIPHER_CHUNK_SIZE as int) * 0x1_0000_0000,
            off as int == (counter as int) * (CIPHER_CHUNK_SIZE as int),
            decrypt_forward_inv(key@, nonce@, cipher@, counter as int, off as int, out@),
            decrypt_backward_inv(key@, nonce@, cipher@, counter as int, off as int, out@),
        decreases cipher@.len() - off,
    {
        let chunk = slice_subrange(cipher, off, off + CIPHER_CHUNK_SIZE);
        proof {
            assert(chunk@ =~= cipher@.skip(off as int).take(CIPHER_CHUNK_SIZE as int));
        }
        match open_chunk(key, nonce, counter, false, chunk) {
            Ok(mut p) => {
                proof {
                    lemma_decrypt_step(
                        key@,
                        nonce@,
                        cipher@,
                        counter as int,
                        off as int,
                        out@,
                        chunk@,
                        p@,
                    );
                }
                out.append(&mut p);
                off = off + CIPHER_CHUNK_SIZE;
                counter = counter + 1;
            },
            Err(_) => {
                proof {
                    lemma_decrypt_step_fail(
                        key@,
                        nonce@,
                        cipher@,
                        counter as int,
                        off as int,
                        out@,
                        chunk@,
                    );
                }
                return Err(DecryptError::AuthenticationFailed);
            },
        }
    }
    if off == cipher.len() {
        proof {
            lemma_decrypt_no_final(key@, nonce@, cipher@, counter as int, off as int, out@);
        }
        return Err(DecryptError::AuthenticationFailed);
    }
    let chunk = slice_subrange(cipher, off, cipher.len());
    proof {
        assert(chunk@ =~= cipher@.skip(off as int));
    }
    match open_chunk(key, nonce, counter, true, chunk) {
        Ok(mut p) => {
            proof {
                lemma_decrypt_last_ok(
                    key@,
                    nonce@,
                    cipher@,
                    counter as int,
                    off as int,
                    out@,
                    chunk@,
                    p@,
                );
            }
            out.append(&mut p);
            Ok(out)
        },
        Err(_) => {
            proof {
                lemma_decrypt_last_fail(
                    key@,
                    nonce@,
                    cipher@,
                    counter as int,
                    off as int,
                    out@,
                    chunk@,
                );
            }
            Err(DecryptError::AuthenticationFailed)
        },
    }
}

/// Round trip: `decrypt` inverts `encrypt`. If `c` is the ciphertext stream
/// of `plain`, then any result that meets `decrypt`'s contract on `c` — `r`
/// stands for such a result — is `Ok` and carries exactly `plain`, for every
/// plaintext, the empty one too.
pub proof fn lemma_round_trip(
    key: Seq<u8>,
    nonce: Seq<u8>,
    plain: Seq<u8>,
    c: Seq<u8>,
    r: Result<Seq<u8>, DecryptError>,
)
    requires
        c == stream_cipher(key, nonce, plain),
        match r {
            Ok(p) => stream_cipher(key, nonce, p) == c && forall|q: Seq<u8>|
                stream_cipher(key, nonce, q) == c ==> q == p,
            Err(e) => forall|q: Seq<u8>| stream_cipher(key, nonce, q) != c,
        },
    ensures
        r == Ok::<Seq<u8>, DecryptError>(plain),
{
    match r {
        Ok(p) => {
            assert(plain == p);
        },
        Err(_) => {
            assert(stream_cipher(key, nonce, plain) == c);
        },
    }
}

/// Truncation is detected by construction whenever the stream's final chunk
/// carries fewer plaintext bytes than the tag is long: cutting the final
/// chunk's tag off such a stream leaves a byte string that is not the
/// ciphertext stream of any plaintext, so decryption cannot return a short
/// plaintext for it. For longer final chunks the truncated stream has the
/// length of some genuine stream, and its rejection rests on the cipher's
/// authentication.
pub proof fn lemma_truncation_detected(
    key: Seq<u8>,
    nonce: Seq<u8>,
    plain: Seq<u8>,
    other: Seq<u8>,
)
    requires
        plain.len() % (CHUNK_SIZE as nat) < TAG_SIZE,
    ensures
        stream_cipher(key, nonce, plain).take(
            stream_cipher(key, nonce, plain).len() - (TAG_SIZE as int),
        ) != stream_cipher(key, nonce, other),
{
    lemma_stream_cipher_len(key, nonce, 0, plain);
    lemma_stream_cipher_len(key, nonce, 0, other);
    lemma_stream_cipher_len_min(plain.len());
    lemma_truncated_len_distinct(plain.len(), other.len());
    let s = stream_cipher(key, nonce, plain);
    assert(s.take(s.len() - (TAG_SIZE as int)).len() == s.len() - (TAG_SIZE as int));
}

} // verus!
