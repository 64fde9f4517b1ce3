//! The encryption envelope around a profile.
//!
//! A profile is framed to bytes, sealed with an authenticated symmetric
//! cipher under the service's 32-byte key and a fresh 96-bit nonce, and
//! shipped as hex text with the nonce prepended. Decryption accepts exactly
//! the envelopes so produced: [`decrypt_user_data`]'s contract states that
//! opening any well-formed envelope returns the profile that was sealed.

use crate::hexcodec::{hex_decode, hex_encode, hex_spells, lemma_encode_injective,
    lemma_encode_spells, lemma_spells_unique, spec_hex_encode};
use crate::profile::{decode_profile, encode_profile, lemma_profile_codec_round_trip,
    lemma_profile_decode_encode, profile_view_bounded, push_bytes, spec_profile_bytes,
    spec_profile_decode, ProfileView, UserData};
use aes_gcm::aead::{Aead, KeyInit};
use aes_gcm::{Aes256Gcm, Nonce};
use rand::Rng;
use vstd::prelude::*;

verus! {

/// Byte length of the symmetric key.
pub const KEY_LEN: usize = 32;

/// Byte length of the per-call nonce.
pub const NONCE_LEN: usize = 12;

/// Failure of the encryption envelope.
#[derive(Clone, Copy, Debug, PartialEq, Eq, Structural)]
pub enum EnvelopeError {
    /// The cipher refused to seal.
    EncryptionError,
    /// The input is not an envelope this service produced: not hex, shorter
    /// than a nonce, failed authentication, or an ill-formed profile frame.
    DecryptionError,
}

impl EnvelopeError {
    /// A short reason text for logs and responses.
    pub fn message(&self) -> (r: String)
        ensures
            r@.len() > 0,
    {
        let r = match self {
            EnvelopeError::EncryptionError => "encryption error",
            EnvelopeError::DecryptionError => "decryption error",
        };
        proof {
            reveal_strlit("encryption error");
            reveal_strlit("decryption error");
        }
        String::from_str(r)
    }
}

/// The longest plaintext the cipher seals (2^36 bytes): past this bound
/// its length guard refuses.
pub const AEAD_PLAINTEXT_MAX: u64 = 68719476736;

/// What the cipher returns when sealing `plaintext` under `key` and
/// `nonce`: a function of those three arguments alone.
pub uninterp spec fn aead_seal(key: Seq<u8>, nonce: Seq<u8>, plaintext: Seq<u8>) -> Seq<u8>;

/// Relies on Aes256Gcm (KeyInit::new_from_slice and Aead::encrypt): with a
/// fixed key and nonce the ciphertext is a function of the plaintext
/// alone; sealing succeeds on every plaintext up to the cipher's length
/// cap, and appends the 16-byte authentication tag.
#[verifier::external_body]
fn aead_encrypt(key: &[u8], nonce: &[u8], plaintext: &[u8]) -> (r: Option<Vec<u8>>)
    requires
        key@.len() == 32,
        nonce@.len() == 12,
    ensures
        plaintext@.len() <= AEAD_PLAINTEXT_MAX ==> r is Some,
        r matches Some(v) ==> v@ == aead_seal(key@, nonce@, plaintext@) && v@.len() == plaintext@.len() + 16,
{
    let cipher = match Aes256Gcm::new_from_slice(key) {
        Ok(c) => c,
        Err(_) => {
            return None;
        },
    };
    cipher.encrypt(Nonce::from_slice(nonce), plaintext).ok()
}

/// Relies on Aes256Gcm (KeyInit::new_from_slice and Aead::decrypt):
/// decryption under a key and nonce returns exactly the plaintext whose
/// sealing produced the ciphertext, and succeeds only on such a ciphertext
/// (the authentication tag check). The claims are stated for plaintexts up
/// to the cipher's length cap, the only ones sealing ever produces.
#[verifier::external_body]
fn aead_open(key: &[u8], nonce: &[u8], ciphertext: &[u8]) -> (r: Option<Vec<u8>>)
    requires
        key@.len() == 32,
        nonce@.len() == 12,
    ensures
        match r {
            Some(v) => ciphertext@ == aead_seal(key@, nonce@, v@) && (forall|p: Seq<u8>|
                p.len() <= AEAD_PLAINTEXT_MAX && ciphertext@ == aead_seal(key@, nonce@, p) ==> p
                    == v@),
            None => forall|p: Seq<u8>|
                p.len() <= AEAD_PLAINTEXT_MAX ==> ciphertext@ != aead_seal(key@, nonce@, p),
        },
{
    let cipher = match Aes256Gcm::new_from_slice(key) {
        Ok(c) => c,
        Err(_) => {
            return None;
        },
    };
    cipher.decrypt(Nonce::from_slice(nonce), ciphertext).ok()
}

/// Relies on rand::thread_rng and Rng::fill: returns 12 bytes; nothing is
/// assumed about the values drawn.
#[verifier::external_body]
fn random_nonce() -> (r: Vec<u8>)
    ensures
        r@.len() == 12,
{
    let mut rng = rand::thread_rng();
    let mut b = [0u8; 12];
    rng.fill(&mut b);
    b.to_vec()
}

/// The envelope text produced for profile `v` under `key` with `nonce`:
/// hex of the nonce followed by the sealed profile frame.
pub open spec fn spec_envelope(key: Seq<u8>, nonce: Seq<u8>, v: ProfileView) -> Seq<char> {
    spec_hex_encode(nonce + aead_seal(key, nonce, spec_profile_bytes(v)))
}

/// Envelopes made with different nonces differ, whatever they carry: the
/// nonce is readable in the first 24 hex digits.
pub proof fn lemma_envelope_nonce_distinct(
    key: Seq<u8>,
    n1: Seq<u8>,
    n2: Seq<u8>,
    v1: ProfileView,
    v2: ProfileView,
)
    requires
        n1.len() == 12,
        n2.len() == 12,
        n1 != n2,
    ensures
        spec_envelope(key, n1, v1) != spec_envelope(key, n2, v2),
{
    let b1 = n1 + aead_seal(key, n1, spec_profile_bytes(v1));
    let b2 = n2 + aead_seal(key, n2, spec_profile_bytes(v2));
    if spec_envelope(key, n1, v1) == spec_envelope(key, n2, v2) {
        lemma_encode_injective(b1, b2);
        assert(b1.take(12) =~= n1);
        assert(b2.take(12) =~= n2);
        assert(false);
    }
}

/// The cipher can seal this profile's frame: its byte framing lies below
/// the cipher's length cap. True of any profile a real request carries.
pub open spec fn profile_sealable(v: ProfileView) -> bool {
    spec_profile_bytes(v).len() <= AEAD_PLAINTEXT_MAX
}

/// Encrypt a profile: frame it, seal it under a fresh random nonce, and
/// return the hex envelope. Encryption succeeds on every profile the
/// cipher can seal, and the result is the envelope of the given profile
/// under some 12-byte nonce: hex of the nonce, the sealed frame and the
/// authentication tag.
pub fn encrypt_user_data(key: &[u8], profile: &UserData) -> (r: Result<String, EnvelopeError>)
    requires
        key@.len() == 32,
    ensures
        profile_sealable(profile@) ==> r is Ok,
        r matches Ok(s) ==> (exists|n: Seq<u8>|
            n.len() == 12 && s@ == spec_envelope(key@, n, profile@)) && s@.len() == 2 * (12
            + spec_profile_bytes(profile@).len() + 16),
{
    let nonce = random_nonce();
    let ghost n = nonce@;
    let plaintext = encode_profile(profile);
    match aead_encrypt(key, nonce.as_slice(), plaintext.as_slice()) {
        None => {
            proof {
                assert(spec_profile_bytes(profile@).len() > AEAD_PLAINTEXT_MAX);
            }
            Err(EnvelopeError::EncryptionError)
        },
        Some(sealed) => {
            let mut data = nonce;
            push_bytes(&mut data, sealed.as_slice());
            let s = hex_encode(data.as_slice());
            proof {
                assert(data@ == n + aead_seal(key@, n, spec_profile_bytes(profile@)));
                assert(n.len() == 12 && s@ == spec_envelope(key@, n, profile@));
                lemma_encode_spells(data@);
                assert(data@.len() == 12 + spec_profile_bytes(profile@).len() + 16);
                assert(s@.len() == 2 * (12 + spec_profile_bytes(profile@).len() + 16));
            }
            Ok(s)
        },
    }
}

/// Decrypt an envelope. Opening any envelope of a frameable, sealable
/// profile returns that profile; a result is only ever the profile some
/// envelope spelled by the input carries.
pub fn decrypt_user_data(key: &[u8], ciphertext_hex: &str) -> (r: Result<
    UserData,
    EnvelopeError,
>)
    requires
        key@.len() == 32,
    ensures
        forall|n: Seq<u8>, v: ProfileView|
            (n.len() == 12 && profile_view_bounded(v) && profile_sealable(v) && ciphertext_hex@ == #[trigger] spec_envelope(
                key@,
                n,
                v,
            )) ==> (r matches Ok(p) && p@ == v),
        r matches Ok(p) ==> exists|n: Seq<u8>|
            n.len() == 12 && hex_spells(
                ciphertext_hex@,
                n + aead_seal(key@, n, spec_profile_bytes(p@)),
            ),
{
    let bytes = match hex_decode(ciphertext_hex) {
        Some(b) => b,
        None => {
            proof {
                assert forall|n: Seq<u8>, v: ProfileView|
                    !(n.len() == 12 && profile_view_bounded(v) && profile_sealable(v) && ciphertext_hex@
                        == #[trigger] spec_envelope(key@, n, v)) by {
                    if n.len() == 12 && profile_view_bounded(v) && profile_sealable(v) && ciphertext_hex@
                        == spec_envelope(key@, n, v) {
                        lemma_encode_spells(n + aead_seal(key@, n, spec_profile_bytes(v)));
                        assert(false);
                    }
                }
            }
            return Err(EnvelopeError::DecryptionError);
        },
    };
    proof {
        assert forall|n: Seq<u8>, v: ProfileView|
            (n.len() == 12 && profile_view_bounded(v) && profile_sealable(v) && ciphertext_hex@
                == #[trigger] spec_envelope(key@, n, v)) implies bytes@ == n + aead_seal(
            key@,
            n,
            spec_profile_bytes(v),
        ) by {
            lemma_encode_spells(n + aead_seal(key@, n, spec_profile_bytes(v)));
            lemma_spells_unique(
                ciphertext_hex@,
                bytes@,
                n + aead_seal(key@, n, spec_profile_bytes(v)),
            );
        }
    }
    if bytes.len() < 12 {
        return Err(EnvelopeError::DecryptionError);
    }
    let nonce = vstd::slice::slice_to_vec(vstd::slice::slice_subrange(bytes.as_slice(), 0, 12));
    let body = vstd::slice::slice_to_vec(
        vstd::slice::slice_subrange(bytes.as_slice(), 12, bytes.len()),
    );
    proof {
        assert(bytes@ =~= nonce@ + body@);
        assert forall|n: Seq<u8>, v: ProfileView|
            (n.len() == 12 && profile_view_bounded(v) && profile_sealable(v) && ciphertext_hex@
                == #[trigger] spec_envelope(key@, n, v)) implies nonce@ == n && body@ == aead_seal(
            key@,
            n,
            spec_profile_bytes(v),
        ) by {
            assert(bytes@ == n + aead_seal(key@, n, spec_profile_bytes(v)));
            assert(nonce@ =~= (n + aead_seal(key@, n, spec_profile_bytes(v))).take(12));
            assert((n + aead_seal(key@, n, spec_profile_bytes(v))).take(12) =~= n);
            assert(body@ =~= (n + aead_seal(key@, n, spec_profile_bytes(v))).skip(12));
            assert((n + aead_seal(key@, n, spec_profile_bytes(v))).skip(12) =~= aead_seal(
                key@,
                n,
                spec_profile_bytes(v),
            ));
        }
    }
    let plaintext = match aead_open(key, nonce.as_slice(), body.as_slice()) {
        Some(p) => p,
        None => {
            return Err(EnvelopeError::DecryptionError);
        },
    };
    match decode_profile(&plaintext) {
        Some(p) => {
            proof {
                assert forall|n: Seq<u8>, v: ProfileView|
                    (n.len() == 12 && profile_view_bounded(v) && profile_sealable(v) && ciphertext_hex@
                        == #[trigger] spec_envelope(key@, n, v)) implies p@ == v by {
                    assert(plaintext@ == spec_profile_bytes(v));
                    lemma_profile_codec_round_trip(v);
                }
                assert(spec_profile_decode(plaintext@) == Some(p@));
                lemma_profile_decode_encode(plaintext@, p@);
                assert(nonce@.len() == 12 && hex_spells(
                    ciphertext_hex@,
                    nonce@ + aead_seal(key@, nonce@, spec_profile_bytes(p@)),
                ));
            }
            Ok(p)
        },
        None => {
            proof {
                assert forall|n: Seq<u8>, v: ProfileView|
                    !(n.len() == 12 && profile_view_bounded(v) && profile_sealable(v) && ciphertext_hex@
                        == #[trigger] spec_envelope(key@, n, v)) by {
                    if n.len() == 12 && profile_view_bounded(v) && profile_sealable(v) && ciphertext_hex@
                        == spec_envelope(key@, n, v) {
                        assert(plaintext@ == spec_profile_bytes(v));
                        lemma_profile_codec_round_trip(v);
                        assert(false);
                    }
                }
            }
            Err(EnvelopeError::DecryptionError)
        },
    }
}

} // verus!
