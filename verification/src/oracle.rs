//! The padding-validity oracle.
//!
//! The oracle owns the secret key and exposes a single question: does this
//! (IV, ciphertext) pair decrypt to well-formed trailing padding? It answers
//! with one bit and nothing else — no plaintext, no reason for a failure —
//! which is the entire premise of the attack built on top of it.

use vstd::prelude::*;

use crate::model::aes128_decrypt_byte;
use crate::model::oracle_accepts;
use block_modes::BlockMode;

verus! {

/// The oracle's one negative answer. It carries no data: a caller learns
/// that padding validation failed, never why.
#[derive(Debug)]
pub struct OracleError;

/// A padding-validity oracle over AES-128 in CBC mode. It is stateless
/// apart from the key it was built with: asking it a question changes
/// nothing, and equal questions get equal answers.
#[derive(Debug)]
pub struct Oracle {
    key: Vec<u8>,
}

/// Relies on `block_modes::BlockMode::{new_from_slices, decrypt_vec}` with
/// `Cbc<Aes128, Pkcs7>`: construction fails exactly on a key or IV of the
/// wrong length, and decryption succeeds exactly on a block-aligned
/// ciphertext whose CBC decryption ends in well-formed PKCS#7 padding.
/// The second clause spells out, for the one-block queries the attack makes,
/// the single bit this leaks about the raw decryption: an accepted block's
/// last plaintext byte announces a padding length between 1 and 16.
#[verifier::external_body]
fn cbc_padding_check(key: &[u8], iv: &[u8], cipher: &[u8]) -> (r: bool)
    ensures
        r == oracle_accepts(key@, iv@, cipher@),
        r && cipher@.len() == 16 ==> 1 <= (aes128_decrypt_byte(key@, cipher@, 15) ^ iv@[15])
            <= 16,
{
    match block_modes::Cbc::<aes::Aes128, block_modes::block_padding::Pkcs7>::new_from_slices(key, iv) {
        Ok(mode) => mode.decrypt_vec(cipher).is_ok(),
        Err(_) => false,
    }
}

impl Oracle {
    /// The secret key, visible only to specifications.
    pub closed spec fn key(&self) -> Seq<u8> {
        self.key@
    }

    /// The oracle holds a key of the cipher's native length.
    pub open spec fn wf(&self) -> bool {
        self.key().len() == 16
    }

    /// Builds an oracle around a raw 16-byte key.
    pub fn new(key: &[u8]) -> (r: Self)
        requires
            key@.len() == 16,
        ensures
            r.key() == key@,
            r.wf(),
    {
        Oracle { key: vstd::slice::slice_to_vec(key) }
    }

    /// Tests a given IV and ciphertext. Returns whether there was a
    /// decryption error: `Ok` exactly when the pair decrypts to well-formed
    /// trailing padding, and the same bare `Err` for every other pair,
    /// malformed input included. The answer is a function of the key, the
    /// IV and the ciphertext alone, and the call leaves the oracle as it
    /// was.
    pub fn test(&self, iv: &[u8], cipher: &[u8]) -> (r: Result<(), OracleError>)
        requires
            self.wf(),
        ensures
            r is Ok <==> oracle_accepts(self.key(), iv@, cipher@),
    {
        if cbc_padding_check(self.key.as_slice(), iv, cipher) {
            Ok(())
        } else {
            Err(OracleError)
        }
    }
}

} // verus!
