//! Mathematical model of CBC decryption and PKCS#7-style padding.
//!
//! Everything the contracts of the oracle and of the attack engine say is
//! phrased over these spec functions. The raw block cipher itself is opaque:
//! it enters the model only through the uninterpreted function
//! `aes128_decrypt_byte`.

use vstd::prelude::*;

verus! {

/// Byte `i` of the raw AES-128 decryption of the 16-byte `block` under
/// `key`. Relies on the `aes` crate's `Aes128`: block decryption is a pure
/// function of the key and the block alone.
pub uninterp spec fn aes128_decrypt_byte(key: Seq<u8>, block: Seq<u8>, i: int) -> u8;

/// The raw (chaining-free) AES-128 decryption of one block, as a 16-byte
/// sequence.
pub open spec fn raw_decrypt(key: Seq<u8>, block: Seq<u8>) -> Seq<u8> {
    Seq::new(16, |i: int| aes128_decrypt_byte(key, block, i))
}

/// Byte-wise XOR of two sequences of equal length.
pub open spec fn xor_bytes(a: Seq<u8>, b: Seq<u8>) -> Seq<u8>
    recommends
        a.len() == b.len(),
{
    Seq::new(a.len(), |i: int| a[i] ^ b[i])
}

/// The plaintext block that CBC decryption yields for ciphertext block `c`
/// when the block standing before it (real or forged) is `prev`.
pub open spec fn plain_block(key: Seq<u8>, prev: Seq<u8>, c: Seq<u8>) -> Seq<u8> {
    xor_bytes(raw_decrypt(key, c), prev)
}

/// Full CBC decryption: each ciphertext block is raw-decrypted and XORed
/// with its predecessor; the predecessor of the first block is the IV.
pub open spec fn cbc_plain(key: Seq<u8>, iv: Seq<u8>, cipher: Seq<u8>) -> Seq<u8>
    decreases cipher.len(),
{
    if cipher.len() < 16 {
        Seq::empty()
    } else {
        plain_block(key, iv, cipher.take(16)) + cbc_plain(key, cipher.take(16), cipher.skip(16))
    }
}

/// Well-formed trailing padding: the last byte holds a count `n` with
/// `1 <= n <= len`, and the last `n` bytes all hold `n`. This is exactly
/// the check that `block_padding::Pkcs7::unpad` performs on a decrypted
/// buffer.
pub open spec fn pkcs7_ok(p: Seq<u8>) -> bool {
    &&& p.len() > 0
    &&& 1 <= p.last() <= p.len()
    &&& forall|j: int| p.len() - p.last() <= j < p.len() ==> p[j] == p.last()
}

/// When the real decryption routine reports success for a candidate
/// (IV, ciphertext) pair under `key`: the key and IV have the cipher's
/// native lengths, the ciphertext is a whole number of blocks, and the
/// decrypted buffer carries well-formed trailing padding. Every malformed
/// pair falls under the same single negative answer.
pub open spec fn oracle_accepts(key: Seq<u8>, iv: Seq<u8>, cipher: Seq<u8>) -> bool {
    &&& key.len() == 16
    &&& iv.len() == 16
    &&& cipher.len() % 16 == 0
    &&& pkcs7_ok(cbc_plain(key, iv, cipher))
}

/// Ciphertext block `i` (0-based) of a block-aligned ciphertext.
pub open spec fn block_of(cipher: Seq<u8>, i: int) -> Seq<u8> {
    cipher.subrange(16 * i, 16 * i + 16)
}

/// The block standing before ciphertext block `i`: the IV for the first
/// block, otherwise the previous ciphertext block.
pub open spec fn pred_block(iv: Seq<u8>, cipher: Seq<u8>, i: int) -> Seq<u8> {
    if i == 0 {
        iv
    } else {
        block_of(cipher, i - 1)
    }
}

/// The decryption of the last ciphertext block, the block whose padding the
/// attack measures first.
pub open spec fn last_plain(key: Seq<u8>, iv: Seq<u8>, cipher: Seq<u8>) -> Seq<u8> {
    let n = cipher.len() as int / 16;
    plain_block(key, pred_block(iv, cipher, n - 1), block_of(cipher, n - 1))
}

/// The inputs on which the attack owes a full recovery: a well-formed
/// (key, IV, ciphertext) triple whose final plaintext block ends in
/// well-formed padding, as it does for every ciphertext produced by
/// ordinary padded CBC encryption.
pub open spec fn attack_feasible(key: Seq<u8>, iv: Seq<u8>, cipher: Seq<u8>) -> bool {
    &&& key.len() == 16
    &&& iv.len() == 16
    &&& cipher.len() >= 16
    &&& cipher.len() % 16 == 0
    &&& pkcs7_ok(last_plain(key, iv, cipher))
}

/// The message extended with its padding: `k` copies of the byte `k`, where
/// `k` is the distance to the next block boundary (a full extra block when
/// the message already ends on one).
pub open spec fn pkcs7_pad(m: Seq<u8>) -> Seq<u8> {
    let k = 16 - (m.len() % 16);
    m + Seq::new(k as nat, |i: int| k as u8)
}

/// A padded buffer with its announced padding bytes removed.
pub open spec fn strip_pad(p: Seq<u8>) -> Seq<u8>
    recommends
        p.len() > 0,
{
    p.take(p.len() - p.last())
}

/// Padding then stripping gives the message back, and the padded buffer is
/// block-aligned with well-formed padding confined to its last block.
pub proof fn lemma_pad_round_trip(m: Seq<u8>)
    ensures
        pkcs7_pad(m).len() == m.len() + 16 - (m.len() % 16),
        pkcs7_pad(m).len() % 16 == 0,
        pkcs7_ok(pkcs7_pad(m)),
        pkcs7_ok(pkcs7_pad(m).skip(pkcs7_pad(m).len() - 16)),
        strip_pad(pkcs7_pad(m)) == m,
{
    let k = 16 - (m.len() % 16);
    let p = pkcs7_pad(m);
    assert(1 <= k <= 16);
    assert(p.len() == m.len() + k);
    assert(p.last() == k as u8);
    assert((m.len() + 16 - (m.len() % 16)) % 16 == 0) by (nonlinear_arith);
    assert(forall|j: int| p.len() - k <= j < p.len() ==> p[j] == k as u8);
    assert(strip_pad(p) =~= m);
    let q = p.skip(p.len() - 16);
    assert(q.len() == 16);
    assert(q.last() == k as u8);
    assert(forall|j: int| q.len() - k <= j < q.len() ==> q[j] == k as u8);
}

/// A block-aligned ciphertext decrypts to a buffer of the same length.
pub proof fn lemma_cbc_plain_len(key: Seq<u8>, iv: Seq<u8>, cipher: Seq<u8>)
    requires
        cipher.len() % 16 == 0,
    ensures
        cbc_plain(key, iv, cipher).len() == cipher.len(),
    decreases cipher.len(),
{
    if cipher.len() >= 16 {
        assert(cipher.skip(16).len() % 16 == 0);
        lemma_cbc_plain_len(key, cipher.take(16), cipher.skip(16));
    }
}

/// Unfolding one block of `cbc_plain` at block boundary `i`: the suffix of
/// the decryption starting at block `i` opens up as the decryption of block
/// `i` followed by the decryption of the remaining suffix.
pub proof fn lemma_cbc_plain_step(key: Seq<u8>, iv: Seq<u8>, cipher: Seq<u8>, i: int)
    requires
        cipher.len() % 16 == 0,
        0 <= i,
        16 * i + 16 <= cipher.len(),
    ensures
        cbc_plain(key, pred_block(iv, cipher, i), cipher.skip(16 * i)) == plain_block(
            key,
            pred_block(iv, cipher, i),
            block_of(cipher, i),
        ) + cbc_plain(key, pred_block(iv, cipher, i + 1), cipher.skip(16 * i + 16)),
{
    let rest = cipher.skip(16 * i);
    assert(rest.len() == cipher.len() - 16 * i >= 16);
    assert(rest.take(16) =~= block_of(cipher, i));
    assert(rest.skip(16) =~= cipher.skip(16 * i + 16));
    assert(pred_block(iv, cipher, i + 1) == block_of(cipher, i));
}

/// The last 16 bytes of the full decryption are the decryption of the last
/// block.
pub proof fn lemma_cbc_plain_last(key: Seq<u8>, iv: Seq<u8>, cipher: Seq<u8>)
    requires
        cipher.len() >= 16,
        cipher.len() % 16 == 0,
    ensures
        cbc_plain(key, iv, cipher).skip(cipher.len() - 16) == last_plain(key, iv, cipher),
        cbc_plain(key, iv, cipher).last() == last_plain(key, iv, cipher).last(),
    decreases cipher.len(),
{
    lemma_cbc_plain_len(key, iv, cipher);
    let n = cipher.len() as int / 16;
    assert(16 * n == cipher.len()) by (nonlinear_arith)
        requires
            cipher.len() % 16 == 0,
            n == cipher.len() as int / 16,
    ;
    if cipher.len() == 16 {
        assert(cipher.take(16) =~= cipher);
        assert(block_of(cipher, 0) =~= cipher);
        assert(cbc_plain(key, cipher.take(16), cipher.skip(16)) =~= Seq::<u8>::empty());
        assert(cbc_plain(key, iv, cipher) =~= plain_block(key, iv, cipher.take(16)));
        assert(plain_block(key, iv, cipher.take(16)).len() == 16);
        assert(cbc_plain(key, iv, cipher).skip(cipher.len() - 16) =~= cbc_plain(key, iv, cipher));
    } else {
        let c0 = cipher.take(16);
        let rest = cipher.skip(16);
        assert(rest.len() % 16 == 0);
        lemma_cbc_plain_last(key, c0, rest);
        lemma_cbc_plain_len(key, c0, rest);
        let head = plain_block(key, iv, c0);
        assert(head.len() == 16);
        assert(cbc_plain(key, iv, cipher) == head + cbc_plain(key, c0, rest));
        assert(cbc_plain(key, iv, cipher).skip(cipher.len() - 16) =~= cbc_plain(key, c0, rest).skip(
            rest.len() - 16,
        ));
        let nr = rest.len() as int / 16;
        assert(nr == n - 1);
        assert(block_of(rest, nr - 1) =~= block_of(cipher, n - 1));
        if nr - 1 == 0 {
            assert(pred_block(c0, rest, nr - 1) == c0);
            assert(pred_block(iv, cipher, n - 1) =~= c0);
        } else {
            assert(pred_block(c0, rest, nr - 1) == block_of(rest, nr - 2));
            assert(block_of(rest, nr - 2) =~= block_of(cipher, n - 2));
        }
        assert(last_plain(key, c0, rest) == last_plain(key, iv, cipher));
    }
}

/// A pair whose IV is not one block, or whose ciphertext is empty or not
/// block-aligned, is never accepted: malformed input surfaces as the same
/// negative answer as bad padding.
pub proof fn lemma_oracle_rejects_malformed(key: Seq<u8>, iv: Seq<u8>, cipher: Seq<u8>)
    requires
        iv.len() != 16 || cipher.len() == 0 || cipher.len() % 16 != 0,
    ensures
        !oracle_accepts(key, iv, cipher),
{
    if iv.len() == 16 && cipher.len() == 0 && cipher.len() % 16 == 0 {
        assert(cbc_plain(key, iv, cipher).len() == 0);
    }
}

/// Any ciphertext obtained by padding a message and encrypting it with CBC
/// is a feasible input for the attack, and stripping the announced padding
/// from its decryption gives exactly the original message. Together with
/// the attack engine's own contract this is the round trip: encrypt under
/// a key, then recover the message through the padding oracle alone.
pub proof fn lemma_round_trip(key: Seq<u8>, iv: Seq<u8>, cipher: Seq<u8>, m: Seq<u8>)
    requires
        key.len() == 16,
        iv.len() == 16,
        cipher.len() > 0,
        cipher.len() % 16 == 0,
        cbc_plain(key, iv, cipher) == pkcs7_pad(m),
    ensures
        attack_feasible(key, iv, cipher),
        strip_pad(cbc_plain(key, iv, cipher)) == m,
{
    lemma_cbc_plain_len(key, iv, cipher);
    lemma_pad_round_trip(m);
    assert(cipher.len() >= 16);
    lemma_cbc_plain_last(key, iv, cipher);
    assert(last_plain(key, iv, cipher) == pkcs7_pad(m).skip(pkcs7_pad(m).len() - 16));
}

} // verus!
