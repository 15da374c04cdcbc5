//! The attack engine: padding-length discovery and byte-at-a-time block
//! breaking over a padding-validity oracle.
//!
//! The engine treats the IV as block 0 of the ciphertext and repeatedly asks
//! the oracle about a forged predecessor block in front of a real ciphertext
//! block. Each answer is one bit about the raw decryption of that block, and
//! the lemmas in this module show that those bits pin the plaintext down
//! exactly.

use vstd::prelude::*;

use crate::model::aes128_decrypt_byte;
use crate::model::attack_feasible;
use crate::model::block_of;
use crate::model::cbc_plain;
use crate::model::oracle_accepts;
use crate::model::pkcs7_ok;
use crate::model::plain_block;
use crate::model::pred_block;
use crate::model::strip_pad;
use crate::oracle::Oracle;
use crate::oracle::OracleError;

verus! {

/// The trailing `known` bytes of the working buffer `m2` agree with the
/// true plaintext block.
pub open spec fn trailing_match(m2: Seq<u8>, plain: Seq<u8>, known: int) -> bool {
    forall|j: int| 16 - known <= j < 16 ==> m2[j] == plain[j]
}

/// The XOR mask the attack applies to the real predecessor block while
/// breaking the byte at index `15 - known` with candidate `x`: zero before
/// that index, `x` at it, and `target XOR m2[j]` after it, where `target`
/// is the padding length being forced.
pub open spec fn delta_mask(m2: Seq<u8>, known: int, x: u8) -> Seq<u8> {
    Seq::new(
        16,
        |j: int|
            if j < 15 - known {
                0u8
            } else if j == 15 - known {
                x
            } else {
                (((known + 1) as u8) ^ m2[j])
            },
    )
}

/// The forged predecessor block: the mask XORed onto the real predecessor.
pub open spec fn forged_pred(c1: Seq<u8>, m2: Seq<u8>, known: int, x: u8) -> Seq<u8> {
    Seq::new(16, |j: int| delta_mask(m2, known, x)[j] ^ c1[j])
}

/// What the target block decrypts to under the forged predecessor, written
/// over the true plaintext `plain` of that block: bytes before the break
/// index are untouched, the break byte is XORed with `x`, and the trailing
/// bytes are XORed with the mask that forces them toward the target padding
/// value.
pub open spec fn forged_plain(plain: Seq<u8>, m2: Seq<u8>, known: int, x: u8) -> Seq<u8> {
    Seq::new(
        16,
        |j: int|
            if j < 15 - known {
                plain[j]
            } else if j == 15 - known {
                (plain[j] ^ x)
            } else {
                (plain[j] ^ (((known + 1) as u8) ^ m2[j]))
            },
    )
}

/// The real predecessor with the low bit of each of its first `i` bytes
/// flipped, as padding discovery leaves it after `i` steps.
pub open spec fn flipped_prefix(c1: Seq<u8>, i: int) -> Seq<u8> {
    Seq::new(16, |j: int| if j < i { (c1[j] ^ 1) } else { c1[j] })
}

/// The matching plaintext: the first `i` bytes of the true plaintext with
/// their low bit flipped.
pub open spec fn flipped_plain(plain: Seq<u8>, i: int) -> Seq<u8> {
    Seq::new(16, |j: int| if j < i { (plain[j] ^ 1) } else { plain[j] })
}

proof fn lemma_xor_absorb(a: u8, t: u8)
    by (bit_vector)
    ensures
        a ^ (t ^ a) == t,
        a ^ (a ^ t) == t,
        (a ^ t) ^ t == a,
{
}

proof fn lemma_xor_unique(a: u8, x: u8, t: u8)
    by (bit_vector)
    ensures
        (a ^ x == t) <==> (x == a ^ t),
{
}

proof fn lemma_xor_rearrange(d: u8, c: u8, e: u8)
    by (bit_vector)
    ensures
        d ^ (e ^ c) == (d ^ c) ^ e,
        d ^ (c ^ e) == (d ^ c) ^ e,
        d ^ (0u8 ^ c) == d ^ c,
{
}

proof fn lemma_xor_one(a: u8)
    by (bit_vector)
    ensures
        a ^ 1 != a,
        (a ^ 1) ^ 1 == a,
        a == 1 ==> a ^ 1 == 0,
{
}

/// For one-block queries — the only kind the attack makes — acceptance is
/// exactly well-formed padding of the single decrypted block.
proof fn lemma_accepts_single(key: Seq<u8>, iv: Seq<u8>, c: Seq<u8>)
    requires
        iv.len() == 16,
        c.len() == 16,
    ensures
        oracle_accepts(key, iv, c) <==> (key.len() == 16 && pkcs7_ok(plain_block(key, iv, c))),
{
    assert(c.take(16) =~= c);
    assert(c.skip(16) =~= Seq::<u8>::empty());
    assert(cbc_plain(key, c.take(16), c.skip(16)) == Seq::<u8>::empty());
    assert(cbc_plain(key, iv, c) == plain_block(key, iv, c.take(16)) + cbc_plain(
        key,
        c.take(16),
        c.skip(16),
    ));
    assert(cbc_plain(key, iv, c) =~= plain_block(key, iv, c));
}

/// Chaining malleability, applied to the forged predecessor: the target
/// block decrypts under the forged predecessor to its true plaintext XORed
/// with the mask.
proof fn lemma_forged_pred_plain(key: Seq<u8>, c1: Seq<u8>, c2: Seq<u8>, m2: Seq<u8>, known: int, x: u8)
    requires
        c1.len() == 16,
        0 <= known < 16,
    ensures
        plain_block(key, forged_pred(c1, m2, known, x), c2) =~= forged_plain(
            plain_block(key, c1, c2),
            m2,
            known,
            x,
        ),
{
    let lhs = plain_block(key, forged_pred(c1, m2, known, x), c2);
    let rhs = forged_plain(plain_block(key, c1, c2), m2, known, x);
    assert forall|j: int| 0 <= j < 16 implies lhs[j] == rhs[j] by {
        lemma_xor_rearrange(aes128_decrypt_byte(key, c2, j), c1[j], delta_mask(m2, known, x)[j]);
    };
}

/// Chaining malleability, applied to the cumulative low-bit flips of
/// padding discovery.
proof fn lemma_flipped_pred_plain(key: Seq<u8>, c1: Seq<u8>, c2: Seq<u8>, i: int)
    requires
        c1.len() == 16,
    ensures
        plain_block(key, flipped_prefix(c1, i), c2) =~= flipped_plain(plain_block(key, c1, c2), i),
{
    let lhs = plain_block(key, flipped_prefix(c1, i), c2);
    let rhs = flipped_plain(plain_block(key, c1, c2), i);
    assert forall|j: int| 0 <= j < 16 implies lhs[j] == rhs[j] by {
        lemma_xor_rearrange(aes128_decrypt_byte(key, c2, j), c1[j], 1u8);
    };
}

/// Byte-breaking uniqueness away from the last byte: once at least one
/// trailing byte of the block is known, exactly one candidate `x` makes the
/// forged decryption carry well-formed padding — the one that turns the
/// break byte into the forced padding value.
pub proof fn lemma_break_unique(plain: Seq<u8>, m2: Seq<u8>, known: int, x: u8)
    requires
        plain.len() == 16,
        m2.len() == 16,
        1 <= known < 16,
        trailing_match(m2, plain, known),
    ensures
        pkcs7_ok(forged_plain(plain, m2, known, x)) <==> x == (plain[15 - known] ^ ((known
            + 1) as u8)),
{
    let t: u8 = (known + 1) as u8;
    let bi = 15 - known;
    let q = forged_plain(plain, m2, known, x);
    assert(t == known + 1);
    assert(m2[15] == plain[15]);
    assert(q[15] == plain[15] ^ (t ^ m2[15]));
    lemma_xor_absorb(plain[15], t);
    assert(q.last() == t);
    assert forall|j: int| bi < j < 16 implies q[j] == t by {
        assert(m2[j] == plain[j]);
        lemma_xor_absorb(plain[j], t);
    };
    if x == (plain[bi] ^ t) {
        lemma_xor_absorb(plain[bi], t);
        assert(q[bi] == t);
        assert(pkcs7_ok(q));
    }
    if pkcs7_ok(q) {
        assert(q[bi] == q.last());
        assert(plain[bi] ^ x == t);
        lemma_xor_unique(plain[bi], x, t);
    }
}

/// Byte-breaking uniqueness at the last byte: a candidate survives both the
/// first oracle query and the re-test with byte 14 of the forged predecessor
/// flipped exactly when it is the genuine one — the one that makes the last
/// plaintext byte read as a padding length of 1.
pub proof fn lemma_break_last_unique(plain: Seq<u8>, m2: Seq<u8>, x: u8)
    requires
        plain.len() == 16,
        m2.len() == 16,
    ensures
        (pkcs7_ok(forged_plain(plain, m2, 0, x)) && pkcs7_ok(
            forged_plain(plain, m2, 0, x).update(14, (plain[14] ^ 1)),
        )) <==> x == (plain[15] ^ 1),
{
    let q = forged_plain(plain, m2, 0, x);
    let q2 = q.update(14, (plain[14] ^ 1));
    assert(forall|j: int| 0 <= j < 15 ==> q[j] == plain[j]);
    assert(q[15] == plain[15] ^ x);
    if x == (plain[15] ^ 1) {
        lemma_xor_absorb(plain[15], 1u8);
        assert(q.last() == 1);
        assert(pkcs7_ok(q));
        assert(q2.last() == 1);
        assert(pkcs7_ok(q2));
    }
    if pkcs7_ok(q) && pkcs7_ok(q2) {
        let n = q[15];
        if n == 1 {
            lemma_xor_unique(plain[15], x, 1u8);
        } else {
            assert(1 <= n <= 16);
            assert(16 - n <= 14 < 16);
            assert(q[14] == n);
            assert(plain[14] == n);
            assert(q2[14] == q2.last());
            assert(q2[14] == (plain[14] ^ 1));
            lemma_xor_one(n);
            assert(false);
        }
    }
}

/// At the last byte there is at most one spurious candidate: two candidates
/// that both pass the first query but are not the genuine one coincide.
pub proof fn lemma_spurious_unique(plain: Seq<u8>, m2: Seq<u8>, x1: u8, x2: u8)
    requires
        plain.len() == 16,
        m2.len() == 16,
        pkcs7_ok(forged_plain(plain, m2, 0, x1)),
        x1 != (plain[15] ^ 1),
        pkcs7_ok(forged_plain(plain, m2, 0, x2)),
        x2 != (plain[15] ^ 1),
    ensures
        x1 == x2,
{
    let q1 = forged_plain(plain, m2, 0, x1);
    let q2 = forged_plain(plain, m2, 0, x2);
    let n1 = q1[15];
    let n2 = q2[15];
    assert(n1 == plain[15] ^ x1);
    assert(n2 == plain[15] ^ x2);
    lemma_xor_unique(plain[15], x1, 1u8);
    lemma_xor_unique(plain[15], x2, 1u8);
    assert(n1 != 1 && n2 != 1);
    assert(16 - n1 <= 14 < 16 && q1[14] == n1);
    assert(16 - n2 <= 14 < 16 && q2[14] == n2);
    assert(plain[14] == n1 && plain[14] == n2);
    lemma_xor_unique(plain[15], x1, n1);
    lemma_xor_unique(plain[15], x2, n2);
}

/// Padding discovery is exact: flipping the low bit of predecessor bytes
/// from the front leaves the padding of the true plaintext intact while the
/// flips stay before the padding region, and breaks it at the first byte
/// inside the region.
pub proof fn lemma_flip_finds_padding(plain: Seq<u8>, i: int)
    requires
        plain.len() == 16,
        pkcs7_ok(plain),
        0 <= i < 16,
    ensures
        i + 1 <= 16 - plain.last() ==> pkcs7_ok(flipped_plain(plain, i + 1)),
        i == 16 - plain.last() ==> !pkcs7_ok(flipped_plain(plain, i + 1)),
{
    let k = plain.last();
    let q = flipped_plain(plain, i + 1);
    if i + 1 <= 16 - k {
        assert(q[15] == plain[15]);
        assert(q.last() == k);
        assert(forall|j: int| 16 - k <= j < 16 ==> q[j] == plain[j]);
        assert(pkcs7_ok(q));
    }
    if i == 16 - k && pkcs7_ok(q) {
        if k == 1 {
            assert(q[15] == (plain[15] ^ 1));
            lemma_xor_one(plain[15]);
            assert(q.last() == 0);
            assert(false);
        } else {
            assert(q[15] == plain[15]);
            assert(q.last() == k);
            assert(16 - k <= i < 16);
            assert(q[i] == k);
            assert(q[i] == (plain[i] ^ 1));
            assert(plain[i] == k);
            lemma_xor_one(k);
            assert(false);
        }
    }
}

/// A byte-for-byte copy of a buffer.
fn copy_bytes(src: &Vec<u8>) -> (r: Vec<u8>)
    ensures
        r@ == src@,
{
    let mut out: Vec<u8> = Vec::new();
    let mut i: usize = 0;
    while i < src.len()
        invariant
            i <= src@.len(),
            out@ == src@.take(i as int),
        decreases src@.len() - i,
    {
        out.push(src[i]);
        assert(out@ =~= src@.take(i + 1));
        i += 1;
    }
    assert(out@ =~= src@);
    out
}

/// A fresh all-zero block.
fn zero_block() -> (r: Vec<u8>)
    ensures
        r@.len() == 16,
        forall|j: int| 0 <= j < 16 ==> r@[j] == 0u8,
{
    let mut out: Vec<u8> = Vec::new();
    let mut i: usize = 0;
    while i < 16
        invariant
            i <= 16,
            out@.len() == i,
            forall|j: int| 0 <= j < i ==> out@[j] == 0u8,
        decreases 16 - i,
    {
        out.push(0u8);
        i += 1;
    }
    out
}

/// Asks the oracle one question and records it in the attack's own query
/// counter, which saturates at `u64::MAX`. The oracle itself is stateless;
/// the count is the attack's bookkeeping.
fn counted_query(oracle: &Oracle, iv: &Vec<u8>, cipher: &Vec<u8>, queries: &mut u64) -> (r: Result<
    (),
    OracleError,
>)
    requires
        oracle.wf(),
    ensures
        *final(queries) == if *old(queries) < u64::MAX {
            *old(queries) + 1
        } else {
            u64::MAX as int
        },
        r is Ok <==> oracle_accepts(oracle.key(), iv@, cipher@),
{
    if *queries < u64::MAX {
        *queries = *queries + 1;
    }
    oracle.test(iv.as_slice(), cipher.as_slice())
}

/// Discovers the number of padding bytes in the final ciphertext block.
///
/// `blocks` is the full sequence `[IV, C1, ..., Cn]`. The low bit of each
/// byte of a copy of the next-to-last block is flipped in turn, front to
/// back, and the oracle is asked about the flipped block and the last block;
/// the first flip the oracle rejects lies in the padding region, at distance
/// `16 - i` from the block's end. The oracle and `blocks` are left as they
/// were; each question is recorded in `queries`. When the last block really
/// ends in well-formed padding of length `k`, the result is exactly
/// `Some(k)`, found with `17 - k` queries; no run asks more than 16
/// queries.
#[verifier::loop_isolation(false)]
pub fn determine_padding(oracle: &Oracle, blocks: &Vec<Vec<u8>>, queries: &mut u64) -> (r: Option<
    usize,
>)
    requires
        oracle.wf(),
        blocks@.len() >= 2,
        forall|b: int| 0 <= b < blocks@.len() ==> (#[trigger] blocks@[b])@.len() == 16,
    ensures
        *final(queries) as int <= *old(queries) as int + 16,
        r is Some ==> 1 <= r.unwrap() <= 16,
        pkcs7_ok(
            plain_block(oracle.key(), blocks@[blocks@.len() - 2]@, blocks@[blocks@.len() - 1]@),
        ) ==> {
            let p = plain_block(
                oracle.key(),
                blocks@[blocks@.len() - 2]@,
                blocks@[blocks@.len() - 1]@,
            );
            &&& r is Some
            &&& r.unwrap() == p.last()
            &&& (*old(queries) as int + 16 <= u64::MAX as int ==> *final(queries) as int == *old(
                queries,
            ) as int + 17 - p.last() as int)
        },
{
    let n = blocks.len();
    let mut c1 = copy_bytes(&blocks[n - 2]);
    let c2 = &blocks[n - 1];
    let ghost key = oracle.key();
    let ghost orig = blocks@[n - 2 as int]@;
    let ghost p = plain_block(key, orig, c2@);
    let ghost q0 = *queries as int;

    let mut i: usize = 0;
    while i < 16
        invariant
            i <= 16,
            c2@.len() == 16,
            orig.len() == 16,
            p == plain_block(key, orig, c2@),
            c1@ =~= flipped_prefix(orig, i as int),
            *queries as int <= q0 + i,
            q0 + 16 <= u64::MAX as int ==> *queries as int == q0 + i,
            pkcs7_ok(p) ==> i <= 16 - p.last(),
        decreases 16 - i,
    {
        assert(c1@.len() == 16);
        let b = c1[i];
        c1[i] = b ^ 1;
        proof {
            assert(c1@ =~= flipped_prefix(orig, i + 1));
        }
        let res = counted_query(oracle, &c1, c2, queries);
        proof {
            lemma_accepts_single(key, c1@, c2@);
            lemma_flipped_pred_plain(key, orig, c2@, i + 1);
            if pkcs7_ok(p) {
                lemma_flip_finds_padding(p, i as int);
            }
        }
        if res.is_err() {
            proof {
                if pkcs7_ok(p) {
                    assert(i == 16 - p.last());
                }
            }
            return Some(16 - i);
        }
        i += 1;
    }
    proof {
        if pkcs7_ok(p) {
            assert(16 <= 16 - p.last());
            assert(false);
        }
    }
    None
}

/// Breaks one more byte of the target block `c2`.
///
/// `c1` is the real predecessor block, `m2` the working plaintext buffer
/// whose trailing `known_bytes` bytes are already solved. For each candidate
/// `x`, a forged predecessor is built that would force the solved trailing
/// bytes to read as the next padding length, and the oracle is asked; a
/// candidate the oracle accepts reveals the break byte as `x XOR (known_bytes
/// + 1)`. While no byte is known yet, an accepted candidate is re-tested
/// with one extra bit flipped at index 14, which discards the one possible
/// spurious candidate. Whenever the trailing bytes of `m2` really agree with
/// the block's true plaintext, the search is guaranteed to succeed and
/// returns `m2` with exactly the break byte filled in correctly; and it
/// comes back empty exactly when no candidate at all yields valid padding.
#[verifier::loop_isolation(false)]
pub fn break_block_byte(
    oracle: &Oracle,
    c1: &Vec<u8>,
    c2: &Vec<u8>,
    m2: &Vec<u8>,
    known_bytes: usize,
    queries: &mut u64,
) -> (r: Option<Vec<u8>>)
    requires
        oracle.wf(),
        c1@.len() == 16,
        c2@.len() == 16,
        m2@.len() == 16,
        known_bytes < 16,
    ensures
        *final(queries) as int <= *old(queries) as int + if known_bytes == 0 {
            258int
        } else {
            256int
        },
        r is Some ==> r.unwrap()@.len() == 16 && (forall|j: int|
            0 <= j < 16 && j != 15 - known_bytes ==> r.unwrap()@[j] == m2@[j]),
        trailing_match(m2@, plain_block(oracle.key(), c1@, c2@), known_bytes as int) ==> {
            let p = plain_block(oracle.key(), c1@, c2@);
            r is Some && r.unwrap()@ == m2@.update(15 - known_bytes as int, p[15 - known_bytes])
        },
        r is None <==> (forall|x: u8|
            !pkcs7_ok(
                forged_plain(
                    plain_block(oracle.key(), c1@, c2@),
                    m2@,
                    known_bytes as int,
                    x,
                ),
            )),
{
    let break_index: usize = 15 - known_bytes;
    let new_padding: u8 = (known_bytes + 1) as u8;
    let ghost key = oracle.key();
    let ghost plain = plain_block(key, c1@, c2@);
    let ghost x_true: u8 = plain[break_index as int] ^ new_padding;
    let ghost q0 = *queries as int;
    let ghost premise = trailing_match(m2@, plain, known_bytes as int);
    let ghost mut sp_seen: Option<u8> = None;

    let mut x: u8 = 0;
    loop
        invariant
            premise ==> x <= x_true,
            known_bytes >= 1 ==> (forall|x2: u8|
                x2 < x ==> !pkcs7_ok(forged_plain(plain, m2@, known_bytes as int, x2))),
            sp_seen is Some ==> known_bytes == 0 && sp_seen.unwrap() < x && sp_seen.unwrap()
                != x_true && pkcs7_ok(forged_plain(plain, m2@, 0, sp_seen.unwrap())),
            *queries as int <= q0 + x as int + if sp_seen is Some {
                1int
            } else {
                0int
            },
        decreases 255 - x as int,
    {
        // step 1 and 2 of the forgery: the mask holding the candidate at the
        // break index and the padding-forcing values, already folded with the
        // known plaintext bytes, over the trailing positions
        let mut delta = zero_block();
        delta[break_index] = x;
        let mut pad_i: usize = break_index + 1;
        while pad_i < 16
            invariant
                delta@.len() == 16,
                break_index < pad_i <= 16,
                forall|j: int| 0 <= j < pad_i ==> delta@[j] == delta_mask(m2@, known_bytes as int, x)[j],
                forall|j: int| pad_i <= j < 16 ==> delta@[j] == 0u8,
            decreases 16 - pad_i,
        {
            delta[pad_i] = new_padding ^ m2[pad_i];
            pad_i += 1;
        }
        assert(delta@ =~= delta_mask(m2@, known_bytes as int, x));

        // step 3: the forged predecessor block
        let mut forged: Vec<u8> = Vec::new();
        let mut j: usize = 0;
        while j < 16
            invariant
                forged@.len() == j,
                j <= 16,
                forall|j2: int| 0 <= j2 < j ==> forged@[j2] == (delta@[j2] ^ c1@[j2]),
            decreases 16 - j,
        {
            forged.push(delta[j] ^ c1[j]);
            j += 1;
        }
        assert(forged@ =~= forged_pred(c1@, m2@, known_bytes as int, x));

        let res = counted_query(oracle, &forged, c2, queries);
        proof {
            lemma_accepts_single(key, forged@, c2@);
            lemma_forged_pred_plain(key, c1@, c2@, m2@, known_bytes as int, x);
        }
        let ghost accepted = pkcs7_ok(forged_plain(plain, m2@, known_bytes as int, x));

        if res.is_ok() {
            let mut valid = true;
            if known_bytes == 0 {
                // the candidate that makes the last byte read as a padding
                // length of 1 is always accepted; flipping a bit of the
                // forged predecessor one position earlier keeps only the
                // genuine candidate alive
                let mut forged2 = copy_bytes(&forged);
                let b = forged2[break_index - 1];
                forged2[break_index - 1] = b ^ 1;
                proof {
                    assert(forged2@ =~= forged@.update(14, (forged@[14] ^ 1)));
                }
                let res2 = counted_query(oracle, &forged2, c2, queries);
                proof {
                    lemma_accepts_single(key, forged2@, c2@);
                    let q = forged_plain(plain, m2@, 0, x);
                    assert(plain_block(key, forged@, c2@) == q);
                    assert forall|j2: int| 0 <= j2 < 16 implies plain_block(key, forged2@, c2@)[j2]
                        == q.update(14, (plain[14] ^ 1))[j2] by {
                        let d = aes128_decrypt_byte(key, c2@, j2);
                        assert(plain_block(key, forged2@, c2@)[j2] == (d ^ forged2@[j2]));
                        assert(q[j2] == plain_block(key, forged@, c2@)[j2]);
                        assert(q[j2] == (d ^ forged@[j2]));
                        if j2 == 14 {
                            assert(forged2@[j2] == (forged@[j2] ^ 1));
                            lemma_xor_rearrange(d, forged@[j2], 1u8);
                            assert((d ^ forged2@[j2]) == (q[j2] ^ 1));
                            assert(q[14] == plain[14]);
                        } else {
                            assert(forged2@[j2] == forged@[j2]);
                        }
                    };
                    assert(plain_block(key, forged2@, c2@) =~= q.update(14, (plain[14] ^ 1)));
                }
                valid = res2.is_ok();
                proof {
                    lemma_break_last_unique(plain, m2@, x);
                }
            }
            if valid {
                proof {
                    assert(accepted);
                    if known_bytes == 0 {
                        assert(x == x_true);
                    } else if premise {
                        lemma_break_unique(plain, m2@, known_bytes as int, x);
                        assert(x == x_true);
                    }
                }
                let plain_byte = x ^ new_padding;
                let mut out = copy_bytes(m2);
                out[break_index] = plain_byte;
                proof {
                    if known_bytes == 0 || premise {
                        lemma_xor_absorb(plain[break_index as int], new_padding);
                        assert(plain_byte == plain[break_index as int]);
                        assert(out@ =~= m2@.update(
                            15 - known_bytes as int,
                            plain[15 - known_bytes],
                        ));
                    }
                }
                return Some(out);
            }
            // known_bytes == 0 and the re-test failed: this was the one
            // spurious candidate
            proof {
                assert(x != x_true);
                if sp_seen is Some {
                    lemma_spurious_unique(plain, m2@, sp_seen.unwrap(), x);
                    assert(false);
                }
                sp_seen = Some(x);
            }
        }
        proof {
            if premise && x == x_true {
                if known_bytes == 0 {
                    lemma_break_last_unique(plain, m2@, x);
                    assert(false);
                } else {
                    lemma_break_unique(plain, m2@, known_bytes as int, x);
                    assert(false);
                }
            }
        }
        if x == 0xFF {
            proof {
                if premise {
                    assert(x_true == 255 && x != x_true);
                    assert(false);
                }
                if known_bytes == 0 {
                    assert(premise);
                    assert(false);
                }
                // the scan is exhausted: every candidate failed
                assert(!accepted);
                assert forall|x2: u8| !pkcs7_ok(
                    forged_plain(plain, m2@, known_bytes as int, x2),
                ) by {
                    if x2 >= x {
                        assert(x2 == x);
                    }
                };
            }
            return None;
        }
        x = x + 1;
    }
}

/// Why an attack run ended without a recovered plaintext.
#[derive(Debug, PartialEq, Eq)]
pub enum AttackError {
    /// The ciphertext length is not a positive multiple of the block size,
    /// or the IV is not one block. Rejected before any oracle query.
    MalformedInput,
    /// A search exhausted its candidate space without one success, which
    /// cannot happen against a conforming oracle over a well-formed
    /// ciphertext.
    InvariantViolated,
}

/// A hook the attack calls after each solved byte, with the plaintext
/// recovered from fully solved blocks, the block being solved, how many of
/// its trailing bytes are now known, and the total block count (IV
/// included). Purely observational: nothing about the attack depends on it.
pub trait ProgressReporter {
    fn report(
        &mut self,
        recovered: &Vec<u8>,
        current: &Vec<u8>,
        bytes_known: usize,
        total_blocks: usize,
    );
}

/// A reporter that ignores every notification.
pub struct SilentReporter;

impl ProgressReporter for SilentReporter {
    fn report(
        &mut self,
        recovered: &Vec<u8>,
        current: &Vec<u8>,
        bytes_known: usize,
        total_blocks: usize,
    ) {
    }
}

/// Joins a solved block onto the front of the plaintext recovered so far.
fn prepend_block(block: &Vec<u8>, rest: &Vec<u8>) -> (r: Vec<u8>)
    ensures
        r@ == block@ + rest@,
{
    let mut out = copy_bytes(block);
    assert(out@ =~= block@ + rest@.take(0));
    let mut i: usize = 0;
    while i < rest.len()
        invariant
            i <= rest@.len(),
            out@ == block@ + rest@.take(i as int),
        decreases rest@.len() - i,
    {
        out.push(rest[i]);
        assert(out@ =~= block@ + rest@.take(i + 1));
        i += 1;
    }
    assert(out@ =~= block@ + rest@);
    out
}

/// The adversary: an oracle handle, the observed IV and ciphertext, and the
/// attack's own count of the questions it has asked. The count is local
/// bookkeeping of the attack; the oracle itself carries no state but its
/// key.
pub struct Adversary {
    oracle: Oracle,
    iv: Vec<u8>,
    cipher: Vec<u8>,
    queries: u64,
}

impl Adversary {
    /// The oracle's key, visible only to specifications.
    pub closed spec fn key(&self) -> Seq<u8> {
        self.oracle.key()
    }

    /// How many oracle queries the attack has spent, saturating at
    /// `u64::MAX`.
    pub closed spec fn queries(&self) -> u64 {
        self.queries
    }

    /// The observed IV.
    pub closed spec fn iv_spec(&self) -> Seq<u8> {
        self.iv@
    }

    /// The observed ciphertext, as one byte string.
    pub closed spec fn cipher_spec(&self) -> Seq<u8> {
        self.cipher@
    }

    /// The held oracle is well-formed.
    pub closed spec fn wf(&self) -> bool {
        self.oracle.wf()
    }

    /// How many oracle queries have been spent so far.
    pub fn query_count(&self) -> (r: u64)
        ensures
            r == self.queries(),
    {
        self.queries
    }

    /// Takes ownership of the oracle handle and the observed bytes.
    pub fn new(oracle: Oracle, iv: Vec<u8>, cipher: Vec<u8>) -> (r: Self)
        ensures
            r.key() == oracle.key(),
            r.queries() == 0,
            r.iv_spec() == iv@,
            r.cipher_spec() == cipher@,
            r.wf() == oracle.wf(),
    {
        Adversary { oracle, iv, cipher, queries: 0 }
    }

    /// Runs the whole attack and returns the recovered plaintext with its
    /// padding stripped, telling `reporter` about each solved byte.
    ///
    /// A malformed input — an IV that is not one block, or a ciphertext that
    /// is not a positive multiple of the block size — is rejected before any
    /// oracle query, exactly as the `MalformedInput` error. On every
    /// feasible input (one whose final block really ends in well-formed
    /// padding, as every honestly encrypted message does) the attack
    /// succeeds and returns precisely the decryption of the ciphertext with
    /// its announced padding removed. No run ever spends more than
    /// `16 + 16 * 257 * n` oracle queries on an `n`-block ciphertext.
    #[verifier::loop_isolation(false)]
    pub fn break_ciphertext_reporting<R: ProgressReporter>(
        &mut self,
        reporter: &mut R,
    ) -> (r: Result<Vec<u8>, AttackError>)
        requires
            old(self).wf(),
        ensures
            final(self).wf(),
            final(self).key() == old(self).key(),
            final(self).iv_spec() == old(self).iv_spec(),
            final(self).cipher_spec() == old(self).cipher_spec(),
            final(self).queries() as int <= old(self).queries() as int + 16 + 16 * 257 * (old(
                self,
            ).cipher_spec().len() as int / 16),
            (r == Err::<Vec<u8>, AttackError>(AttackError::MalformedInput)) <==> !(old(
                self,
            ).iv_spec().len() == 16 && old(self).cipher_spec().len() > 0 && old(
                self,
            ).cipher_spec().len() % 16 == 0),
            !(old(self).iv_spec().len() == 16 && old(self).cipher_spec().len() > 0 && old(
                self,
            ).cipher_spec().len() % 16 == 0) ==> final(self).queries() == old(self).queries(),
            attack_feasible(old(self).key(), old(self).iv_spec(), old(self).cipher_spec())
                ==> r is Ok && r.unwrap()@ == strip_pad(
                cbc_plain(old(self).key(), old(self).iv_spec(), old(self).cipher_spec()),
            ),
    {
        if self.iv.len() != 16 || self.cipher.len() == 0 || self.cipher.len() % 16 != 0 {
            return Err(AttackError::MalformedInput);
        }
        let ghost key = self.oracle.key();
        let ghost ivs = self.iv@;
        let ghost cs = self.cipher@;
        let ghost q0 = self.queries as int;
        let ghost feasible = attack_feasible(key, ivs, cs);

        let nb: usize = self.cipher.len() / 16;
        proof {
            assert(16 * nb == cs.len()) by (nonlinear_arith)
                requires
                    nb == cs.len() / 16,
                    cs.len() % 16 == 0,
            ;
            assert(nb >= 1);
            assert(cs.len() as int / 16 == nb) by (nonlinear_arith)
                requires
                    16 * nb == cs.len(),
            ;
        }

        // the block sequence [IV, C1, ..., Cn]
        let mut blocks: Vec<Vec<u8>> = Vec::new();
        blocks.push(copy_bytes(&self.iv));
        let mut t: usize = 0;
        while t < nb
            invariant
                t <= nb,
                blocks@.len() == t + 1,
                blocks@[0]@ == ivs,
                forall|b: int| 1 <= b <= t ==> (#[trigger] blocks@[b])@ == block_of(cs, b - 1),
            decreases nb - t,
        {
            let mut blk: Vec<u8> = Vec::new();
            let mut j: usize = 0;
            while j < 16
                invariant
                    t < nb,
                    j <= 16,
                    blk@.len() == j,
                    forall|j2: int| 0 <= j2 < j ==> blk@[j2] == cs[16 * t + j2],
                decreases 16 - j,
            {
                blk.push(self.cipher[16 * t + j]);
                j += 1;
            }
            assert(blk@ =~= block_of(cs, t as int));
            blocks.push(blk);
            t += 1;
        }
        assert(forall|b: int| 0 <= b <= nb ==> (#[trigger] blocks@[b])@.len() == 16);
        assert(forall|b: int|
            1 <= b <= nb ==> (#[trigger] blocks@[b])@ == pred_block(ivs, cs, b));
        assert(blocks@[0]@ == pred_block(ivs, cs, 0));

        // padding discovery against the last two blocks
        let ghost p_last = plain_block(key, blocks@[nb - 1 as int]@, blocks@[nb as int]@);
        proof {
            if feasible {
                assert(p_last == crate::model::last_plain(key, ivs, cs));
            }
        }
        let pad: usize = match determine_padding(&self.oracle, &blocks, &mut self.queries) {
            Some(p) => p,
            None => {
                proof {
                    assert(!feasible);
                }
                return Err(AttackError::InvariantViolated);
            },
        };
        assert(1 <= pad <= 16);
        assert(feasible ==> pad == p_last.last());

        // the working buffer, seeded with the announced padding of the last
        // block
        let mut m2 = zero_block();
        let mut j: usize = 16 - pad;
        while j < 16
            invariant
                16 - pad <= j <= 16,
                m2@.len() == 16,
                forall|j2: int| 16 - pad <= j2 < j ==> m2@[j2] == pad as u8,
            decreases 16 - j,
        {
            m2[j] = pad as u8;
            j += 1;
        }
        let mut known: usize = pad;
        assert(feasible ==> trailing_match(
            m2@,
            plain_block(key, blocks@[nb - 1 as int]@, blocks@[nb as int]@),
            known as int,
        ));

        let mut plaintext: Vec<u8> = Vec::new();
        let mut t: usize = nb;
        while t > 0
            invariant
                t <= nb,
                self.oracle.wf(),
                self.oracle.key() == key,
                self.iv@ == ivs,
                self.cipher@ == cs,
                m2@.len() == 16,
                known <= 16,
                t == nb ==> known == pad,
                t < nb ==> known == 0,
                t > 0 ==> (feasible ==> trailing_match(
                    m2@,
                    plain_block(key, blocks@[t - 1]@, blocks@[t as int]@),
                    known as int,
                )),
                plaintext@.len() == 16 * (nb - t),
                feasible ==> plaintext@ == cbc_plain(key, blocks@[t as int]@, cs.skip(16 * t)),
                feasible && plaintext@.len() > 0 ==> plaintext@.last() == pad as u8,
                self.queries as int <= q0 + 16 + (nb - t) * 4112,
            decreases t,
        {
            while known < 16
                invariant
                    1 <= t <= nb,
                    self.oracle.wf(),
                    self.oracle.key() == key,
                    self.iv@ == ivs,
                    self.cipher@ == cs,
                    m2@.len() == 16,
                    known <= 16,
                    feasible ==> trailing_match(
                        m2@,
                        plain_block(key, blocks@[t - 1]@, blocks@[t as int]@),
                        known as int,
                    ),
                    self.queries as int <= q0 + 16 + (nb - t) * 4112 + if known == 0 {
                        0int
                    } else {
                        2 + 256 * (known as int)
                    },
                decreases 16 - known,
            {
                let ghost p_t = plain_block(key, blocks@[t - 1]@, blocks@[t as int]@);
                let res = break_block_byte(
                    &self.oracle,
                    &blocks[t - 1],
                    &blocks[t],
                    &m2,
                    known,
                    &mut self.queries,
                );
                match res {
                    Some(v) => {
                        m2 = v;
                    },
                    None => {
                        proof {
                            assert(!feasible);
                            assert(16 * 257 * (cs.len() as int / 16) == nb * 4112)
                                by (nonlinear_arith)
                                requires
                                    cs.len() as int / 16 == nb,
                            ;
                        }
                        return Err(AttackError::InvariantViolated);
                    },
                }
                known = known + 1;
                proof {
                    if feasible {
                        assert(trailing_match(m2@, p_t, known as int));
                    }
                }
                reporter.report(&plaintext, &m2, known, blocks.len());
            }
            // the block is fully solved; move it to the front of the
            // recovered plaintext
            proof {
                if feasible {
                    assert(m2@ =~= plain_block(key, blocks@[t - 1]@, blocks@[t as int]@));
                }
            }
            let joined = prepend_block(&m2, &plaintext);
            plaintext = joined;
            proof {
                if feasible {
                    crate::model::lemma_cbc_plain_step(key, ivs, cs, t - 1);
                    assert(plaintext@ == cbc_plain(key, blocks@[t - 1]@, cs.skip(16 * (t - 1))));
                }
            }
            m2 = zero_block();
            known = 0;
            t -= 1;
        }
        proof {
            if feasible {
                assert(cs.skip(0) =~= cs);
                assert(plaintext@ == cbc_plain(key, ivs, cs));
                crate::model::lemma_cbc_plain_len(key, ivs, cs);
                crate::model::lemma_cbc_plain_last(key, ivs, cs);
                assert(cbc_plain(key, ivs, cs).last() == pad as u8);
            }
        }
        let cut = plaintext.len() - pad;
        plaintext.truncate(cut);
        proof {
            if feasible {
                assert(plaintext@ =~= strip_pad(cbc_plain(key, ivs, cs)));
            }
            assert(16 * 257 * (cs.len() as int / 16) == nb * 4112) by (nonlinear_arith)
                requires
                    cs.len() as int / 16 == nb,
            ;
        }
        Ok(plaintext)
    }

    /// Runs the whole attack without progress reporting. Same contract as
    /// `break_ciphertext_reporting`.
    pub fn break_ciphertext(&mut self) -> (r: Result<Vec<u8>, AttackError>)
        requires
            old(self).wf(),
        ensures
            final(self).wf(),
            final(self).key() == old(self).key(),
            final(self).iv_spec() == old(self).iv_spec(),
            final(self).cipher_spec() == old(self).cipher_spec(),
            final(self).queries() as int <= old(self).queries() as int + 16 + 16 * 257 * (old(
                self,
            ).cipher_spec().len() as int / 16),
            (r == Err::<Vec<u8>, AttackError>(AttackError::MalformedInput)) <==> !(old(
                self,
            ).iv_spec().len() == 16 && old(self).cipher_spec().len() > 0 && old(
                self,
            ).cipher_spec().len() % 16 == 0),
            !(old(self).iv_spec().len() == 16 && old(self).cipher_spec().len() > 0 && old(
                self,
            ).cipher_spec().len() % 16 == 0) ==> final(self).queries() == old(self).queries(),
            attack_feasible(old(self).key(), old(self).iv_spec(), old(self).cipher_spec())
                ==> r is Ok && r.unwrap()@ == strip_pad(
                cbc_plain(old(self).key(), old(self).iv_spec(), old(self).cipher_spec()),
            ),
    {
        let mut silent = SilentReporter;
        self.break_ciphertext_reporting(&mut silent)
    }
}

} // verus!
