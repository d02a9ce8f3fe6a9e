//! AES-128 in cipher block chaining mode, one sector at a time.

use aes::cipher::generic_array::GenericArray;
use aes::cipher::{BlockDecryptMut, KeyIvInit};
use aes::Aes128Dec;
use cbc::Decryptor;
use crate::iv::{generate_iv, iv_bytes, BLOCK_SIZE};
use vstd::prelude::*;

verus! {

/// The running state of one chain: `cbc::Decryptor` over `aes::Aes128Dec`.
///
/// Nothing inside it is visible to the verifier. What the contracts need of it
/// goes by two names, `chain_key` and `chain_value`.
#[verifier::external_body]
pub struct BlockChain {
    inner: Decryptor<Aes128Dec>,
}

/// What AES-128 decryption under `key` makes of one 16-byte `block`.
pub uninterp spec fn aes128_decrypt_block(key: Seq<u8>, block: Seq<u8>) -> Seq<u8>;

/// The key that a chain was made with.
pub uninterp spec fn chain_key(chain: BlockChain) -> Seq<u8>;

/// The value that the next block is combined with: the initialization vector
/// the chain was made with, or the last ciphertext block it has taken.
pub uninterp spec fn chain_value(chain: BlockChain) -> Seq<u8>;

/// Bytewise exclusive or of two 16-byte blocks.
pub open spec fn xor_block(a: Seq<u8>, b: Seq<u8>) -> Seq<u8> {
    Seq::new(16, |i: int| a[i] ^ b[i])
}

/// Calls `KeyIvInit::new` of `cbc::Decryptor<aes::Aes128Dec>`: the new chain
/// holds the given key, and its chaining value is the given vector.
#[verifier::external_body]
fn new_chain(key: &[u8; 16], iv: &[u8; 16]) -> (chain: BlockChain)
    ensures
        chain_key(chain) == key@,
        chain_value(chain) == iv@,
{
    BlockChain {
        inner: Decryptor::<Aes128Dec>::new(GenericArray::from_slice(key), GenericArray::from_slice(iv)),
    }
}

/// Calls `BlockDecryptMut::decrypt_block_mut` of `cbc::Decryptor` on the 16
/// bytes of `data` that start at `offset`: they become the AES-128 decryption
/// of what they were, combined by exclusive or with the chaining value, and
/// what they were becomes the chaining value. The rest of `data` and the key
/// stay as they are.
#[verifier::external_body]
fn decrypt_block_at(chain: &mut BlockChain, data: &mut [u8], offset: usize)
    requires
        offset + 16 <= old(data)@.len(),
    ensures
        chain_key(*final(chain)) == chain_key(*old(chain)),
        chain_value(*final(chain)) == old(data)@.subrange(offset as int, offset + 16),
        final(data)@ == old(data)@.subrange(0, offset as int) + xor_block(
            aes128_decrypt_block(
                chain_key(*old(chain)),
                old(data)@.subrange(offset as int, offset + 16),
            ),
            chain_value(*old(chain)),
        ) + old(data)@.subrange(offset + 16, old(data)@.len() as int),
{
    chain.inner.decrypt_block_mut(GenericArray::from_mut_slice(&mut data[offset..offset + 16]));
}

/// The plaintext of one ciphertext `block` whose predecessor in the chain is
/// `previous`.
pub open spec fn cbc_block(key: Seq<u8>, previous: Seq<u8>, block: Seq<u8>) -> Seq<u8> {
    xor_block(aes128_decrypt_block(key, block), previous)
}

/// Block `b` of `data`, counted in blocks of 16 bytes.
pub open spec fn block_at(data: Seq<u8>, b: int) -> Seq<u8> {
    data.subrange(16 * b, 16 * b + 16)
}

/// What block `b` of `data` is chained to: `iv` for the first block, the
/// ciphertext block before it for every other.
pub open spec fn previous_block(iv: Seq<u8>, data: Seq<u8>, b: int) -> Seq<u8> {
    if b == 0 {
        iv
    } else {
        block_at(data, b - 1)
    }
}

/// AES-128-CBC decryption of `data`, a whole number of blocks, as one chain
/// that starts at `iv`.
pub open spec fn cbc_decrypt(key: Seq<u8>, iv: Seq<u8>, data: Seq<u8>) -> Seq<u8> {
    Seq::new(
        data.len(),
        |i: int| cbc_block(key, previous_block(iv, data, i / 16), block_at(data, i / 16))[i % 16],
    )
}

/// Why bytes cannot be decrypted.
#[derive(Debug, Clone, Copy, PartialEq, Eq, Structural)]
pub enum CryptoError {
    /// The bytes are not a whole number of 16-byte blocks.
    PartialBlock,
}

/// Decrypts the sector with index `sector` in place.
///
/// The chain starts afresh at the sector's own initialization vector: nothing
/// is carried over from any other sector. Bytes that are not a whole number of
/// blocks are refused and left as they are.
pub fn decrypt_sector(key: &[u8; 16], sector: u64, sector_data: &mut [u8]) -> (result: Result<
    (),
    CryptoError,
>)
    ensures
        old(sector_data)@.len() % 16 == 0 ==> result is Ok && final(sector_data)@ == cbc_decrypt(
            key@,
            iv_bytes(sector),
            old(sector_data)@,
        ),
        old(sector_data)@.len() % 16 != 0 ==> result == Err::<(), CryptoError>(
            CryptoError::PartialBlock,
        ) && final(sector_data)@ == old(sector_data)@,
{
    let len = sector_data.len();
    if len % BLOCK_SIZE != 0 {
        return Err(CryptoError::PartialBlock);
    }
    let iv = generate_iv(sector);
    let mut chain = new_chain(key, &iv);
    let mut at: usize = 0;
    while at < len
        invariant
            at <= len,
            at % 16 == 0,
            len % 16 == 0,
            len == sector_data@.len(),
            len == old(sector_data)@.len(),
            iv@ == iv_bytes(sector),
            chain_key(chain) == key@,
            chain_value(chain) == previous_block(iv@, old(sector_data)@, at as int / 16),
            forall|i: int| at <= i < len ==> sector_data@[i] == old(sector_data)@[i],
            forall|i: int|
                0 <= i < at ==> sector_data@[i] == cbc_decrypt(key@, iv@, old(sector_data)@)[i],
        decreases len - at,
    {
        let ghost b = at as int / 16;
        assert(sector_data@.subrange(at as int, at + 16) =~= block_at(old(sector_data)@, b));
        decrypt_block_at(&mut chain, sector_data, at);
        assert forall|i: int| at <= i < at + 16 implies sector_data@[i] == cbc_decrypt(
            key@,
            iv@,
            old(sector_data)@,
        )[i] by {
            assert(i / 16 == b);
            assert(i % 16 == i - at);
        }
        at = at + BLOCK_SIZE;
    }
    assert(sector_data@ =~= cbc_decrypt(key@, iv_bytes(sector), old(sector_data)@));
    Ok(())
}

/// Encryption in cipher block chaining mode under a block function
/// `encrypt_block`: each block of `plain` is combined by exclusive or with the
/// ciphertext block before it, or with `iv` if it is the first, and the block
/// function is applied to that.
pub open spec fn cbc_encrypt_with(
    encrypt_block: spec_fn(Seq<u8>) -> Seq<u8>,
    iv: Seq<u8>,
    plain: Seq<u8>,
) -> Seq<u8>
    decreases plain.len(),
{
    if plain.len() < 16 {
        Seq::empty()
    } else {
        let before = cbc_encrypt_with(encrypt_block, iv, plain.take(plain.len() - 16));
        let previous = if before.len() < 16 {
            iv
        } else {
            before.skip(before.len() - 16)
        };
        before + encrypt_block(xor_block(plain.skip(plain.len() - 16), previous))
    }
}

proof fn lemma_xor_twice(a: Seq<u8>, b: Seq<u8>)
    requires
        a.len() == 16,
        b.len() == 16,
    ensures
        xor_block(xor_block(a, b), b) == a,
{
    assert forall|i: int| 0 <= i < 16 implies xor_block(xor_block(a, b), b)[i] == a[i] by {
        let x = a[i];
        let y = b[i];
        assert((x ^ y) ^ y == x) by (bit_vector);
    }
    assert(xor_block(xor_block(a, b), b) =~= a);
}

/// Decryption of the first blocks of a text is the start of the decryption of
/// the whole text.
proof fn lemma_cbc_decrypt_prefix(key: Seq<u8>, iv: Seq<u8>, data: Seq<u8>, cut: int)
    requires
        0 <= cut <= data.len(),
        cut % 16 == 0,
    ensures
        cbc_decrypt(key, iv, data.take(cut)) == cbc_decrypt(key, iv, data).take(cut),
{
    let part = cbc_decrypt(key, iv, data.take(cut));
    let whole = cbc_decrypt(key, iv, data);
    assert forall|i: int| 0 <= i < cut implies part[i] == whole[i] by {
        let b = i / 16;
        assert(16 * b + 16 <= cut);
        assert(block_at(data.take(cut), b) =~= block_at(data, b));
        if b > 0 {
            assert(block_at(data.take(cut), b - 1) =~= block_at(data, b - 1));
        }
    }
    assert(part =~= whole.take(cut));
}

/// The chaining of blocks loses nothing: where a block function undoes
/// AES-128 decryption under `key`, encrypting a decrypted text with it, from
/// the same initialization vector, gives the text back.
///
/// That AES-128 encryption is such a function is a fact about the cipher,
/// which this lemma takes as given.
pub proof fn lemma_chaining_round_trip(
    encrypt_block: spec_fn(Seq<u8>) -> Seq<u8>,
    key: Seq<u8>,
    iv: Seq<u8>,
    data: Seq<u8>,
)
    requires
        iv.len() == 16,
        data.len() % 16 == 0,
        forall|block: Seq<u8>|
            block.len() == 16 ==> (#[trigger] aes128_decrypt_block(key, block)).len() == 16
                && encrypt_block(aes128_decrypt_block(key, block)) == block,
    ensures
        cbc_encrypt_with(encrypt_block, iv, cbc_decrypt(key, iv, data)) == data,
    decreases data.len(),
{
    let plain = cbc_decrypt(key, iv, data);
    if data.len() >= 16 {
        let cut = data.len() - 16;
        let last = cut / 16;
        lemma_cbc_decrypt_prefix(key, iv, data, cut);
        lemma_chaining_round_trip(encrypt_block, key, iv, data.take(cut));
        let before = cbc_encrypt_with(encrypt_block, iv, plain.take(cut));
        assert(before == data.take(cut));
        let previous = if before.len() < 16 {
            iv
        } else {
            before.skip(before.len() - 16)
        };
        assert(previous =~= previous_block(iv, data, last));
        let cipher_block = block_at(data, last);
        let decrypted = aes128_decrypt_block(key, cipher_block);
        assert(plain.skip(cut) =~= xor_block(decrypted, previous)) by {
            assert forall|i: int| 0 <= i < 16 implies plain.skip(cut)[i] == xor_block(
                decrypted,
                previous,
            )[i] by {
                assert((cut + i) / 16 == last);
                assert((cut + i) % 16 == i);
            }
        }
        lemma_xor_twice(decrypted, previous);
        assert(data =~= data.take(cut) + cipher_block);
    }
}

} // verus!
