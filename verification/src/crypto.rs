//! AES-128, through the `aes` and `cbc` crates.

use aes::cipher::block_padding::NoPadding;
use aes::cipher::{BlockDecryptMut, BlockEncrypt, BlockEncryptMut, KeyInit, KeyIvInit};
use vstd::prelude::*;

verus! {

/// The error of a failed CBC decryption.
#[verifier::external_type_specification]
#[verifier::external_body]
pub struct ExUnpadError(aes::cipher::block_padding::UnpadError);

/// The error of a failed CBC encryption.
#[verifier::external_type_specification]
#[verifier::external_body]
pub struct ExPadError(aes::cipher::inout::PadError);

/// What AES-128 makes of one block under a key.
pub uninterp spec fn aes128_block(key: Seq<u8>, block: Seq<u8>) -> Seq<u8>;

/// The block that AES-128 makes `block` of under a key.
pub uninterp spec fn aes128_unblock(key: Seq<u8>, block: Seq<u8>) -> Seq<u8>;

/// A block with the bits flipped that are set in another.
pub open spec fn flipped(block: Seq<u8>, by: Seq<u8>) -> Seq<u8> {
    Seq::new(16, |i: int| block[i] ^ by[i])
}

/// The ciphertext of AES-128-CBC plaintext, without padding: every block is flipped by the
/// ciphertext before it, the first one by the IV, and then encrypted.
#[verifier::opaque]
pub open spec fn aes128_cbc_cipher(key: Seq<u8>, iv: Seq<u8>, data: Seq<u8>) -> Seq<u8>
    decreases data.len(),
{
    if data.len() < 16 {
        Seq::empty()
    } else {
        let first = aes128_block(key, flipped(data.take(16), iv));
        first + aes128_cbc_cipher(key, first, data.skip(16))
    }
}

/// The plaintext of AES-128-CBC ciphertext, without unpadding: every block is decrypted and
/// then flipped by the ciphertext before it, the first one by the IV.
#[verifier::opaque]
pub open spec fn aes128_cbc_plain(key: Seq<u8>, iv: Seq<u8>, data: Seq<u8>) -> Seq<u8>
    decreases data.len(),
{
    if data.len() < 16 {
        Seq::empty()
    } else {
        flipped(aes128_unblock(key, data.take(16)), iv) + aes128_cbc_plain(
            key,
            data.take(16),
            data.skip(16),
        )
    }
}

/// `aes::Aes128::encrypt_block`: the block under the key. What the cipher computes is
/// left to the name [`aes128_block`]; [`aes128_unblock`] stands for the way back.
#[verifier::external_body]
pub(crate) fn aes128_encrypt_block(key: &[u8; 16], block: &[u8; 16]) -> (out: [u8; 16])
    ensures
        out@ == aes128_block(key@, block@),
        aes128_unblock(key@, out@) == block@,
{
    let mut out = aes::Block::from(*block);
    aes::Aes128::new(key.into()).encrypt_block(&mut out);
    out.into()
}

/// `cbc::Decryptor::decrypt_padded_mut` with `NoPadding`: decrypts whole blocks and keeps
/// every byte. It fails exactly on data that is not made of whole blocks.
#[verifier::external_body]
pub(crate) fn aes128_cbc_decrypt(data: &[u8], key: &[u8; 16], iv: &[u8; 16]) -> (r: Result<
    Vec<u8>,
    aes::cipher::block_padding::UnpadError,
>)
    ensures
        r is Ok <==> data@.len() % 16 == 0,
        r matches Ok(out) ==> out@ == aes128_cbc_plain(key@, iv@, data@) && out@.len()
            == data@.len(),
{
    let mut out = data.to_vec();
    let decryptor = cbc::Decryptor::<aes::Aes128>::new(key.into(), iv.into());
    decryptor.decrypt_padded_mut::<NoPadding>(&mut out)?;
    Ok(out)
}

/// `cbc::Encryptor::encrypt_padded_mut` with `NoPadding`: encrypts whole blocks and adds
/// nothing. It fails exactly on data that is not made of whole blocks. Decrypting the
/// ciphertext gives the data back.
#[verifier::external_body]
pub(crate) fn aes128_cbc_encrypt(data: &[u8], key: &[u8; 16], iv: &[u8; 16]) -> (r: Result<
    Vec<u8>,
    aes::cipher::inout::PadError,
>)
    ensures
        r is Ok <==> data@.len() % 16 == 0,
        r matches Ok(out) ==> out@ == aes128_cbc_cipher(key@, iv@, data@) && out@.len()
            == data@.len() && aes128_cbc_plain(key@, iv@, out@) == data@,
{
    let mut out = data.to_vec();
    let encryptor = cbc::Encryptor::<aes::Aes128>::new(key.into(), iv.into());
    encryptor.encrypt_padded_mut::<NoPadding>(&mut out, data.len())?;
    Ok(out)
}

} // verus!
