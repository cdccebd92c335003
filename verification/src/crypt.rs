//! Decryption of the sectors of a Wii partition.

use aes::Aes128;
use cbc::cipher::block_padding::NoPadding;
use cbc::cipher::{BlockDecryptMut, KeyIvInit};
use cbc::Decryptor;
use vstd::prelude::*;
use vstd::slice::slice_subrange;

use crate::disc::{HASHES_SIZE, SECTOR_SIZE};

verus! {

/// Offset within an encrypted sector of the initialization vector of its user data.
pub const SECTOR_IV_OFFSET: usize = 0x3D0;

/// What decrypting `data` with AES-128 in CBC mode gives.
pub uninterp spec fn aes_128_cbc_decrypted(key: Seq<u8>, iv: Seq<u8>, data: Seq<u8>) -> Seq<u8>;

/// Decrypts with `cbc::Decryptor<aes::Aes128>`, through `decrypt_padded_mut` without padding.
///
/// The contract claims that the result depends on the key, the initialization vector and the
/// data alone, and that it is as long as the data. It does not say what AES computes. A length
/// that is no multiple of the block size is an error of the outside function, hence the
/// condition.
#[verifier::external_body]
fn aes_128_cbc_decrypt(key: &[u8; 16], iv: &[u8; 16], data: &[u8]) -> (out: Vec<u8>)
    requires
        data@.len() % 16 == 0,
    ensures
        out@ == aes_128_cbc_decrypted(key@, iv@, data@),
        out@.len() == data@.len(),
{
    let mut out = data.to_vec();
    Decryptor::<Aes128>::new(key.into(), iv.into())
        .decrypt_padded_mut::<NoPadding>(&mut out)
        .unwrap();
    out
}

/// The decrypted form of a sector: the hash block under a zero initialization vector, then the
/// user data under the one that is stored in the encrypted hash block.
pub open spec fn decrypted_sector(sector: Seq<u8>, key: Seq<u8>) -> Seq<u8> {
    aes_128_cbc_decrypted(key, Seq::new(16, |i: int| 0u8), sector.subrange(0, 0x400))
        + aes_128_cbc_decrypted(
        key,
        sector.subrange(0x3D0, 0x3E0),
        sector.subrange(0x400, 0x8000),
    )
}

/// Decrypts one sector with the partition's title key.
pub fn decrypt_sector(sector: &[u8], key: &[u8; 16]) -> (out: Vec<u8>)
    requires
        sector@.len() == SECTOR_SIZE,
    ensures
        out@ == decrypted_sector(sector@, key@),
        out@.len() == SECTOR_SIZE,
{
    let zero: [u8; 16] = [0u8; 16];
    assert(zero@ =~= Seq::new(16, |i: int| 0u8));
    let mut out: Vec<u8> = aes_128_cbc_decrypt(key, &zero, slice_subrange(sector, 0, HASHES_SIZE));

    let mut iv: [u8; 16] = [0u8; 16];
    let mut i: usize = 0;
    while i < 16
        invariant
            i <= 16,
            sector@.len() == 0x8000,
            forall|k: int| 0 <= k < i ==> #[trigger] iv@[k] == sector@[0x3D0 + k],
        decreases 16 - i,
    {
        iv[i] = sector[SECTOR_IV_OFFSET + i];
        i += 1;
    }
    assert(iv@ =~= sector@.subrange(0x3D0, 0x3E0));
    let mut data: Vec<u8> = aes_128_cbc_decrypt(
        key,
        &iv,
        slice_subrange(sector, HASHES_SIZE, SECTOR_SIZE),
    );
    out.append(&mut data);
    out
}

} // verus!
