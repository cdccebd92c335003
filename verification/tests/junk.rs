use nod::crypt::{decrypt_sector, SECTOR_IV_OFFSET};
use nod::disc::{HASHES_SIZE, SECTOR_SIZE};
use nod::lfg::LaggedFibonacci;

fn junk(disc_id: [u8; 4], disc_num: u8, len: usize, offset: u64) -> Vec<u8> {
    let mut buf = vec![0u8; len];
    LaggedFibonacci::default().fill_sector_chunked(&mut buf, disc_id, disc_num, offset);
    buf
}

#[test]
fn known_junk_data() {
    assert_eq!(
        junk(*b"GALE", 0, 16, 0x600000),
        [
            0xE9, 0x47, 0x67, 0xBD, 0x41, 0x50, 0x4D, 0x5D, 0x61, 0x48, 0xB1, 0x99, 0xA0, 0x12,
            0x0C, 0xBA
        ]
    );
    assert_eq!(
        junk(*b"GALE", 0, 16, 0x608000),
        [
            0xE2, 0xBB, 0xBD, 0x77, 0xDA, 0xB2, 0x22, 0x42, 0x1C, 0x0C, 0x0B, 0xFC, 0xAC, 0x06,
            0xEA, 0xD0
        ]
    );
}

#[test]
fn junk_data_continues_across_sectors() {
    let all = junk(*b"GALE", 0, 0x9000, 0x600000);
    assert_eq!(&all[0x8000..0x8010], &junk(*b"GALE", 0, 16, 0x608000)[..]);
    assert_eq!(&all[0x7FF0..0x8010], &junk(*b"GALE", 0, 32, 0x607FF0)[..]);
    assert_eq!(&all[2100..2200], &junk(*b"GALE", 0, 100, 0x600000 + 2100)[..]);
}

#[test]
fn junk_data_depends_on_id_number_and_offset() {
    let a = junk(*b"GALE", 0, 64, 0);
    assert_ne!(a, junk(*b"GALP", 0, 64, 0));
    assert_ne!(a, junk(*b"GALE", 1, 64, 0));
    assert_ne!(a, junk(*b"GALE", 0, 64, 0x8000));
}

#[test]
fn junk_data_is_recognised() {
    let mut buf = junk(*b"RSPE", 3, 0x8100, 0x7F80);
    let mut lfg = LaggedFibonacci::default();
    assert_eq!(lfg.check_sector_chunked(&buf, *b"RSPE", 3, 0x7F80), buf.len());
    // What an earlier call left behind does not show.
    assert_eq!(lfg.check_sector_chunked(&buf, *b"RSPE", 3, 0x7F80), buf.len());
    buf[0x80A0] ^= 0xFF;
    assert_eq!(lfg.check_sector_chunked(&buf, *b"RSPE", 3, 0x7F80), 0x80A0);
    assert_eq!(lfg.check_sector_chunked(&[], *b"RSPE", 3, 0x7F80), 0);
}

/// Examples of NIST SP 800-38A for AES-128 in ECB and CBC mode.
#[test]
fn known_decryption() {
    let key = [
        0x2B, 0x7E, 0x15, 0x16, 0x28, 0xAE, 0xD2, 0xA6, 0xAB, 0xF7, 0x15, 0x88, 0x09, 0xCF, 0x4F,
        0x3C,
    ];
    let plain = [
        0x6B, 0xC1, 0xBE, 0xE2, 0x2E, 0x40, 0x9F, 0x96, 0xE9, 0x3D, 0x7E, 0x11, 0x73, 0x93, 0x17,
        0x2A,
    ];
    let mut sector = vec![0u8; SECTOR_SIZE];
    sector[..16].copy_from_slice(&[
        0x3A, 0xD7, 0x7B, 0xB4, 0x0D, 0x7A, 0x36, 0x60, 0xA8, 0x9E, 0xCA, 0xF3, 0x24, 0x66, 0xEF,
        0x97,
    ]);
    for i in 0..16 {
        sector[SECTOR_IV_OFFSET + i] = i as u8;
    }
    sector[HASHES_SIZE..HASHES_SIZE + 32].copy_from_slice(&[
        0x76, 0x49, 0xAB, 0xAC, 0x81, 0x19, 0xB2, 0x46, 0xCE, 0xE9, 0x8E, 0x9B, 0x12, 0xE9, 0x19,
        0x7D, 0x50, 0x86, 0xCB, 0x9B, 0x50, 0x72, 0x19, 0xEE, 0x95, 0xDB, 0x11, 0x3A, 0x91, 0x76,
        0x78, 0xB2,
    ]);
    let out = decrypt_sector(&sector, &key);
    assert_eq!(out.len(), SECTOR_SIZE);
    assert_eq!(&out[..16], &plain);
    assert_eq!(&out[HASHES_SIZE..HASHES_SIZE + 16], &plain);
    assert_eq!(
        &out[HASHES_SIZE + 16..HASHES_SIZE + 32],
        &[
            0xAE, 0x2D, 0x8A, 0x57, 0x1E, 0x03, 0xAC, 0x9C, 0x9E, 0xB7, 0x6F, 0xAC, 0x45, 0xAF,
            0x8E, 0x51
        ]
    );
}
