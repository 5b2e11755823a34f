use rmmodify::wolf::crypt::{decrypt_bytes, encrypt_bytes, fix_checksum, verify_checksum};
use rmmodify::wolf::save::WolfSave;

fn sample(n: usize) -> Vec<u8> {
    (0..n).map(|i| (i as u8).wrapping_mul(37).wrapping_add(11)).collect()
}

#[test]
fn crypt_is_its_own_inverse() {
    let plain = sample(200);
    let mut data = plain.clone();
    encrypt_bytes(&mut data);
    assert_ne!(data, plain);
    // the seed bytes 0, 3 and 9 are never changed
    assert_eq!((data[0], data[3], data[9]), (plain[0], plain[3], plain[9]));
    decrypt_bytes(&mut data);
    assert_eq!(data, plain);
}

#[test]
fn crypt_leaves_short_data_alone() {
    let plain = sample(0x14);
    let mut data = plain.clone();
    decrypt_bytes(&mut data);
    assert_eq!(data, plain);
}

#[test]
fn checksum_is_the_byte_sum_after_the_header() {
    let mut data = vec![0u8; 0x14];
    data.extend_from_slice(&[200, 100, 7]);
    assert!(!verify_checksum(&data));
    fix_checksum(&mut data);
    // (200 + 100 + 7) % 256 = 51
    assert_eq!(data[2], 51);
    assert!(verify_checksum(&data));
    let mut tiny = vec![1u8, 2];
    fix_checksum(&mut tiny);
    assert_eq!(tiny, vec![1, 2]);
    assert!(!verify_checksum(&tiny));
}

#[test]
fn wolf_save_refuses_bad_files() {
    assert!(WolfSave::from_bytes(&[0u8; 10]).is_err());
    // long enough, but the byte after the header does not decrypt to 0x19
    let mut data = vec![0u8; 0x30];
    data[0x14] = 0x18;
    let mut enc = data.clone();
    encrypt_bytes(&mut enc);
    assert!(WolfSave::from_bytes(&enc).is_err());
}
