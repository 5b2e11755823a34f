use rmmodify::icon::{blob, blob_len, ico_bytes, ICON_SIZES};

fn test_images() -> Vec<Vec<u8>> {
    let mut images = Vec::new();
    for (k, &s) in ICON_SIZES.iter().enumerate() {
        let n = (s * s * 4) as usize;
        images.push((0..n).map(|i| (i as u8).wrapping_add(k as u8)).collect());
    }
    images
}

#[test]
fn ico_header_is_valid() {
    let b = ico_bytes(&test_images());
    // ICONDIR: reserved 0, type 1, seven entries
    assert_eq!(&b[0..2], &[0, 0]);
    assert_eq!(&b[2..4], &[1, 0]);
    assert_eq!(u16::from_le_bytes([b[4], b[5]]), 7);
    // entry 0 (16x16): its picture starts right after the directory
    let size = u32::from_le_bytes(b[14..18].try_into().unwrap());
    let off = u32::from_le_bytes(b[18..22].try_into().unwrap());
    assert!(size > 16 * 16 * 4 && off == 6 + 16 * 7);
    // the 256 entry: width and height bytes are 0
    let e6 = 6 + 16 * 6;
    assert_eq!(b[e6], 0);
    assert_eq!(b[e6 + 1], 0);
    // offsets are consecutive and the last picture ends the file
    let last_size = u32::from_le_bytes(b[e6 + 8..e6 + 12].try_into().unwrap());
    let last_off = u32::from_le_bytes(b[e6 + 12..e6 + 16].try_into().unwrap());
    let expected_last_off = 6 + 16 * 7
        + blob_len(16) + blob_len(24) + blob_len(32) + blob_len(48) + blob_len(64) + blob_len(128);
    assert_eq!(last_off, expected_last_off, "last entry follows all earlier pictures");
    assert_eq!(b.len() as u32, last_off + last_size, "pictures run to the end of the file");
}

#[test]
fn blob_len_formula() {
    // 40-byte header + pixels + AND mask rounded up to 32 bits per row
    assert_eq!(blob_len(16), 40 + 16 * 16 * 4 + 4 * 16);
    assert_eq!(blob_len(48), 40 + 48 * 48 * 4 + 8 * 48);
    assert_eq!(blob_len(256), 40 + 256 * 256 * 4 + 32 * 256);
}

#[test]
fn blob_is_bottom_up_bgra() {
    // a 1x... picture is not an icon size, but any s from 1 works
    let rgba: Vec<u8> = vec![
        1, 2, 3, 4, 5, 6, 7, 8, // top row
        9, 10, 11, 12, 13, 14, 15, 16, // bottom row
    ];
    let b = blob(2, &rgba);
    assert_eq!(b.len() as u32, blob_len(2));
    assert_eq!(&b[0..4], &40u32.to_le_bytes());
    assert_eq!(&b[4..8], &2u32.to_le_bytes());
    assert_eq!(&b[8..12], &4u32.to_le_bytes());
    // bottom row first, each pixel as B, G, R, A
    assert_eq!(&b[40..48], &[11, 10, 9, 12, 15, 14, 13, 16]);
    assert_eq!(&b[48..56], &[3, 2, 1, 4, 7, 6, 5, 8]);
    assert!(b[56..].iter().all(|&x| x == 0));
}
