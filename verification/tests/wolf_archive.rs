use rmmodify::wolf::crypt::MsvcRand;
use rmmodify::wolf::db::from_bytes;
use rmmodify::wolf::dxa::{crc32, huffman_decode, key12_create, key7_create, lz_decode, DEFAULT_PASSWORD};

#[test]
fn crc32_known_value() {
    assert_eq!(crc32(b"123456789"), 0xCBF4_3926);
    assert_eq!(crc32(b""), 0);
}

#[test]
fn key7_default_matches_reference() {
    assert_eq!(key7_create(&DEFAULT_PASSWORD), [0xFC, 0xD9, 0x6E, 0xB0, 0x23, 0xB3, 0xD9]);
}

#[test]
fn key12_wolf_editor_220() {
    let password: [u8; 12] = [0x38, 0x50, 0x40, 0x28, 0x72, 0x4F, 0x21, 0x70, 0x3B, 0x73, 0x35, 0x38];
    assert_eq!(
        key12_create(&password),
        [0xC7, 0x05, 0xCA, 0x7D, 0x8D, 0xE3, 0xDE, 0xF1, 0xD9, 0x0C, 0x85, 0xF4]
    );
}

#[test]
fn key12_of_empty_password_uses_fill_byte() {
    // every position starts from 0xAA
    let k = key12_create(b"");
    assert_eq!(k[0], !0xAA);
    assert_eq!(k[2], 0xAA ^ 0x8A);
    assert_eq!(k[1], 0xAAu8.rotate_right(4));
    assert_eq!(k[8], 0xAAu8.rotate_left(3));
}

#[test]
fn key7_pads_short_passwords() {
    // a password under four bytes gets the default password appended
    let mut padded = b"ab".to_vec();
    padded.extend_from_slice(&DEFAULT_PASSWORD);
    assert_eq!(key7_create(b"ab"), key7_create(&padded));
}

#[test]
fn lz_literals_and_backref() {
    let mut lit = Vec::new();
    lit.extend_from_slice(&3u32.to_le_bytes());
    lit.extend_from_slice(&(3 + 9u32).to_le_bytes());
    lit.push(0xFF);
    lit.extend_from_slice(b"ABC");
    assert_eq!(lz_decode(&lit).unwrap(), b"ABC");

    let mut rep = Vec::new();
    rep.extend_from_slice(&5u32.to_le_bytes());
    rep.extend_from_slice(&(4 + 9u32).to_le_bytes());
    rep.push(0xFF);
    rep.push(b'A');
    rep.push(0xFF);
    rep.push(0x00);
    rep.push(0x00);
    assert_eq!(lz_decode(&rep).unwrap(), b"AAAAA");
}

#[test]
fn lz_overlapping_run() {
    let mut rep = Vec::new();
    rep.extend_from_slice(&8u32.to_le_bytes());
    rep.extend_from_slice(&(5 + 9u32).to_le_bytes());
    rep.push(0x00);
    rep.extend_from_slice(b"AB");
    rep.push(0x00);
    rep.push(0x11);
    rep.push(0x01);
    assert_eq!(lz_decode(&rep).unwrap(), b"ABABABAB");
}

#[test]
fn lz_errors() {
    // too short
    assert!(lz_decode(&[0u8; 8]).is_err());
    // size field under 9
    let mut bad = Vec::new();
    bad.extend_from_slice(&1u32.to_le_bytes());
    bad.extend_from_slice(&8u32.to_le_bytes());
    bad.push(0xFF);
    assert!(lz_decode(&bad).is_err());
    // back reference before the start
    let mut far = Vec::new();
    far.extend_from_slice(&5u32.to_le_bytes());
    far.extend_from_slice(&(4 + 9u32).to_le_bytes());
    far.push(0xFF);
    far.push(b'A');
    far.push(0xFF);
    far.push(0x00);
    far.push(0x05);
    assert!(lz_decode(&far).is_err());
    // output shorter than announced
    let mut short = Vec::new();
    short.extend_from_slice(&4u32.to_le_bytes());
    short.extend_from_slice(&(3 + 9u32).to_le_bytes());
    short.push(0xFF);
    short.extend_from_slice(b"ABC");
    assert!(lz_decode(&short).is_err());
    // the control byte twice is one literal control byte
    let mut esc = Vec::new();
    esc.extend_from_slice(&2u32.to_le_bytes());
    esc.extend_from_slice(&(3 + 9u32).to_le_bytes());
    esc.push(0x7E);
    esc.extend_from_slice(&[0x7E, 0x7E, b'z']);
    assert_eq!(lz_decode(&esc).unwrap(), vec![0x7E, b'z']);
}

#[test]
fn huffman_uniform_weights() {
    let payload: &[u8] = b"ABC";
    let mut bits: Vec<bool> = Vec::new();
    let write_val = |bits: &mut Vec<bool>, val: u64, n: u32| {
        for i in (0..n).rev() {
            bits.push((val >> i) & 1 == 1);
        }
    };
    write_val(&mut bits, 7, 6);
    write_val(&mut bits, payload.len() as u64, 8);
    write_val(&mut bits, 7, 6);
    write_val(&mut bits, 99, 8);
    for i in 0..256u32 {
        write_val(&mut bits, 0, 3);
        write_val(&mut bits, 0, 1);
        write_val(&mut bits, if i == 0 { 1 } else { 0 }, 2);
    }
    while bits.len() % 8 != 0 {
        bits.push(false);
    }
    let mut src = vec![0u8; bits.len().div_ceil(8)];
    for (i, b) in bits.iter().enumerate() {
        if *b {
            src[i / 8] |= 0x80 >> (i % 8);
        }
    }
    for &b in payload {
        let mut rev = 0u8;
        for j in 0..8 {
            rev |= ((b >> (7 - j)) & 1) << j;
        }
        src.push(rev);
    }
    assert_eq!(huffman_decode(&src).expect("decodes"), payload);
}

#[test]
fn huffman_errors_and_empty() {
    assert!(huffman_decode(&[]).is_err());
    // width code 0 → 1-bit sizes, both zero, then a table cut short
    assert!(huffman_decode(&[0x00, 0x00]).is_err());
}

#[test]
fn msvc_rand_stream() {
    let mut r = MsvcRand::new(0x2B);
    let mut seq = Vec::new();
    for _ in 0..8 {
        seq.push(r.rand() >> 12);
    }
    let expected: Vec<u32> = vec![0, 2, 0, 5, 6, 4, 2, 1];
    assert_eq!(seq, expected);
}

#[test]
fn brute_force_seed_roundtrip() {
    let mut plain = Vec::new();
    plain.extend_from_slice(&2u32.to_le_bytes());
    for _ in 0..2 {
        plain.extend_from_slice(&1u32.to_le_bytes());
        plain.push(0);
        plain.extend_from_slice(&0u32.to_le_bytes());
        plain.extend_from_slice(&0u32.to_le_bytes());
        plain.extend_from_slice(&1u32.to_le_bytes());
        plain.push(0);
        plain.extend_from_slice(&0u32.to_le_bytes());
        plain.extend_from_slice(&0u32.to_le_bytes());
        plain.extend_from_slice(&0u32.to_le_bytes());
        plain.extend_from_slice(&0u32.to_le_bytes());
        plain.extend_from_slice(&0u32.to_le_bytes());
    }

    let seed = 0x7Bu8;
    let mut enc = plain.clone();
    let mut r = MsvcRand::new((seed as i8) as u32);
    for b in enc.iter_mut() {
        *b ^= r.rand() as u8;
    }
    let h = u32::from_le_bytes([enc[0], enc[1], enc[2], enc[3]]);
    assert!(h > 0xFF, "encrypted header should be over 0xFF (0x{h:x})");

    let proj = from_bytes(&enc).expect("brute force and parse");
    assert_eq!(proj.types.len(), 2);
    assert_eq!(proj.types[0].name, "");
    assert!(proj.types[0].fields.is_empty());
    let proj2 = from_bytes(&plain).expect("plain parse");
    assert_eq!(proj2.types.len(), 2);
}

#[test]
fn invalid_inputs() {
    assert!(from_bytes(&[0u8; 3]).is_err());
    assert!(from_bytes(&[0xFF; 64]).is_err());
}

#[test]
fn project_names_are_read() {
    let mut d = Vec::new();
    d.extend_from_slice(&1u32.to_le_bytes());
    let put_str = |d: &mut Vec<u8>, s: &[u8]| {
        d.extend_from_slice(&(s.len() as u32 + 1).to_le_bytes());
        d.extend_from_slice(s);
        d.push(0);
    };
    put_str(&mut d, b"Items");
    d.extend_from_slice(&2u32.to_le_bytes());
    put_str(&mut d, b"price");
    put_str(&mut d, b"weight");
    d.extend_from_slice(&1u32.to_le_bytes());
    put_str(&mut d, b"Potion");
    put_str(&mut d, b"");
    d.extend_from_slice(&3u32.to_le_bytes()); // field type list size: two bytes and one more
    d.extend_from_slice(&[1, 2, 9]);
    for _ in 0..4 {
        d.extend_from_slice(&0u32.to_le_bytes());
    }
    let p = from_bytes(&d).expect("parse");
    assert_eq!(p.types.len(), 1);
    assert_eq!(p.types[0].name, "Items");
    assert_eq!(p.types[0].fields, vec!["price".to_string(), "weight".to_string()]);
    assert_eq!(p.types[0].data_names, vec!["Potion".to_string()]);
    // the same file cut short is refused
    assert!(from_bytes(&d[..d.len() - 1]).is_err());
}
