use rmmodify::marshal::rgss3a::{Archive, RGSS_MAGIC};

fn u32_le(v: u32) -> [u8; 4] {
    v.to_le_bytes()
}

fn step(m: u32) -> u32 {
    m.wrapping_mul(7).wrapping_add(3)
}

fn next_magic(m: &mut u32) -> u32 {
    let old = *m;
    *m = step(*m);
    old
}

/// The body stream of the format (the same XOR encrypts and decrypts).
fn encrypt_body(raw: &[u8], start_magic: u32) -> Vec<u8> {
    let mut m = start_magic;
    let mut out = Vec::new();
    for (j, &b) in raw.iter().enumerate() {
        if j % 4 == 0 && j > 0 {
            m = step(m);
        }
        out.push(b ^ (m >> (8 * (j % 4))) as u8);
    }
    out
}

fn make_v3() -> (Vec<u8>, Vec<(String, Vec<u8>)>) {
    let raw = 0x12345678u32;
    let base = raw.wrapping_mul(9).wrapping_add(3);
    let name1 = "Graphics/图标.png";
    let name1_bytes = encoding_rs::GBK.encode(name1).0.into_owned();
    let files: Vec<(Vec<u8>, Vec<u8>)> = vec![
        (b"Data/Actors.rvdata2".to_vec(), b"\x04\x08[i\x0aHello".to_vec()),
        (name1_bytes.clone(), vec![0x00, 0x11, 0x22, 0x33, 0x44, 0x55, 0x66, 0x77, 0x88]),
    ];
    let names = ["Data/Actors.rvdata2".to_string(), name1.to_string()];
    let dir_len: usize = files.iter().map(|(n, _)| 16 + n.len()).sum();
    let mut body_off = 8 + 4 + dir_len + 4;
    let mut dir = Vec::new();
    let mut body = Vec::new();
    let mut expect = Vec::new();
    for (idx, (name, data)) in files.iter().enumerate() {
        let offset = body_off as u32;
        let magic = 0x55667788u32.wrapping_add(idx as u32);
        dir.extend_from_slice(&u32_le(offset ^ base));
        dir.extend_from_slice(&u32_le(data.len() as u32 ^ base));
        dir.extend_from_slice(&u32_le(magic ^ base));
        dir.extend_from_slice(&u32_le(name.len() as u32 ^ base));
        for (i, b) in name.iter().enumerate() {
            dir.push(b ^ (base >> (8 * (i % 4))) as u8);
        }
        body.extend_from_slice(&encrypt_body(data, magic));
        expect.push((names[idx].clone(), data.clone()));
        body_off += data.len();
    }
    dir.extend_from_slice(&u32_le(0 ^ base));
    let mut out = Vec::new();
    out.extend_from_slice(b"RGSSAD\0\x03");
    out.extend_from_slice(&u32_le(raw));
    out.extend_from_slice(&dir);
    out.extend_from_slice(&body);
    (out, expect)
}

#[test]
fn v3_roundtrip() {
    let (bytes, expect) = make_v3();
    let arch = Archive::parse(&bytes).expect("parse");
    assert_eq!(arch.version, 3);
    assert_eq!(arch.entries().len(), 2);
    let got = arch.unpack_all();
    assert_eq!(got, expect);
}

#[test]
fn v2_roundtrip() {
    let file_data: Vec<u8> = b"\x04\x08[\x05i\x02i\x05".to_vec();
    let name = "Data/Map001.rvdata";
    let mut magic = RGSS_MAGIC;
    let mut dir = Vec::new();
    dir.extend_from_slice(&u32_le((name.len() as u32) ^ next_magic(&mut magic)));
    for b in name.bytes() {
        dir.push(b ^ (next_magic(&mut magic) & 0xFF) as u8);
    }
    dir.extend_from_slice(&u32_le((file_data.len() as u32) ^ next_magic(&mut magic)));
    let start_magic = magic;
    let mut out = Vec::new();
    out.extend_from_slice(b"RGSSAD\0\x02");
    out.extend_from_slice(&dir);
    out.extend_from_slice(&encrypt_body(&file_data, start_magic));
    let arch = Archive::parse(&out).expect("parse v2");
    assert_eq!(arch.version, 2);
    assert_eq!(arch.entries().len(), 1);
    assert_eq!(arch.entries()[0].path, name);
    assert_eq!(arch.entries()[0].size, file_data.len());
    let got = arch.unpack_entry(0).expect("decrypt");
    assert_eq!(got, file_data);
}

#[test]
fn archive_header_and_version_checked() {
    assert!(Archive::parse(b"RGSSAX\0\x03xxxx").is_err());
    assert!(Archive::parse(b"RGSSAD\0\x04xxxxxxxx").is_err());
    assert!(Archive::parse(b"RGSSAD\0").is_err());
    // a version 1 archive with no entry at all
    let arch = Archive::parse(b"RGSSAD\0\x01\x00").expect("empty v1");
    assert_eq!(arch.entries().len(), 0);
    assert!(arch.unpack_entry(0).is_none());
}

#[test]
fn backslashes_become_slashes_and_bodies_out_of_range_are_refused() {
    let name = "Data\\Map.rvdata";
    let mut magic = RGSS_MAGIC;
    let mut dir = Vec::new();
    dir.extend_from_slice(&u32_le((name.len() as u32) ^ next_magic(&mut magic)));
    for b in name.bytes() {
        dir.push(b ^ (next_magic(&mut magic) & 0xFF) as u8);
    }
    // claims 100 body bytes, only 3 follow
    dir.extend_from_slice(&u32_le(100 ^ next_magic(&mut magic)));
    let mut out = Vec::new();
    out.extend_from_slice(b"RGSSAD\0\x01");
    out.extend_from_slice(&dir);
    out.extend_from_slice(&[1, 2, 3]);
    assert!(Archive::parse(&out).is_err());

    let mut magic = RGSS_MAGIC;
    let mut dir = Vec::new();
    dir.extend_from_slice(&u32_le((name.len() as u32) ^ next_magic(&mut magic)));
    for b in name.bytes() {
        dir.push(b ^ (next_magic(&mut magic) & 0xFF) as u8);
    }
    dir.extend_from_slice(&u32_le(3 ^ next_magic(&mut magic)));
    let start = magic;
    let mut out = Vec::new();
    out.extend_from_slice(b"RGSSAD\0\x01");
    out.extend_from_slice(&dir);
    out.extend_from_slice(&encrypt_body(&[9, 8, 7], start));
    let arch = Archive::parse(&out).unwrap();
    assert_eq!(arch.entries()[0].path, "Data/Map.rvdata");
    assert_eq!(arch.unpack_entry(0).unwrap(), vec![9, 8, 7]);
}
