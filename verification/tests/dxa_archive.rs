use std::collections::HashMap;

use rmmodify::wolf::archive::{key_conv, Archive, ATTR_DIRECTORY, FLAG_NO_HEAD_PRESS, WOLF_PASSWORD_220};
use rmmodify::wolf::dxa::{key12_create, key7_create, DEFAULT_PASSWORD};

/// Appends a name record to the name table; its address.
fn add_name(name_tbl: &mut Vec<u8>, map: &mut HashMap<String, u64>, s: &str) -> u64 {
    if let Some(&off) = map.get(s) {
        return off;
    }
    let off = name_tbl.len() as u64;
    let up: Vec<u8> = s.bytes().map(|b| b.to_ascii_uppercase()).collect();
    let pad = (up.len() + 1).div_ceil(4) * 4;
    name_tbl.extend_from_slice(&((pad / 4) as u16).to_le_bytes());
    name_tbl.extend_from_slice(&0u16.to_le_bytes());
    let mut blk = up.clone();
    blk.push(0);
    blk.resize(pad, 0);
    name_tbl.extend_from_slice(&blk);
    name_tbl.extend_from_slice(s.as_bytes());
    name_tbl.push(0);
    map.insert(s.to_string(), off);
    off
}

enum NodeKind {
    Dir(usize),
    File(usize),
}

/// An archive image of version 8 (plain header, uncompressed tables, keys of
/// `password`) or 6 (header, tables and files under the 12-byte key `key12`).
fn build_image(files: &[(Vec<&str>, Vec<u8>)], version: u16, password: &[u8], key12: &[u8]) -> Vec<u8> {
    let fh_len: usize = if version >= 8 { 72 } else { 64 };
    const DIR: usize = 32;

    let mut name_tbl = Vec::new();
    let mut name_map: HashMap<String, u64> = HashMap::new();
    for (comps, _) in files {
        for c in comps {
            add_name(&mut name_tbl, &mut name_map, c);
        }
    }

    let mut dirs: Vec<Vec<&str>> = vec![Vec::new()];
    for (comps, _) in files {
        for i in 1..comps.len() {
            let prefix: Vec<&str> = comps[..i].to_vec();
            if !dirs.contains(&prefix) {
                dirs.push(prefix);
            }
        }
    }
    let slot_of = |d: &[&str]| dirs.iter().position(|p| p == d).unwrap();

    let mut nodes: Vec<(usize, String, NodeKind)> = Vec::new();
    for i in 1..dirs.len() {
        let parent = slot_of(&dirs[i][..dirs[i].len() - 1]);
        nodes.push((parent, dirs[i].last().unwrap().to_string(), NodeKind::Dir(i)));
    }
    for (j, (comps, _)) in files.iter().enumerate() {
        let parent = slot_of(&comps[..comps.len() - 1]);
        nodes.push((parent, comps.last().unwrap().to_string(), NodeKind::File(j)));
    }

    let mut fh_off = vec![0u64; nodes.len()];
    let mut group_head = vec![(0u64, 0u64); dirs.len()];
    let mut next_fh = 0u64;
    for (slot, g) in group_head.iter_mut().enumerate() {
        let members: Vec<usize> = (0..nodes.len()).filter(|&n| nodes[n].0 == slot).collect();
        if members.is_empty() {
            continue;
        }
        *g = (next_fh, members.len() as u64);
        for &n in &members {
            fh_off[n] = next_fh;
            next_fh += fh_len as u64;
        }
    }

    let mut body = Vec::new();
    let mut data_offsets = vec![0u64; files.len()];
    for (j, (comps, content)) in files.iter().enumerate() {
        data_offsets[j] = body.len() as u64;
        let mut enc = content.clone();
        if version >= 8 {
            let mut ks = password.to_vec();
            ks.extend_from_slice(comps.last().unwrap().to_ascii_uppercase().as_bytes());
            for anc in comps[..comps.len() - 1].iter().rev() {
                ks.extend_from_slice(anc.to_ascii_uppercase().as_bytes());
            }
            key_conv(&mut enc, content.len() % 7, &key7_create(&ks));
        } else {
            key_conv(&mut enc, content.len() % 12, key12);
        }
        body.extend_from_slice(&enc);
    }

    let file_tbl = name_tbl.len().next_multiple_of(8);
    let mut tables = name_tbl.clone();
    tables.resize(file_tbl, 0);

    let mut order: Vec<usize> = (0..nodes.len()).collect();
    order.sort_by_key(|&n| fh_off[n]);
    for &n in &order {
        let (_, name, kind) = &nodes[n];
        let name_addr = name_map[name];
        let (attr, data, size) = match kind {
            NodeKind::Dir(slot) => (ATTR_DIRECTORY, *slot as u64 * DIR as u64, 0u64),
            NodeKind::File(j) => (0u64, data_offsets[*j], files[*j].1.len() as u64),
        };
        tables.extend_from_slice(&name_addr.to_le_bytes());
        tables.extend_from_slice(&attr.to_le_bytes());
        tables.extend_from_slice(&[0u8; 24]);
        tables.extend_from_slice(&data.to_le_bytes());
        tables.extend_from_slice(&size.to_le_bytes());
        tables.extend_from_slice(&u64::MAX.to_le_bytes());
        if version >= 8 {
            tables.extend_from_slice(&u64::MAX.to_le_bytes());
        }
    }
    let dir_tbl = tables.len();

    for (s, d) in dirs.iter().enumerate() {
        let (dir_addr, parent) = if s == 0 {
            (u64::MAX, u64::MAX)
        } else {
            let node = nodes
                .iter()
                .position(|n| matches!(&n.2, NodeKind::Dir(sl) if *sl == s))
                .unwrap();
            let parent_path: Vec<&str> = d[..d.len() - 1].to_vec();
            (fh_off[node], slot_of(&parent_path) as u64)
        };
        let (first_fh, num) = group_head[s];
        tables.extend_from_slice(&dir_addr.to_le_bytes());
        tables.extend_from_slice(&parent.to_le_bytes());
        tables.extend_from_slice(&num.to_le_bytes());
        tables.extend_from_slice(&first_fh.to_le_bytes());
    }

    let mut image = Vec::new();
    image.extend_from_slice(b"DX");
    image.extend_from_slice(&version.to_le_bytes());
    image.extend_from_slice(&(tables.len() as u32).to_le_bytes());
    image.extend_from_slice(&0x40u64.to_le_bytes());
    image.extend_from_slice(&0u64.to_le_bytes());
    image.extend_from_slice(&(file_tbl as u64).to_le_bytes());
    image.extend_from_slice(&(dir_tbl as u64).to_le_bytes());
    if version >= 8 {
        image.extend_from_slice(&932u32.to_le_bytes());
        image.extend_from_slice(&FLAG_NO_HEAD_PRESS.to_le_bytes());
        image.push(0xFF);
    } else {
        image.extend_from_slice(&932u64.to_le_bytes());
    }
    image.resize(0x40, 0);
    image.extend_from_slice(&body);
    let name_tbl_abs = image.len() as u64;
    let mut tables_enc = tables;
    if version >= 8 {
        key_conv(&mut tables_enc, 0, &key7_create(password));
    } else {
        key_conv(&mut tables_enc, 0, key12);
    }
    image.extend_from_slice(&tables_enc);
    image[16..24].copy_from_slice(&name_tbl_abs.to_le_bytes());
    if version < 8 {
        let mut head = image[..48].to_vec();
        key_conv(&mut head, 0, key12);
        image[..48].copy_from_slice(&head);
    }
    image
}

/// A version 8 image (uncompressed tables and files) packed under `password`.
fn build_v8_image(files: &[(Vec<&str>, Vec<u8>)], password: &[u8]) -> Vec<u8> {
    build_image(files, 8, password, &[])
}

#[test]
fn synthetic_v8_roundtrip() {
    let files: Vec<(Vec<&str>, Vec<u8>)> = vec![
        (vec!["BasicData", "CDataBase.project"], b"type_count\x00\x01".to_vec()),
        (vec!["BasicData", "Sub", "X.bin"], (0u8..=255).collect()),
    ];
    let image = build_v8_image(&files, &DEFAULT_PASSWORD);
    let arch = Archive::from_bytes(&image).expect("解析成功");
    assert_eq!(arch.version, 8);
    assert_eq!(arch.code_page, 932);
    assert_eq!(arch.entries().len(), 2);
    let idx = arch.find("BasicData/CDataBase.project").expect("找到主文件");
    assert_eq!(arch.entry(idx).unwrap().size, 12);
    assert_eq!(arch.read_entry(idx).unwrap(), files[0].1);
    let idx2 = arch.find("Sub/x.bin").expect("找到子目录文件");
    assert_eq!(arch.read_entry(idx2).unwrap(), files[1].1);
}

#[test]
fn open_with_password_rejects_wrong_and_accepts_right() {
    let files: Vec<(Vec<&str>, Vec<u8>)> = vec![(vec!["Data", "Test.bin"], b"payload".to_vec())];
    let image = build_v8_image(&files, b"MySecretKey");
    let wrong = Archive::from_bytes_with_password(&image, &[b"WrongKey"]);
    assert!(wrong.is_err(), "错误密码应失败");
    let right = Archive::from_bytes_with_password(&image, &[b"MySecretKey"]).expect("正确密码应成功");
    let idx = right.find("Data/Test.bin").expect("找到条目");
    assert_eq!(right.read_entry(idx).unwrap(), files[0].1);
}

#[test]
fn dxa_entries_follow_the_directory_walk() {
    let files: Vec<(Vec<&str>, Vec<u8>)> = vec![
        (vec!["Top.txt"], b"top".to_vec()),
        (vec!["A", "B", "C", "deep.dat"], vec![7u8; 40]),
        (vec!["A", "one.bin"], b"1".to_vec()),
    ];
    let image = build_v8_image(&files, &DEFAULT_PASSWORD);
    let arch = Archive::from_bytes(&image).expect("parse");
    let paths: Vec<&str> = arch.entries().iter().map(|e| e.path.as_str()).collect();
    // the root's heads: directory A first (directories come before files), then Top.txt;
    // inside A: directory B, then one.bin
    assert_eq!(paths, vec!["A/B/C/deep.dat", "A/one.bin", "Top.txt"]);
    for (i, e) in arch.entries().iter().enumerate() {
        assert_eq!(e.key.len(), 7);
        assert!(e.press_size.is_none() && e.huff_press_size.is_none());
        let want = &files.iter().find(|(c, _)| c.join("/") == e.path).unwrap().1;
        assert_eq!(&arch.read_entry(i).unwrap(), want);
    }
    assert!(arch.entry(3).is_none());
    assert!(arch.read_entry(3).is_err());
}

#[test]
fn dxa_find_ignores_case_and_backslashes() {
    let files: Vec<(Vec<&str>, Vec<u8>)> = vec![
        (vec!["Data", "Map", "Map001.mps"], b"map".to_vec()),
        (vec!["Data", "BasicData", "Game.dat"], b"game".to_vec()),
    ];
    let image = build_v8_image(&files, &DEFAULT_PASSWORD);
    let arch = Archive::from_bytes(&image).expect("parse");
    let map = arch.find("Data/Map/Map001.mps").unwrap();
    assert_eq!(arch.find("data\\map\\MAP001.MPS"), Some(map));
    assert_eq!(arch.find("map001.mps"), Some(map));
    assert_eq!(arch.find("Map/Map001.mps"), Some(map));
    // a suffix that does not start after a '/' does not match
    assert_eq!(arch.find("p001.mps"), None);
    assert_eq!(arch.find("Game.dat"), arch.find("DATA/basicdata/game.dat"));
    assert_eq!(arch.find("missing.bin"), None);
}

#[test]
fn dxa_encrypted_v6_header_is_opened_by_a_known_key() {
    let key = key12_create(&WOLF_PASSWORD_220);
    let files: Vec<(Vec<&str>, Vec<u8>)> = vec![
        (vec!["BasicData", "Game.dat"], b"hello wolf".to_vec()),
        (vec!["Readme.txt"], b"abcdefghijklmnopqrstuvwxyz".to_vec()),
    ];
    let image = build_image(&files, 6, &[], &key);
    assert_ne!(&image[..2], b"DX");
    let arch = Archive::from_bytes(&image).expect("parse");
    assert_eq!(arch.version, 6);
    assert_eq!(arch.code_page, 932);
    assert_eq!(arch.huff_kb, 0xFF);
    for e in arch.entries() {
        assert_eq!(e.key, key.to_vec());
    }
    let i = arch.find("BasicData/Game.dat").unwrap();
    assert_eq!(arch.read_entry(i).unwrap(), b"hello wolf");
    let j = arch.find("readme.txt").unwrap();
    assert_eq!(arch.read_entry(j).unwrap(), files[1].1);
}

#[test]
fn dxa_header_errors() {
    // under 24 bytes
    assert!(Archive::from_bytes(b"DX\x08\x00").is_err());
    // a plain header of a version below 8
    let mut img = vec![0u8; 0x40];
    img[..2].copy_from_slice(b"DX");
    img[2] = 6;
    assert!(Archive::from_bytes(&img).is_err());
    // a plain header whose tables start past the end
    let files: Vec<(Vec<&str>, Vec<u8>)> = vec![(vec!["a.bin"], b"x".to_vec())];
    let mut image = build_v8_image(&files, &DEFAULT_PASSWORD);
    let past = image.len() as u64 + 1;
    image[16..24].copy_from_slice(&past.to_le_bytes());
    assert!(Archive::from_bytes(&image).is_err());
    // bytes no candidate key opens
    assert!(Archive::from_bytes(&[0x5Au8; 0x40]).is_err());
}

#[test]
fn dxa_key_stream_is_its_own_inverse() {
    let key = key7_create(b"secret");
    let data: Vec<u8> = (0u8..50).collect();
    let mut d = data.clone();
    key_conv(&mut d, 3, &key);
    assert_ne!(d, data);
    assert_eq!(d[0], data[0] ^ key[3]);
    assert_eq!(d[4], data[4] ^ key[0]);
    key_conv(&mut d, 3, &key);
    assert_eq!(d, data);
    // an empty key leaves the data alone
    key_conv(&mut d, 5, &[]);
    assert_eq!(d, data);
}
