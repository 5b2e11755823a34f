use rmmodify::lcf::{decode_text, encode_leb, read_leb, Error};
use rmmodify::lcf_doc::{dump, parse, LcfPayload, LcfValue};

#[test]
fn leb_roundtrip() {
    for v in [0u64, 1, 65, 127, 128, 1125, 2056, 3421, 0x7FFF, 0xFFFF, 1_000_000] {
        let enc = encode_leb(v);
        let mut pos = 0;
        assert_eq!(read_leb(&enc, &mut pos).unwrap(), v);
        assert_eq!(pos, enc.len());
    }
}

#[test]
fn decode_gbk() {
    assert_eq!(decode_text(b"\xd5\xbd\xca\xbf"), "战士");
    assert_eq!(decode_text(b"boss12"), "boss12");
}

#[test]
fn leb_exact_bytes() {
    assert_eq!(encode_leb(0), vec![0]);
    assert_eq!(encode_leb(127), vec![0x7F]);
    assert_eq!(encode_leb(128), vec![0x81, 0x00]);
    assert_eq!(encode_leb(1125), vec![0x88, 0x65]);
    let mut pos = 0;
    assert!(read_leb(&[0x81], &mut pos).is_err());
}


/// A small save: SaveSystem with switches, variables and one int, the
/// inventory with the gold, one actor, and an unknown chunk kept raw.
fn tiny_save() -> Vec<u8> {
    let mut b = vec![11];
    b.extend_from_slice(b"LcfSaveData");
    // 0x65 SaveSystem: 0x0B int 7, 0x20 switches [1,0,1], 0x22 variables [5,-1]
    let sys: Vec<u8> = vec![
        0x0B, 0x01, 0x07, //
        0x20, 0x03, 1, 0, 1, //
        0x22, 0x08, 5, 0, 0, 0, 0xFF, 0xFF, 0xFF, 0xFF, //
        0x00,
    ];
    b.push(0x65);
    b.push(sys.len() as u8);
    b.extend_from_slice(&sys);
    // 0x6C actors: one element, id 1, name "Al"
    let actors: Vec<u8> = vec![1, 1, 0x01, 0x02, b'A', b'l', 0x00];
    b.push(0x6C);
    b.push(actors.len() as u8);
    b.extend_from_slice(&actors);
    // 0x6D SaveInventory: 0x15 gold 1000
    let inv: Vec<u8> = vec![0x15, 0x02, 0x87, 0x68, 0x00];
    b.push(0x6D);
    b.push(inv.len() as u8);
    b.extend_from_slice(&inv);
    // 0x70: not a known struct, kept raw
    b.extend_from_slice(&[0x70, 0x02, 9, 9]);
    b
}

#[test]
fn lcf_doc_parses_and_dumps_back() {
    let b = tiny_save();
    let d = parse(&b).unwrap();
    assert_eq!(d.header, b"LcfSaveData".to_vec());
    assert_eq!(d.chunks.len(), 4);
    assert!(!d.end_marker);
    assert_eq!(dump(&d), b);
    match &d.chunks[1].payload {
        LcfPayload::StructArray { count, elements } => {
            assert_eq!(*count, 1);
            assert_eq!(elements.len(), 1);
            assert_eq!(elements[0].id, 1);
            assert_eq!(elements[0].fields[0].typed, Some(LcfValue::Str(b"Al".to_vec())));
        }
        _ => panic!("actors should be a struct array"),
    }
    match &d.chunks[3].payload {
        LcfPayload::Raw(p) => assert_eq!(p, &vec![9, 9]),
        _ => panic!("unknown chunk should stay raw"),
    }
}

#[test]
fn lcf_doc_field_accessors() {
    let d = parse(&tiny_save()).unwrap();
    assert_eq!(d.int_field(0x65, 0x0B), Some(7));
    assert_eq!(d.u8_field(0x65, 0x20), Some(&[1u8, 0, 1][..]));
    let vars = d.field(0x65, 0x22).unwrap().typed.as_ref().unwrap().as_i32_vec().unwrap();
    assert_eq!(vars, &vec![5, -1]);
    assert_eq!(d.int_field(0x6D, 0x15), Some(1000));
    assert_eq!(d.int_field(0x6D, 0x16), None);
    assert_eq!(d.int_field(0x99, 0x15), None);
    assert!(d.chunk(0x70).is_some());
    assert!(d.chunk(0x71).is_none());
}

#[test]
fn lcf_doc_edit_changes_only_that_field() {
    let b = tiny_save();
    let mut d = parse(&b).unwrap();
    assert!(d.set_int_field(0x6D, 0x15, 5000));
    assert!(!d.set_int_field(0x6D, 0x16, 1));
    assert_eq!(d.int_field(0x6D, 0x15), Some(5000));
    assert_eq!(d.int_field(0x65, 0x0B), Some(7));
    let out = dump(&d);
    // 5000 = 0xA7 0x08 in LEB form; everything before the inventory is unchanged
    let inv_at = b.len() - 4 - 7;
    assert_eq!(&out[..inv_at], &b[..inv_at]);
    assert_eq!(&out[inv_at..inv_at + 7], &[0x6D, 0x05, 0x15, 0x02, 0xA7, 0x08, 0x00]);
    let again = parse(&out).unwrap();
    assert_eq!(again.int_field(0x6D, 0x15), Some(5000));
}

#[test]
fn lcf_doc_end_marker_and_errors() {
    let mut b = tiny_save();
    b.push(0);
    let d = parse(&b).unwrap();
    assert!(d.end_marker);
    assert_eq!(dump(&d), b);
    // a header that is not "Lcf..."
    let mut bad = vec![3];
    bad.extend_from_slice(b"XYZ");
    assert!(matches!(parse(&bad), Err(Error::BadHeader)));
    // a header longer than the file
    assert!(matches!(parse(&[20, b'L']), Err(Error::BadHeader)));
    // a chunk that runs past the end
    let mut cut = vec![3];
    cut.extend_from_slice(b"Lcf");
    cut.extend_from_slice(&[0x70, 0x05, 1]);
    assert!(matches!(parse(&cut), Err(Error::UnexpectedEof)));
    assert!(!Error::BadHeader.message().is_empty());
}

#[test]
fn lcf_doc_non_minimal_number_is_rewritten() {
    // an int written as 0x80 0x07 (a non-shortest form of 7) reads as 7 and
    // is written back in its shortest form, so this file does not round-trip
    let mut b = vec![3];
    b.extend_from_slice(b"Lcf");
    let sys: Vec<u8> = vec![0x0B, 0x02, 0x80, 0x07, 0x00];
    b.push(0x65);
    b.push(sys.len() as u8);
    b.extend_from_slice(&sys);
    let d = parse(&b).unwrap();
    assert_eq!(d.int_field(0x65, 0x0B), Some(7));
    let out = dump(&d);
    assert_ne!(out, b);
    assert_eq!(&out[4..], &[0x65, 0x04, 0x0B, 0x01, 0x07, 0x00]);
}
