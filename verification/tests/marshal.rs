use rmmodify::marshal::float::{float_text, FloatText};
use rmmodify::marshal::dump::dump;
use rmmodify::marshal::load::{parse, parse_multi};
use rmmodify::marshal::model::{Error, Kind};
use rmmodify::marshal::show::tree_dump_lines;
use rmmodify::marshal::tree::Tree;

fn roundtrip(bytes: &[u8]) -> Tree {
    let tree = parse(bytes).expect("parse");
    let out = dump(&tree);
    assert_eq!(out, bytes, "round-trip not byte-identical");
    tree
}

#[test]
fn simple_scalars() {
    for c in [
        vec![4, 8, b'0'],
        vec![4, 8, b'T'],
        vec![4, 8, b'F'],
        vec![4, 8, b'i', 0],
        vec![4, 8, b'i', 10],
        vec![4, 8, b'i', 0xFA],
        vec![4, 8, b'"', 0],
        vec![4, 8, b'"', 8, b'a', b'b', b'c'],
    ] {
        roundtrip(&c);
    }
}

#[test]
fn symbol_links() {
    let bytes = vec![
        4, 8, b'{', 0x07, b':', 8, b'f', b'o', b'o', b'i', 0x06, b';', 0, b'i', 0x07,
    ];
    roundtrip(&bytes);
}

#[test]
fn object_links() {
    let bytes = vec![4, 8, b'[', 0x07, b'"', 8, b'a', b'b', b'c', b'@', 0];
    roundtrip(&bytes);
}

#[test]
fn string_encodings() {
    roundtrip(&[4, 8, b'I', b'"', 8, b'a', b'b', b'c', 0x06, b':', 6, b'E', b'T']);
    roundtrip(&[4, 8, b'I', b'"', 8, b'a', b'b', b'c', 0x06, b':', 6, b'E', b'F']);
    roundtrip(&[
        4, 8, b'I', b'"', 8, b'a', b'b', b'c', 0x06, b':', 13, b'e', b'n', b'c', b'o', b'd',
        b'i', b'n', b'g', b'"', 15, b'A', b'S', b'C', b'I', b'I', b'-', b'8', b'B', b'I', b'T',
    ]);
}

#[test]
fn hash_default() {
    let bytes = vec![4, 8, b'}', 0x06, b'i', 0x06, b'i', 0x07, b'i', 0x08];
    roundtrip(&bytes);
}

#[test]
fn objects_and_ivars() {
    let bytes = vec![
        4, 8, b'o', b':', 10, b'C', b'l', b'a', b's', b's', 0x07, b':', 7, b'@', b'a', b'i',
        0x06, b':', 6, b'b', b'T',
    ];
    let tree = parse(&bytes).unwrap();
    assert_eq!(tree.class_of(tree.root()).as_deref(), Some("Class"));
    assert!(tree.ivar(tree.root(), "a").is_some());
    assert!(tree.ivar(tree.root(), "@a").is_some());
    roundtrip(&bytes);
}

#[test]
fn nested_shared() {
    let mut bytes = vec![4, 8, b'[', 0x08];
    bytes.extend_from_slice(&[b'{', 0x06, b'i', 0x06, b'"', 6, b'x']);
    bytes.extend_from_slice(&[b'@', 6]);
    bytes.extend_from_slice(&[b'{', 0x06, b'i', 0x07, b'@', 6]);
    roundtrip(&bytes);
}

#[test]
fn edit_then_dump() {
    let bytes = vec![4, 8, b'[', 0x08, b'i', 0x06, b'i', 0x07, b'"', 6, b'x'];
    let mut tree = parse(&bytes).unwrap();
    let root = tree.root();
    let first = match tree.kind(root) {
        Kind::Array(items) => Some(items[0]),
        _ => None,
    };
    if let Some(i) = first {
        tree.set_fixnum(i, 99);
    }
    let out = dump(&tree);
    let expect = vec![4, 8, b'[', 0x08, b'i', 0x68, b'i', 0x07, b'"', 6, b'x'];
    assert_eq!(out, expect);
}

#[test]
fn negative_int_wide() {
    roundtrip(&[4, 8, b'i', 0xFE, 0xD4, 0xFE]);
    roundtrip(&[4, 8, b'i', 0x02, 0x00, 0x80]);
    roundtrip(&[4, 8, b'i', 0x04, 0xFF, 0xFF, 0xFF, 0x7F]);
}

#[test]
fn add_new_symbol_keeps_order() {
    let bytes = vec![
        4, 8, b'o', b':', 10, b'K', b'l', b'a', b's', b's', 0x06, b':', 6, b'a', b'i', 0x06,
    ];
    let mut tree = parse(&bytes).unwrap();
    let sym = tree.alloc_sym(b"b".to_vec());
    let val = tree.new_fixnum(7);
    let root = tree.root();
    if let Kind::Object { ivars, .. } = tree.kind_mut(root) {
        ivars.push((sym, val));
    }
    let out = dump(&tree);
    let expect = vec![
        4, 8, b'o', b':', 10, b'K', b'l', b'a', b's', b's', 0x07, b':', 6, b'a', b'i', 0x06,
        b':', 6, b'b', b'i', 0x0C,
    ];
    assert_eq!(out, expect);
}

#[test]
fn set_bignum_decimal_roundtrip() {
    let bytes = vec![4, 8, b'l', b'+', 0x07, 0x01, 0x00, 0x01, 0x00];
    let mut tree = parse(&bytes).unwrap();
    let root = tree.root();
    assert_eq!(tree.bignum_to_string(root).as_deref(), Some("65537"));

    assert!(tree.set_bignum_decimal(root, "12345678901234567890"));
    assert_eq!(
        tree.bignum_to_string(root).as_deref(),
        Some("12345678901234567890")
    );
    assert!(tree.set_bignum_decimal(root, "-42"));
    assert_eq!(tree.bignum_to_string(root).as_deref(), Some("-42"));
    assert!(tree.set_bignum_decimal(root, "0"));
    assert_eq!(tree.bignum_to_string(root).as_deref(), Some("0"));
    assert!(!tree.set_bignum_decimal(root, "12a"));
    assert!(!tree.set_bignum_decimal(root, ""));
    assert_eq!(tree.bignum_to_string(root).as_deref(), Some("0"));
    let fix = tree.new_fixnum(5);
    assert!(!tree.set_bignum_decimal(fix, "9"));
    assert!(tree.set_bignum_decimal(root, "70000"));
    roundtrip(&dump(&tree));
}

#[test]
fn bignum_words_are_shortest_little_endian() {
    let bytes = vec![4, 8, b'l', b'+', 0x07, 0x01, 0x00, 0x01, 0x00];
    let mut tree = parse(&bytes).unwrap();
    let root = tree.root();
    assert!(tree.set_bignum_decimal(root, "  65536 "));
    match tree.kind(root) {
        Kind::Bignum { sign, words } => {
            assert!(*sign);
            assert_eq!(words, &vec![0u16, 1u16]);
        }
        _ => panic!("not a bignum"),
    }
    assert!(tree.set_bignum_decimal(root, "-007"));
    match tree.kind(root) {
        Kind::Bignum { sign, words } => {
            assert!(!*sign);
            assert_eq!(words, &vec![7u16]);
        }
        _ => panic!("not a bignum"),
    }
    assert_eq!(tree.bignum_to_string(root).as_deref(), Some("-7"));
    assert!(!tree.set_bignum_decimal(root, "--1"));
    assert!(!tree.set_bignum_decimal(root, "-"));
    assert!(!tree.set_bignum_decimal(root, "１２"));
}

#[test]
fn not_marshal_is_refused() {
    assert!(parse(&[4, 9, b'0']).is_err());
    assert!(parse(&[]).is_err());
}

#[test]
fn parse_multi_reads_consecutive_streams() {
    let bytes = vec![4, 8, b'i', 0x06, 4, 8, b'T'];
    let trees = parse_multi(&bytes).unwrap();
    assert_eq!(trees.len(), 2);
    assert_eq!(rmmodify::marshal::dump::dump_multi(&trees), bytes);
    assert!(parse_multi(&[]).unwrap().is_empty());
}

#[test]
fn float_text_reads_the_numeric_prefix() {
    assert_eq!(float_text(b"nan"), FloatText::Nan);
    assert_eq!(float_text(b"inf"), FloatText::Inf);
    assert_eq!(float_text(b"-inf"), FloatText::NegInf);
    assert_eq!(float_text(b"1.5"), FloatText::Number(b"1.5".to_vec()));
    assert_eq!(float_text(b"-2.25e-3"), FloatText::Number(b"-2.25e-3".to_vec()));
    // trailing garbage after the number is ignored, as strtod does
    assert_eq!(float_text(b"3.0\x00junk"), FloatText::Number(b"3.0".to_vec()));
    // an exponent without digits is not part of the number
    assert_eq!(float_text(b"7e"), FloatText::Number(b"7".to_vec()));
    assert_eq!(float_text(b"+.5"), FloatText::Number(b"+.5".to_vec()));
    assert_eq!(float_text(b"."), FloatText::Invalid);
    assert_eq!(float_text(b"abc"), FloatText::Invalid);
    assert_eq!(float_text(b""), FloatText::Invalid);
}

#[test]
fn stacked_extensions_and_wrappers_roundtrip() {
    // e:A e:B o:C 0 — two modules extend one object, merged into one node
    let bytes = vec![
        4, 8, b'e', b':', 6, b'A', b'e', b':', 6, b'B', b'o', b':', 6, b'C', 0,
    ];
    let t = roundtrip(&bytes);
    match t.kind(t.root()) {
        Kind::Extended { mods, .. } => assert_eq!(mods.len(), 2),
        _ => panic!("expected one extension node"),
    }
    // C:Sub "x" — a user subclass of String; U and d wrap a value
    roundtrip(&[4, 8, b'C', b':', 8, b'S', b'u', b'b', b'"', 6, b'x']);
    roundtrip(&[4, 8, b'U', b':', 6, b'K', b'[', 6, b'i', 6]);
    roundtrip(&[4, 8, b'd', b':', 6, b'K', b'0']);
    // I around a non-string (a user-defined dump) is kept as a wrapper
    roundtrip(&[4, 8, b'I', b'u', b':', 6, b'K', 7, 1, 2, 0x06, b':', 6, b'E', b'T']);
    // a bignum, a float, a class, a module, a struct
    roundtrip(&[4, 8, b'l', b'+', 7, 1, 0, 0, 0]);
    roundtrip(&[4, 8, b'f', 8, b'1', b'.', b'5']);
    roundtrip(&[4, 8, b'c', 8, b'F', b'o', b'o']);
    roundtrip(&[4, 8, b'm', 8, b'B', b'a', b'r']);
    roundtrip(&[4, 8, b'S', b':', 6, b'P', 6, b':', 6, b'x', b'i', 6]);
}

#[test]
fn regexps_are_written_back_as_regexps() {
    let re = [4u8, 8, b'/', 6, b'a', 0];
    assert_eq!(dump(&parse(&re).unwrap()), re.to_vec());
    // Ruby 1.9 writes a regexp's encoding around it
    let re19 = [4u8, 8, b'I', b'/', 7, b'a', b'b', 1, 6, b':', 6, b'E', b'F'];
    assert_eq!(dump(&parse(&re19).unwrap()), re19.to_vec());
}

#[test]
fn non_canonical_streams_are_rewritten() {
    // 5 written with a one-byte payload instead of its one-byte form
    let long5 = [4u8, 8, b'i', 1, 5];
    assert_eq!(dump(&parse(&long5).unwrap()), vec![4, 8, b'i', 10]);
    // a symbol spelled out twice is written as a link the second time
    let twice = [4u8, 8, b'[', 7, b':', 6, b'a', b':', 6, b'a'];
    assert_eq!(dump(&parse(&twice).unwrap()), vec![4, 8, b'[', 7, b':', 6, b'a', b';', 0]);
    // bytes after the value are not part of the tree
    let trailing = [4u8, 8, b'0', b'0'];
    assert_eq!(dump(&parse(&trailing).unwrap()), vec![4, 8, b'0']);
}

#[test]
fn utf8_mark_is_found_by_the_spelling_of_e() {
    let t = parse(&[4, 8, b'I', b'"', 8, b'a', b'b', b'c', 6, b':', 6, b'E', b'T']).unwrap();
    let Kind::Str(s) = t.kind(t.root()) else { panic!("not a string") };
    assert!(s.is_e_true(t.symbols()));
    // :E => false is not UTF-8
    let f = parse(&[4, 8, b'I', b'"', 6, b'a', 6, b':', 6, b'E', b'F']).unwrap();
    let Kind::Str(s) = f.kind(f.root()) else { panic!("not a string") };
    assert!(!s.is_e_true(f.symbols()));
    // the library's own strings carry the mark too
    let mut n = Tree::new();
    let i = n.new_string("é");
    let Kind::Str(s) = n.kind(i) else { panic!("not a string") };
    assert!(s.is_e_true(n.symbols()));
}

#[test]
fn dump_listing_shows_one_node_per_line() {
    // [1, 2]
    let t = parse(&[4, 8, b'[', 7, b'i', 6, b'i', 7]).unwrap();
    let lines = tree_dump_lines(&t, t.root(), &Vec::new());
    assert_eq!(lines, vec!["数组[2]".to_string(), "  整数 1".to_string(), "  整数 2".to_string()]);
    // {1 => nil}: the key on a head line, the value one level further in
    let h = parse(&[4, 8, b'{', 6, b'i', 6, b'0']).unwrap();
    let lines = tree_dump_lines(&h, h.root(), &Vec::new());
    assert_eq!(lines, vec!["哈希[1]".to_string(), "  键: 整数 1".to_string(), "    nil".to_string()]);
    // a float shows the label it is given
    let f = parse(&[4, 8, b'f', 8, b'1', b'.', b'5']).unwrap();
    let mut labels = vec![String::new(); f.node_count()];
    labels[f.root() as usize] = "1.5".to_string();
    assert_eq!(tree_dump_lines(&f, f.root(), &labels), vec!["浮点 1.5".to_string()]);
}

#[test]
fn ivar_slot_write_reads_back() {
    // Foo with @a = 1, @b = 2
    let mut t = parse(&[4, 8, b'o', b':', 8, b'F', b'o', b'o', 7, b':', 7, b'@', b'a', b'i', 6, b':', 7, b'@', b'b', b'i', 7])
        .unwrap();
    let root = t.root();
    let b_before = t.ivar(root, "b");
    let a_before = t.ivar(root, "a");
    let slot = t.ivar_mut(root, "a").expect("slot");
    assert_eq!(Some(*slot), a_before);
    *slot = b_before.unwrap();
    assert_eq!(t.ivar(root, "a"), b_before);
    assert_eq!(t.ivar(root, "b"), b_before);
    assert!(t.ivar_mut(root, "c").is_none());
}

#[test]
fn each_stream_of_a_file_reads_as_on_its_own() {
    // ["a", :a] then {1 => :a}: the second stream spells the symbol again
    let first: Vec<u8> = vec![4, 8, b'[', 7, b'"', 6, b'a', b':', 6, b'a'];
    let second: Vec<u8> = vec![4, 8, b'{', 6, b'i', 6, b':', 6, b'a'];
    let mut file = first.clone();
    file.extend_from_slice(&second);
    let trees = parse_multi(&file).unwrap();
    assert_eq!(trees.len(), 2);
    assert_eq!(dump(&trees[0]), dump(&parse(&first).unwrap()));
    assert_eq!(dump(&trees[1]), dump(&parse(&second).unwrap()));
    assert_eq!(rmmodify::marshal::dump::dump_multi(&trees), file);
}

#[test]
fn each_failure_gives_its_error() {
    assert!(matches!(parse(&[4, 9, b'0']), Err(Error::NotMarshal)));
    assert!(matches!(parse(&[4, 8]), Err(Error::UnexpectedEof)));
    assert!(matches!(parse(&[4, 8, b'@', 0]), Err(Error::BadLink(0))));
    assert!(matches!(parse(&[4, 8, b';', 6]), Err(Error::BadSymlink(1))));
    assert!(matches!(parse(&[4, 8, b'?']), Err(Error::BadFormat(_))));
    assert!(matches!(parse(&[4, 8, b'[', 0xfa]), Err(Error::BadFormat(_))));
    assert!(matches!(parse(&[4, 8, b'"', 10, b'a']), Err(Error::UnexpectedEof)));
}
