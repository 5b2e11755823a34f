//! Text conversions that rest on std and on encoding_rs.
use vstd::prelude::*;
use vstd::string::StringExecFns;

verus! {

/// Characters that `String::from_utf8_lossy` produces for the given bytes.
pub uninterp spec fn utf8_lossy(bytes: Seq<u8>) -> Seq<char>;

/// Calls `String::from_utf8_lossy` and takes ownership of the result.
/// The contract claims that the result is the lossy decoding, a function of the bytes,
/// and that valid UTF-8 comes back decoded unchanged.
#[verifier::external_body]
pub(crate) fn lossy_utf8(bytes: &[u8]) -> (r: String)
    ensures
        r@ == utf8_lossy(bytes@),
        vstd::utf8::valid_utf8(bytes@) ==> r@ == vstd::utf8::decode_utf8(bytes@),
{
    String::from_utf8_lossy(bytes).into_owned()
}


/// Unicode `White_Space`, the characters `char::is_whitespace` accepts.
pub open spec fn is_ws(c: char) -> bool {
    let u = c as u32;
    (0x9 <= u <= 0xd) || u == 0x20 || u == 0x85 || u == 0xa0 || u == 0x1680 || (0x2000 <= u
        <= 0x200a) || u == 0x2028 || u == 0x2029 || u == 0x202f || u == 0x205f || u == 0x3000
}

/// The characters with leading and trailing white space removed.
pub open spec fn trimmed(s: Seq<char>) -> Seq<char>
    decreases s.len(),
{
    if s.len() > 0 && is_ws(s[0]) {
        trimmed(s.drop_first())
    } else if s.len() > 0 && is_ws(s.last()) {
        trimmed(s.drop_last())
    } else {
        s
    }
}

/// Calls `str::trim`, which removes leading and trailing Unicode white space.
#[verifier::external_body]
pub(crate) fn trim_str(s: &str) -> (r: &str)
    ensures
        r@ == trimmed(s@),
{
    s.trim()
}

/// An ASCII digit.
pub open spec fn is_digit(c: char) -> bool {
    48 <= (c as u32) <= 57
}

/// Value of a run of ASCII digits read in base 10.
pub open spec fn digits_value(s: Seq<char>) -> nat
    decreases s.len(),
{
    if s.len() == 0 {
        0
    } else {
        digits_value(s.drop_last()) * 10 + ((s.last() as u32) - 48) as nat
    }
}

/// Non-empty and made of ASCII digits only.
pub open spec fn all_digits(s: Seq<char>) -> bool {
    s.len() > 0 && forall|i: int| 0 <= i < s.len() ==> is_digit(#[trigger] s[i])
}

/// The number that an optional `+` followed by digits spells.
pub open spec fn unsigned_decimal(s: Seq<char>) -> Option<nat> {
    let body = if s.len() > 0 && s[0] == '+' { s.drop_first() } else { s };
    if all_digits(body) { Some(digits_value(body)) } else { None }
}

/// The number that an optional sign followed by digits spells.
pub open spec fn signed_decimal(s: Seq<char>) -> Option<int> {
    if s.len() > 0 && s[0] == '-' {
        if all_digits(s.drop_first()) { Some(-digits_value(s.drop_first())) } else { None }
    } else {
        match unsigned_decimal(s) {
            Some(v) => Some(v as int),
            None => None,
        }
    }
}

/// The part of `s` after its first character when that character is `sign`.
pub open spec fn after_sign(s: Seq<char>, sign: char) -> Seq<char> {
    if s.len() > 0 && s[0] == sign { s.drop_first() } else { s }
}

/// The digits run `body` as a 64-bit number, when it is one that fits.
pub open spec fn digits_u64(body: Seq<char>) -> Option<u64> {
    if all_digits(body) && digits_value(body) <= u64::MAX { Some(digits_value(body) as u64) } else { None }
}

proof fn lemma_digits_push(body: Seq<char>, c: char)
    ensures
        digits_value(body.push(c)) == digits_value(body) * 10 + ((c as u32) - 48) as nat,
{
    assert(body.push(c).drop_last() =~= body);
}

/// Reads `s` as an optional leading `sign` and decimal digits: whether the
/// sign is there, and the number the digits spell when they fit in 64 bits.
fn scan_digits(s: &str, sign: char) -> (r: (bool, Option<u64>))
    ensures
        r.0 == (s@.len() > 0 && s@[0] == sign),
        r.1 == digits_u64(after_sign(s@, sign)),
{
    broadcast use vstd::string::axiom_spec_iter;
    let mut first = true;
    let mut lead = false;
    let mut v: u64 = 0;
    let mut big = false;
    let mut any = false;
    let ghost mut st: int = 0;
    for c in it: s.chars()
        invariant
            it.seq() == s@,
            first == (it.index() == 0),
            lead == (it.index() > 0 && s@[0] == sign),
            st == (if lead { 1int } else { 0int }),
            st <= it.index(),
            any == (it.index() > st),
            forall|j: int| st <= j < it.index() ==> is_digit(#[trigger] s@[j]),
            !big ==> v == digits_value(s@.subrange(st, it.index() as int)),
            big ==> digits_value(s@.subrange(st, it.index() as int)) > u64::MAX,
    {
        let ghost i = it.index() as int;
        assert(c == s@[i]);
        if first && c == sign {
            lead = true;
            proof {
                st = 1;
            }
            assert(s@.subrange(1, 1) =~= Seq::<char>::empty());
        } else {
            let cu = c as u32;
            if cu < 48 || cu > 57 {
                proof {
                    let full = after_sign(s@, sign);
                    assert(full =~= s@.subrange(st, s@.len() as int));
                    assert(full[i - st] == c);
                    assert(!is_digit(c));
                }
                return (lead, None);
            }
            let ghost body = s@.subrange(st, i);
            proof {
                lemma_digits_push(body, c);
                assert(s@.subrange(st, i + 1) =~= body.push(c));
            }
            let d = (cu - 48) as u64;
            any = true;
            if !big {
                match v.checked_mul(10) {
                    Some(m) => match m.checked_add(d) {
                        Some(n) => {
                            v = n;
                        },
                        None => {
                            big = true;
                        },
                    },
                    None => {
                        big = true;
                    },
                }
            }
        }
        first = false;
    }
    proof {
        assert(after_sign(s@, sign) =~= s@.subrange(st, s@.len() as int));
    }
    if big {
        return (lead, None);
    }
    if !any {
        return (lead, None);
    }
    (lead, Some(v))
}

/// Reads an optional `+` and decimal digits as a `u64`, refused when the value
/// does not fit (what `str::parse::<u64>` accepts).
pub(crate) fn parse_u64(s: &str) -> (r: Option<u64>)
    ensures
        r == (match unsigned_decimal(s@) {
            Some(v) => if v <= u64::MAX { Some(v as u64) } else { None },
            None => None,
        }),
{
    let (_, v) = scan_digits(s, '+');
    v
}

/// Reads an optional sign and decimal digits as an `i32`, refused when the value
/// does not fit (what `str::parse::<i32>` accepts).
pub(crate) fn parse_i32(s: &str) -> (r: Option<i32>)
    ensures
        r == (match signed_decimal(s@) {
            Some(v) => if i32::MIN <= v <= i32::MAX { Some(v as i32) } else { None },
            None => None,
        }),
{
    let (neg, v) = scan_digits(s, '-');
    if neg {
        match v {
            Some(x) => if x <= 0x8000_0000 {
                Some((-(x as i64)) as i32)
            } else {
                None
            },
            None => None,
        }
    } else {
        let (_, u) = scan_digits(s, '+');
        match u {
            Some(x) => if x <= 0x7fff_ffff {
                Some(x as i32)
            } else {
                None
            },
            None => None,
        }
    }
}

/// Decimal digits of `n`.
pub open spec fn dec_chars(n: nat) -> Seq<char>
    decreases n,
{
    if n < 10 {
        seq![((n + 48) as u32) as char]
    } else {
        dec_chars(n / 10) + seq![(((n % 10) + 48) as u32) as char]
    }
}

/// The decimal digit `d` as text.
fn digit_text(d: u64) -> (r: &'static str)
    requires
        d < 10,
    ensures
        r@ == seq![((d + 48) as u32) as char],
{
    proof {
        reveal_strlit("0");
        reveal_strlit("1");
        reveal_strlit("2");
        reveal_strlit("3");
        reveal_strlit("4");
        reveal_strlit("5");
        reveal_strlit("6");
        reveal_strlit("7");
        reveal_strlit("8");
        reveal_strlit("9");
    }
    match d {
        0 => "0",
        1 => "1",
        2 => "2",
        3 => "3",
        4 => "4",
        5 => "5",
        6 => "6",
        7 => "7",
        8 => "8",
        _ => "9",
    }
}

/// Decimal text of a number.
pub(crate) fn u64_text(n: u64) -> (r: String)
    ensures
        r@ == dec_chars(n as nat),
    decreases n,
{
    if n < 10 {
        digit_text(n).to_owned()
    } else {
        u64_text(n / 10).concat(digit_text(n % 10))
    }
}

/// `prefix` followed by `n` in decimal.
pub(crate) fn numbered(prefix: &str, n: u32) -> (r: String)
    ensures
        r@ == prefix@ + dec_chars(n as nat),
{
    prefix.to_owned().concat(u64_text(n as u64).as_str())
}

/// Decimal text of a number.
pub(crate) fn usize_text(n: usize) -> (r: String)
    ensures
        r@ == dec_chars(n as nat),
{
    u64_text(n as u64)
}

/// What `{:?}` gives for a text: the text in double quotes with Rust's escapes
/// (a function of the characters alone).
pub uninterp spec fn debug_quoted(s: Seq<char>) -> Seq<char>;

/// Formats a text with `{:?}`.
#[verifier::external_body]
pub(crate) fn debug_text(s: &str) -> (r: String)
    ensures
        r@ == debug_quoted(s@),
{
    format!("{s:?}")
}

/// `a` followed by `b`.
pub(crate) fn joined(a: &str, b: &str) -> (r: String)
    ensures
        r@ == a@ + b@,
{
    a.to_owned().concat(b)
}

/// Owned copy of a literal name.
pub fn name(s: &str) -> (r: String)
    ensures
        r@ == s@,
{
    s.to_owned()
}

/// What `encoding_rs::SHIFT_JIS.decode` gives for the bytes (BOM sniffing, malformed
/// sequences replaced).
pub uninterp spec fn sjis_decoded(bytes: Seq<u8>) -> Seq<char>;

/// A byte that Shift-JIS reads on its own: ASCII, or half-width katakana (0xA1 to 0xDF).
pub open spec fn sjis_single_byte(b: u8) -> bool {
    b < 0x80 || (0xA1 <= b && b <= 0xDF)
}

/// The character of a byte that Shift-JIS reads on its own: ASCII as itself,
/// 0xA1 to 0xDF as half-width katakana U+FF61 to U+FF9F.
pub open spec fn sjis_single_char(b: u8) -> char {
    if b < 0x80 { (b as u32) as char } else { ((b as u32) + 0xFEC0) as char }
}

/// A character that Shift-JIS writes as one byte: ASCII or half-width katakana.
pub open spec fn sjis_single_text(c: char) -> bool {
    (c as u32) < 0x80 || (0xFF61 <= (c as u32) && (c as u32) <= 0xFF9F)
}

/// The byte Shift-JIS writes for such a character.
pub open spec fn sjis_single_of(c: char) -> u8 {
    if (c as u32) < 0x80 { (c as u32) as u8 } else { ((c as u32) - 0xFEC0) as u8 }
}

/// Calls `encoding_rs::SHIFT_JIS.decode` and takes ownership of the text.
/// The contract names the result as a function of the bytes, and says, as the
/// decoder's source shows, that bytes each read on their own (ASCII and
/// half-width katakana, none of which starts a byte-order mark) decode one
/// character each; of other bytes it says nothing more.
#[verifier::external_body]
pub(crate) fn sjis_decode(bytes: &[u8]) -> (r: String)
    ensures
        r@ == sjis_decoded(bytes@),
        (forall|i: int| 0 <= i < bytes@.len() ==> sjis_single_byte(#[trigger] bytes@[i])) ==> r@ == bytes@.map_values(
            |b: u8| sjis_single_char(b),
        ),
{
    encoding_rs::SHIFT_JIS.decode(bytes).0.into_owned()
}

/// What `encoding_rs::SHIFT_JIS.encode` gives for the text (unmappable characters
/// written as numeric character references).
pub uninterp spec fn sjis_encoded(text: Seq<char>) -> Seq<u8>;

/// Calls `encoding_rs::SHIFT_JIS.encode` and takes ownership of the bytes.
/// The contract names the result as a function of the text, and says, as the
/// encoder's source shows, that ASCII and half-width katakana are written one
/// byte each; of other text it says nothing more.
#[verifier::external_body]
pub(crate) fn sjis_encode(text: &str) -> (r: Vec<u8>)
    ensures
        r@ == sjis_encoded(text@),
        (forall|i: int| 0 <= i < text@.len() ==> sjis_single_text(#[trigger] text@[i])) ==> r@ == text@.map_values(
            |c: char| sjis_single_of(c),
        ),
{
    encoding_rs::SHIFT_JIS.encode(text).0.into_owned()
}


/// Error text `pre`, the number `n` in decimal, then `post` (through `format!`).
/// Nothing is claimed of the text.
#[verifier::external_body]
pub(crate) fn fmt_num(pre: &str, n: u128, post: &str) -> String {
    format!("{pre}{n}{post}")
}

/// Error text `pre`, `0x` and the number `n` in hexadecimal (at least two digits),
/// then `post` (through `format!`).  Nothing is claimed of the text.
#[verifier::external_body]
pub(crate) fn fmt_hex(pre: &str, n: u64, post: &str) -> String {
    format!("{pre}0x{n:02x}{post}")
}


/// Decimal text of a signed number (`-` before negative ones).
pub open spec fn i64_chars(v: i64) -> Seq<char> {
    if v < 0 {
        seq!['-'] + dec_chars((-(v as int)) as nat)
    } else {
        dec_chars(v as nat)
    }
}

/// The number in decimal, with a `-` before a negative one.
pub(crate) fn i64_text(v: i64) -> (r: String)
    ensures
        r@ == i64_chars(v),
{
    if v < 0 {
        let m: u64 = (-(v as i128)) as u64;
        proof {
            reveal_strlit("-");
        }
        "-".to_owned().concat(u64_text(m).as_str())
    } else {
        u64_text(v as u64)
    }
}


/// What `encoding_rs::GBK.decode` gives for the bytes (BOM sniffing, malformed
/// sequences replaced).
pub uninterp spec fn gbk_decoded(bytes: Seq<u8>) -> Seq<char>;

/// The bytes `encoding_rs::GBK.encode` gives for `text` (characters GBK
/// cannot hold are written as numeric character references).
pub uninterp spec fn gbk_encoded(text: Seq<char>) -> Seq<u8>;

/// A character GBK writes in one byte (ASCII) or two (a CJK unified
/// ideograph from U+4E00 to U+9FA5).
pub open spec fn gbk_plain_char(c: char) -> bool {
    (c as u32) < 0x80 || (0x4E00 <= (c as u32) && (c as u32) <= 0x9FA5)
}

/// How many bytes GBK writes for text of such characters.
pub open spec fn gbk_width(t: Seq<char>) -> nat
    decreases t.len(),
{
    if t.len() == 0 {
        0
    } else {
        gbk_width(t.drop_last()) + if (t.last() as u32) < 0x80 { 1nat } else { 2nat }
    }
}

/// Calls `encoding_rs::GBK.encode` and takes ownership of the bytes.
/// The contract names the result as a function of the text, and says, as the
/// encoder's source shows, that ASCII text is written as itself and that each
/// CJK unified ideograph from U+4E00 to U+9FA5 takes two bytes; of other text
/// it says nothing more.
#[verifier::external_body]
pub(crate) fn gbk_encode(text: &str) -> (r: Vec<u8>)
    ensures
        r@ == gbk_encoded(text@),
        (forall|i: int| 0 <= i < text@.len() ==> (#[trigger] text@[i] as u32) < 0x80) ==> r@ == text@.map_values(
            |c: char| (c as u32) as u8,
        ),
        (forall|i: int| 0 <= i < text@.len() ==> gbk_plain_char(#[trigger] text@[i])) ==> r@.len() == gbk_width(text@),
{
    encoding_rs::GBK.encode(text).0.into_owned()
}

/// Calls `encoding_rs::GBK.decode` and takes ownership of the text.
/// The contract names the result as a function of the bytes, and says, as the
/// decoder's source shows, that ASCII bytes decode as themselves; of other
/// bytes it says nothing more.
#[verifier::external_body]
pub(crate) fn gbk_decode(bytes: &[u8]) -> (r: String)
    ensures
        r@ == gbk_decoded(bytes@),
        (forall|i: int| 0 <= i < bytes@.len() ==> #[trigger] bytes@[i] < 0x80) ==> r@ == bytes@.map_values(
            |b: u8| (b as u32) as char,
        ),
{
    encoding_rs::GBK.decode(bytes).0.into_owned()
}

/// Whether the text holds the replacement character U+FFFD.
pub(crate) fn has_replacement(s: &str) -> (r: bool)
    ensures
        r == s@.contains('\u{FFFD}'),
{
    broadcast use vstd::string::axiom_spec_iter;
    for c in it: s.chars()
        invariant
            it.seq() == s@,
            forall|k: int| 0 <= k < it.index() ==> it.seq()[k] != '\u{FFFD}',
    {
        if c == '\u{FFFD}' {
            return true;
        }
    }
    false
}

/// Calls `std::str::from_utf8`: the text when the bytes are valid UTF-8.
#[verifier::external_body]
pub(crate) fn utf8_exact(bytes: &[u8]) -> (r: Option<String>)
    ensures
        (r is Some) == vstd::utf8::valid_utf8(bytes@),
        r is Some ==> r.unwrap()@ == vstd::utf8::decode_utf8(bytes@),
{
    match std::str::from_utf8(bytes) {
        Ok(s) => Some(s.to_owned()),
        Err(_) => None,
    }
}

/// Every `\` of the text turned into `/`.
pub open spec fn slashed(s: Seq<char>) -> Seq<char> {
    s.map_values(|c: char| if c == '\\' { '/' } else { c })
}

/// Calls `str::replace` with the pattern `'\\'` and the replacement `"/"`.
#[verifier::external_body]
pub(crate) fn forward_slashes(s: &str) -> (r: String)
    ensures
        r@ == slashed(s@),
{
    s.replace('\\', "/")
}

/// What `str::to_lowercase` gives for the text (Unicode lower-case mapping,
/// a function of the characters alone).
pub uninterp spec fn lowercased(s: Seq<char>) -> Seq<char>;

/// Calls `str::to_lowercase`.
#[verifier::external_body]
pub(crate) fn lower(s: &str) -> (r: String)
    ensures
        r@ == lowercased(s@),
{
    s.to_lowercase()
}

} // verus!
