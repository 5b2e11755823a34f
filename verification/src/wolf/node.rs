//! The node tree of a Wolf RPG save: numbers, strings and raw bytes as leaves,
//! named and unnamed sequences as containers.  A tree is written back in the
//! order it was read, so an unedited tree gives the bytes it came from.
use vstd::prelude::*;
use crate::text::{
    is_digit, lossy_utf8, parse_i32, parse_u64, signed_decimal, sjis_decode, sjis_decoded,
    sjis_encode, sjis_encoded, trim_str, trimmed, unsigned_decimal, utf8_lossy,
};
use vstd::string::StringSliceAdditionalSpecFns;

verus! {

/// A node of a save (its position in the tree fixes where its bytes go).
#[derive(Debug)]
pub enum Node {
    U8(u8),
    U16(u16),
    U32(u32),
    U64(u64),
    I32(i32),
    /// A string with a length prefix of `width` bytes (1, 2 or 4); `bytes` keeps the final NUL.
    Str { width: u8, bytes: Vec<u8> },
    /// Raw bytes written as they are.
    Bytes(Vec<u8>),
    /// Named children, written in order.
    Sec(Vec<(String, Node)>),
    /// Unnamed children, written in order (their count is a separate field).
    List(Vec<Node>),
}

/// Little-endian bytes of a 16-bit value.
pub open spec fn le16(v: u16) -> Seq<u8> {
    seq![(v & 0xff) as u8, ((v >> 8u16) & 0xff) as u8]
}

/// Little-endian bytes of a 32-bit value.
pub open spec fn le32(v: u32) -> Seq<u8> {
    seq![
        (v & 0xff) as u8,
        ((v >> 8u32) & 0xff) as u8,
        ((v >> 16u32) & 0xff) as u8,
        ((v >> 24u32) & 0xff) as u8,
    ]
}

/// Little-endian bytes of a 64-bit value.
pub open spec fn le64(v: u64) -> Seq<u8> {
    le32((v & 0xffff_ffff) as u32) + le32((v >> 32u64) as u32)
}

/// A string's length prefix (`width` 1, 2, else 4 bytes) followed by its bytes.
pub open spec fn str_bytes(width: u8, bytes: Seq<u8>) -> Seq<u8> {
    let size = bytes.len() as u32;
    (if width == 1 {
        seq![size as u8]
    } else if width == 2 {
        le16(size as u16)
    } else {
        le32(size)
    }) + bytes
}

/// The bytes a node is written as.
pub open spec fn node_bytes(n: Node) -> Seq<u8>
    decreases n,
{
    match n {
        Node::U8(v) => seq![v],
        Node::U16(v) => le16(v),
        Node::U32(v) => le32(v),
        Node::U64(v) => le64(v),
        Node::I32(v) => le32(v as u32),
        Node::Str { width, bytes } => str_bytes(width, bytes@),
        Node::Bytes(b) => b@,
        Node::Sec(fields) => fields_bytes(fields@),
        Node::List(items) => nodes_bytes(items@),
    }
}

/// The bytes of named children, in order.
pub open spec fn fields_bytes(s: Seq<(String, Node)>) -> Seq<u8>
    decreases s,
{
    if s.len() == 0 {
        Seq::empty()
    } else {
        proof {
            assert(decreases_to!(s => s[s.len() - 1]));
        }
        fields_bytes(s.drop_last()) + node_bytes(s.last().1)
    }
}

/// The bytes of unnamed children, in order.
pub open spec fn nodes_bytes(s: Seq<Node>) -> Seq<u8>
    decreases s,
{
    if s.len() == 0 {
        Seq::empty()
    } else {
        proof {
            assert(decreases_to!(s => s[s.len() - 1]));
        }
        nodes_bytes(s.drop_last()) + node_bytes(s.last())
    }
}

/// Value of a numeric node as an unsigned 64-bit number (`I32` by its bit pattern).
pub open spec fn num_value(n: Node) -> Option<u64> {
    match n {
        Node::U8(v) => Some(v as u64),
        Node::U16(v) => Some(v as u64),
        Node::U32(v) => Some(v as u64),
        Node::U64(v) => Some(v),
        Node::I32(v) => Some(v as u32 as u64),
        _ => None,
    }
}

/// Largest value an edit may store in a numeric node.
pub open spec fn num_limit(n: Node) -> Option<u64> {
    match n {
        Node::U8(_) => Some(0xff),
        Node::U16(_) => Some(0xffff),
        Node::U32(_) => Some(0xffff_ffff),
        Node::U64(_) => Some(0xffff_ffff_ffff_ffff),
        Node::I32(_) => Some(0x7fff_ffff),
        _ => None,
    }
}

/// The node after storing `v` in it, or `None` when the node is not numeric or
/// `v` is above its largest value (`I32`: `i32::MAX`).
pub open spec fn with_u64(n: Node, v: u64) -> Option<Node> {
    match n {
        Node::U8(_) => if v <= 0xff { Some(Node::U8(v as u8)) } else { None },
        Node::U16(_) => if v <= 0xffff { Some(Node::U16(v as u16)) } else { None },
        Node::U32(_) => if v <= 0xffff_ffff { Some(Node::U32(v as u32)) } else { None },
        Node::U64(_) => Some(Node::U64(v)),
        Node::I32(_) => if v <= 0x7fff_ffff { Some(Node::I32(v as i32)) } else { None },
        _ => None,
    }
}

/// The node after storing the decimal text `s` (trimmed; signed for `I32`).
pub open spec fn with_decimal(n: Node, s: Seq<char>) -> Option<Node> {
    if n is I32 {
        match signed_decimal(trimmed(s)) {
            Some(v) => if i32::MIN <= v <= i32::MAX { Some(Node::I32(v as i32)) } else { None },
            None => None,
        }
    } else {
        match unsigned_decimal(trimmed(s)) {
            Some(v) => if v <= u64::MAX { with_u64(n, v as u64) } else { None },
            None => None,
        }
    }
}

/// String bytes without one trailing NUL.
pub open spec fn strip_nul(b: Seq<u8>) -> Seq<u8> {
    if b.len() > 0 && b.last() == 0 {
        b.drop_last()
    } else {
        b
    }
}

impl Node {
    /// A node with named children.
    pub fn sec(fields: Vec<(String, Node)>) -> (r: Node)
        ensures
            r == Node::Sec(fields),
    {
        Node::Sec(fields)
    }

    /// A node with unnamed children, written without a count.
    pub fn list(items: Vec<Node>) -> (r: Node)
        ensures
            r == Node::List(items),
    {
        Node::List(items)
    }

    /// Value of a numeric node; `None` for strings and containers.
    pub fn as_u64(&self) -> (r: Option<u64>)
        ensures
            r == num_value(*self),
    {
        match self {
            Node::U8(v) => Some(*v as u64),
            Node::U16(v) => Some(*v as u64),
            Node::U32(v) => Some(*v as u64),
            Node::U64(v) => Some(*v),
            Node::I32(v) => Some(*v as u32 as u64),
            _ => None,
        }
    }

    /// Largest value an edit may store; `None` for non-numeric nodes.
    pub fn num_max(&self) -> (r: Option<u64>)
        ensures
            r == num_limit(*self),
    {
        match self {
            Node::U8(_) => Some(0xff),
            Node::U16(_) => Some(0xffff),
            Node::U32(_) => Some(0xffff_ffff),
            Node::U64(_) => Some(0xffff_ffff_ffff_ffff),
            Node::I32(_) => Some(0x7fff_ffff),
            _ => None,
        }
    }

    /// Stores `v`; refuses (and changes nothing) when it does not fit the node.
    pub fn set_u64(&mut self, v: u64) -> (r: bool)
        ensures
            match with_u64(*old(self), v) {
                Some(n) => r && *final(self) == n,
                None => !r && *final(self) == *old(self),
            },
    {
        let next = match self {
            Node::U8(_) => if v <= 0xff { Some(Node::U8(v as u8)) } else { None },
            Node::U16(_) => if v <= 0xffff { Some(Node::U16(v as u16)) } else { None },
            Node::U32(_) => if v <= 0xffff_ffff { Some(Node::U32(v as u32)) } else { None },
            Node::U64(_) => Some(Node::U64(v)),
            Node::I32(_) => if v <= 0x7fff_ffff { Some(Node::I32(v as i32)) } else { None },
            _ => None,
        };
        match next {
            Some(n) => {
                *self = n;
                true
            },
            None => false,
        }
    }

    /// Stores a decimal number given as text (signed for `I32`, unsigned otherwise).
    pub fn set_decimal(&mut self, s: &str) -> (r: bool)
        ensures
            match with_decimal(*old(self), s@) {
                Some(n) => r && *final(self) == n,
                None => !r && *final(self) == *old(self),
            },
    {
        let t = trim_str(s);
        if let Node::I32(_) = self {
            match parse_i32(t) {
                Some(v) => {
                    *self = Node::I32(v);
                    return true;
                },
                None => return false,
            }
        }
        match parse_u64(t) {
            Some(v) => self.set_u64(v),
            None => false,
        }
    }

    /// Text of a string node (UTF-8, else Shift-JIS), without its final NUL.
    pub fn str_display(&self, is_utf8: bool) -> (r: Option<String>)
        ensures
            match *self {
                Node::Str { bytes, .. } => r matches Some(t) && t@ == (if is_utf8 {
                    utf8_lossy(strip_nul(bytes@))
                } else {
                    sjis_decoded(strip_nul(bytes@))
                }),
                _ => r is None,
            },
    {
        match self {
            Node::Str { bytes, .. } => {
                let n = bytes.len();
                let end = if n > 0 && bytes[n - 1] == 0 { n - 1 } else { n };
                let raw = vstd::slice::slice_subrange(bytes.as_slice(), 0, end);
                proof {
                    assert(raw@ =~= strip_nul(bytes@));
                }
                let s = if is_utf8 { lossy_utf8(raw) } else { sjis_decode(raw) };
                Some(s)
            },
            _ => None,
        }
    }

    /// Replaces the text of a string node (UTF-8, else Shift-JIS) and adds the final NUL;
    /// the length prefix follows on writing.
    pub fn set_string(&mut self, text: &str, is_utf8: bool) -> (r: bool)
        ensures
            match *old(self) {
                Node::Str { width, .. } => r && (*final(self) matches Node::Str { width: w, bytes: b }
                    && w == width && b@ == (if is_utf8 {
                    text.spec_bytes()
                } else {
                    sjis_encoded(text@)
                }).push(0u8)),
                _ => !r && *final(self) == *old(self),
            },
    {
        let width = match self {
            Node::Str { width, .. } => *width,
            _ => return false,
        };
        let mut out = if is_utf8 {
            vstd::slice::slice_to_vec(text.as_bytes())
        } else {
            sjis_encode(text)
        };
        out.push(0);
        *self = Node::Str { width, bytes: out };
        true
    }
}

/// Appends the little-endian bytes of a 16-bit value.
pub fn put_u16(w: &mut Vec<u8>, v: u16)
    ensures
        final(w)@ == old(w)@ + le16(v),
{
    w.push((v & 0xff) as u8);
    w.push(((v >> 8) & 0xff) as u8);
    assert(final(w)@ =~= old(w)@ + le16(v));
}

/// Appends the little-endian bytes of a 32-bit value.
pub fn put_u32(w: &mut Vec<u8>, v: u32)
    ensures
        final(w)@ == old(w)@ + le32(v),
{
    w.push((v & 0xff) as u8);
    w.push(((v >> 8) & 0xff) as u8);
    w.push(((v >> 16) & 0xff) as u8);
    w.push(((v >> 24) & 0xff) as u8);
    assert(final(w)@ =~= old(w)@ + le32(v));
}

/// Appends the little-endian bytes of a 64-bit value.
pub fn put_u64(w: &mut Vec<u8>, v: u64)
    ensures
        final(w)@ == old(w)@ + le64(v),
{
    put_u32(w, (v & 0xffff_ffff) as u32);
    put_u32(w, (v >> 32) as u32);
    assert(final(w)@ =~= old(w)@ + le64(v));
}

/// Writes a string node: its length prefix and its bytes.
pub fn put_str(w: &mut Vec<u8>, width: u8, bytes: &Vec<u8>)
    ensures
        final(w)@ == old(w)@ + str_bytes(width, bytes@),
{
    let size = bytes.len() as u32;
    if width == 1 {
        w.push(size as u8);
    } else if width == 2 {
        put_u16(w, size as u16);
    } else {
        put_u32(w, size);
    }
    let ghost mid = w@;
    crate::util::append_bytes(w, bytes.as_slice());
    assert(final(w)@ =~= old(w)@ + str_bytes(width, bytes@));
}

/// Writes a node and, in order, everything below it.
pub fn write_node(w: &mut Vec<u8>, node: &Node)
    ensures
        final(w)@ == old(w)@ + node_bytes(*node),
    decreases node,
{
    match node {
        Node::U8(v) => {
            w.push(*v);
            assert(final(w)@ =~= old(w)@ + node_bytes(*node));
        },
        Node::U16(v) => put_u16(w, *v),
        Node::U32(v) => put_u32(w, *v),
        Node::U64(v) => put_u64(w, *v),
        Node::I32(v) => put_u32(w, *v as u32),
        Node::Str { width, bytes } => put_str(w, *width, bytes),
        Node::Bytes(b) => crate::util::append_bytes(w, b.as_slice()),
        Node::Sec(fields) => {
            let mut i: usize = 0;
            while i < fields.len()
                invariant
                    i <= fields@.len(),
                    *node == Node::Sec(*fields),
                    w@ == old(w)@ + fields_bytes(fields@.subrange(0, i as int)),
                decreases fields@.len() - i,
            {
                proof {
                    assert(decreases_to!(*node => (*node)->Sec_0));
                    vstd::std_specs::vec::axiom_vec_index_decreases(*fields, i as int);
                    assert(decreases_to!(*fields => fields[i as int]));
                    assert(decreases_to!(fields[i as int] => fields[i as int].1));
                    assert(decreases_to!(*node => fields[i as int].1));
                }
                write_node(w, &fields[i].1);
                proof {
                    let s = fields@.subrange(0, i + 1);
                    assert(s.drop_last() =~= fields@.subrange(0, i as int));
                }
                i = i + 1;
            }
            assert(fields@.subrange(0, fields@.len() as int) =~= fields@);
        },
        Node::List(items) => {
            let mut i: usize = 0;
            while i < items.len()
                invariant
                    i <= items@.len(),
                    *node == Node::List(*items),
                    w@ == old(w)@ + nodes_bytes(items@.subrange(0, i as int)),
                decreases items@.len() - i,
            {
                proof {
                    assert(decreases_to!(*node => (*node)->List_0));
                    vstd::std_specs::vec::axiom_vec_index_decreases(*items, i as int);
                    assert(decreases_to!(*node => items[i as int]));
                }
                write_node(w, &items[i]);
                proof {
                    let s = items@.subrange(0, i + 1);
                    assert(s.drop_last() =~= items@.subrange(0, i as int));
                }
                i = i + 1;
            }
            assert(items@.subrange(0, items@.len() as int) =~= items@);
        },
    }
}

/// Writes the named children of a section, in order.
pub fn write_fields(w: &mut Vec<u8>, fields: &Vec<(String, Node)>)
    ensures
        final(w)@ == old(w)@ + fields_bytes(fields@),
{
    let mut i: usize = 0;
    while i < fields.len()
        invariant
            i <= fields@.len(),
            w@ == old(w)@ + fields_bytes(fields@.subrange(0, i as int)),
        decreases fields@.len() - i,
    {
        write_node(w, &fields[i].1);
        proof {
            let s = fields@.subrange(0, i + 1);
            assert(s.drop_last() =~= fields@.subrange(0, i as int));
        }
        i = i + 1;
    }
    assert(fields@.subrange(0, fields@.len() as int) =~= fields@);
}

} // verus!
