//! LCF documents of RPG Maker 2000/2003 (`.lsd` saves, `.ldb` databases):
//! a header string and a stream of chunks `[id][length][payload]`.
//!
//! Known chunks of a save are parsed into field streams (`[id][length][value]`
//! up to a field id 0) or arrays of such structs; every field keeps its raw
//! bytes, and those with a known type also hold their value.  Writing gives
//! each typed field its value's encoding and every other field its raw bytes,
//! so a file whose every number is written in its shortest form and whose
//! typed fields hold exactly one value comes back byte for byte.
use vstd::prelude::*;
use crate::lcf::{Error, leb_at, leb_bytes, read_leb, encode_leb, lemma_leb_advances};
use crate::text::{name, joined, fmt_hex};
use crate::util::copy_range;
use crate::wolf::node::{le16, le32, le64, put_u16, put_u32, put_u64};

verus! {

/// A typed field value.  A double is held as the bits of its IEEE 754 form.
#[derive(Debug, Clone, PartialEq)]
pub enum LcfValue {
    Int(i64),
    Double(u64),
    /// Raw bytes of a string in the game's regional encoding.
    Str(Vec<u8>),
    /// 16-bit integers, two little-endian bytes each.
    I16(Vec<i16>),
    /// One byte per element (switch flags, item counts ...).
    U8(Vec<u8>),
    /// 32-bit integers, four little-endian bytes each.
    I32(Vec<i32>),
}

/// The mathematical content of an [`LcfValue`].
pub enum ValueView {
    Int(i64),
    Double(u64),
    Str(Seq<u8>),
    I16(Seq<i16>),
    U8(Seq<u8>),
    I32(Seq<i32>),
}

impl View for LcfValue {
    type V = ValueView;

    open spec fn view(&self) -> ValueView {
        match self {
            LcfValue::Int(v) => ValueView::Int(*v),
            LcfValue::Double(b) => ValueView::Double(*b),
            LcfValue::Str(s) => ValueView::Str(s@),
            LcfValue::I16(v) => ValueView::I16(v@),
            LcfValue::U8(v) => ValueView::U8(v@),
            LcfValue::I32(v) => ValueView::I32(v@),
        }
    }
}

/// The type a field of a known struct is read as.
#[derive(Debug, Clone, Copy, PartialEq, Eq)]
pub enum FieldType {
    Int,
    Double,
    Str,
    I16,
    U8,
    I32,
}

/// 16-bit integers of consecutive little-endian byte pairs.
pub open spec fn i16s_of(p: Seq<u8>) -> Seq<i16> {
    Seq::new(p.len() / 2, |k: int| ((p[2 * k] as u16) | ((p[2 * k + 1] as u16) << 8u16)) as i16)
}

/// 32-bit integers of consecutive little-endian byte quadruples.
pub open spec fn i32s_of(p: Seq<u8>) -> Seq<i32> {
    Seq::new(
        p.len() / 4,
        |k: int|
            ((p[4 * k] as u32) | ((p[4 * k + 1] as u32) << 8u32) | ((p[4 * k + 2] as u32) << 16u32) | ((p[4
                * k + 3] as u32) << 24u32)) as i32,
    )
}

/// The 64-bit value of eight little-endian bytes.
pub open spec fn u64_of(p: Seq<u8>) -> u64 {
    ((p[0] as u64) | ((p[1] as u64) << 8u64) | ((p[2] as u64) << 16u64) | ((p[3] as u64) << 24u64) | ((
    p[4] as u64) << 32u64) | ((p[5] as u64) << 40u64) | ((p[6] as u64) << 48u64) | ((p[7] as u64)
        << 56u64)) as u64
}

/// The value of a field payload read as `ft`: a variable-length integer (what
/// follows it is ignored), eight bytes of a double, the bytes themselves, or
/// 16- or 32-bit integers; `None` when the payload does not fit the type.
pub open spec fn typed_of(ft: Option<FieldType>, p: Seq<u8>) -> Option<ValueView> {
    match ft {
        None => None,
        Some(FieldType::Int) => match leb_at(p, 0) {
            Some(r) => Some(ValueView::Int(r.0 as i64)),
            None => None,
        },
        Some(FieldType::Double) => if p.len() == 8 { Some(ValueView::Double(u64_of(p))) } else { None },
        Some(FieldType::Str) => Some(ValueView::Str(p)),
        Some(FieldType::U8) => Some(ValueView::U8(p)),
        Some(FieldType::I16) => if p.len() % 2 == 0 { Some(ValueView::I16(i16s_of(p))) } else { None },
        Some(FieldType::I32) => if p.len() % 4 == 0 { Some(ValueView::I32(i32s_of(p))) } else { None },
    }
}

/// Little-endian bytes of 16-bit integers.
pub open spec fn i16s_bytes(v: Seq<i16>) -> Seq<u8> {
    Seq::new(2 * v.len(), |j: int| le16(v[j / 2] as u16)[j % 2])
}

/// Little-endian bytes of 32-bit integers.
pub open spec fn i32s_bytes(v: Seq<i32>) -> Seq<u8> {
    Seq::new(4 * v.len(), |j: int| le32(v[j / 4] as u32)[j % 4])
}

/// How a value is written.
pub open spec fn value_bytes(v: ValueView) -> Seq<u8> {
    match v {
        ValueView::Int(i) => leb_bytes(i as u64 as nat),
        ValueView::Double(b) => le64(b),
        ValueView::Str(s) => s,
        ValueView::U8(s) => s,
        ValueView::I16(s) => i16s_bytes(s),
        ValueView::I32(s) => i32s_bytes(s),
    }
}

/// Reads a field payload as `ft` (see [`typed_of`]).
pub fn parse_typed(ft: FieldType, payload: &[u8]) -> (r: Option<LcfValue>)
    ensures
        match typed_of(Some(ft), payload@) {
            None => r is None,
            Some(v) => r matches Some(x) && x@ == v,
        },
{
    match ft {
        FieldType::Int => {
            let mut pos: usize = 0;
            match read_leb(payload, &mut pos) {
                Ok(v) => Some(LcfValue::Int(v as i64)),
                Err(_) => None,
            }
        },
        FieldType::Double => {
            if payload.len() != 8 {
                return None;
            }
            let b = ((payload[0] as u64) | ((payload[1] as u64) << 8) | ((payload[2] as u64) << 16)
                | ((payload[3] as u64) << 24) | ((payload[4] as u64) << 32) | ((payload[5] as u64) << 40)
                | ((payload[6] as u64) << 48) | ((payload[7] as u64) << 56));
            Some(LcfValue::Double(b))
        },
        FieldType::Str => Some(LcfValue::Str(vstd::slice::slice_to_vec(payload))),
        FieldType::U8 => Some(LcfValue::U8(vstd::slice::slice_to_vec(payload))),
        FieldType::I16 => {
            if payload.len() % 2 != 0 {
                return None;
            }
            let mut out: Vec<i16> = Vec::new();
            let len = payload.len();
            let n = len / 2;
            let mut k: usize = 0;
            while k < n
                invariant
                    len == payload@.len(),
                    n == payload@.len() / 2,
                    k <= n,
                    out@ == i16s_of(payload@).subrange(0, k as int),
                decreases n - k,
            {
                let v = ((payload[2 * k] as u16) | ((payload[2 * k + 1] as u16) << 8)) as i16;
                out.push(v);
                k = k + 1;
                assert(out@ =~= i16s_of(payload@).subrange(0, k as int));
            }
            assert(out@ =~= i16s_of(payload@));
            Some(LcfValue::I16(out))
        },
        FieldType::I32 => {
            if payload.len() % 4 != 0 {
                return None;
            }
            let mut out: Vec<i32> = Vec::new();
            let len = payload.len();
            let n = len / 4;
            let mut k: usize = 0;
            while k < n
                invariant
                    len == payload@.len(),
                    n == payload@.len() / 4,
                    k <= n,
                    out@ == i32s_of(payload@).subrange(0, k as int),
                decreases n - k,
            {
                let v = ((payload[4 * k] as u32) | ((payload[4 * k + 1] as u32) << 8) | ((payload[4 * k + 2] as u32)
                    << 16) | ((payload[4 * k + 3] as u32) << 24)) as i32;
                out.push(v);
                k = k + 1;
                assert(out@ =~= i32s_of(payload@).subrange(0, k as int));
            }
            assert(out@ =~= i32s_of(payload@));
            Some(LcfValue::I32(out))
        },
    }
}

/// Writes a value (see [`value_bytes`]).
pub fn encode_value(v: &LcfValue) -> (r: Vec<u8>)
    ensures
        r@ == value_bytes(v@),
{
    match v {
        LcfValue::Int(i) => encode_leb(*i as u64),
        LcfValue::Double(b) => {
            let mut out: Vec<u8> = Vec::new();
            put_u64(&mut out, *b);
            assert(out@ =~= le64(*b));
            out
        },
        LcfValue::Str(s) => s.clone(),
        LcfValue::U8(s) => s.clone(),
        LcfValue::I16(vs) => {
            let mut out: Vec<u8> = Vec::new();
            let mut k: usize = 0;
            while k < vs.len()
                invariant
                    k <= vs@.len(),
                    out@ == i16s_bytes(vs@).subrange(0, 2 * k as int),
                decreases vs@.len() - k,
            {
                put_u16(&mut out, vs[k] as u16);
                k = k + 1;
                assert(out@ =~= i16s_bytes(vs@).subrange(0, 2 * k as int));
            }
            assert(out@ =~= i16s_bytes(vs@));
            out
        },
        LcfValue::I32(vs) => {
            let mut out: Vec<u8> = Vec::new();
            let mut k: usize = 0;
            while k < vs.len()
                invariant
                    k <= vs@.len(),
                    out@ == i32s_bytes(vs@).subrange(0, 4 * k as int),
                decreases vs@.len() - k,
            {
                put_u32(&mut out, vs[k] as u32);
                k = k + 1;
                assert(out@ =~= i32s_bytes(vs@).subrange(0, 4 * k as int));
            }
            assert(out@ =~= i32s_bytes(vs@));
            out
        },
    }
}

/// One field of a struct: its raw `[id][length][value]` bytes as read, and
/// its value where the field has a known type and the bytes fit it.
#[derive(Debug, Clone)]
pub struct LcfField {
    pub id: u32,
    /// The whole field as read (written back as it is while `typed` is `None`).
    pub raw: Vec<u8>,
    /// The value (written in its own encoding when present).
    pub typed: Option<LcfValue>,
}

/// An element of a struct array (an actor, say).
#[derive(Debug, Clone)]
pub struct LcfElement {
    pub id: u32,
    pub fields: Vec<LcfField>,
}

/// A chunk's payload: kept raw, a field stream, or an array of field streams.
#[derive(Debug, Clone)]
pub enum LcfPayload {
    Raw(Vec<u8>),
    Fields(Vec<LcfField>),
    StructArray { count: u32, elements: Vec<LcfElement> },
}

#[derive(Debug, Clone)]
pub struct LcfChunk {
    pub id: u32,
    pub payload: LcfPayload,
}

/// A parsed LCF file.
#[derive(Debug, Clone)]
pub struct LcfDoc {
    /// Header text (without its length), such as `LcfSaveData`.
    pub header: Vec<u8>,
    /// The chunks in file order (without the end marker).
    pub chunks: Vec<LcfChunk>,
    /// The file ended with a chunk id 0 (some tools write one; RPG_RT does not).
    pub end_marker: bool,
}

pub struct FieldView {
    pub id: u32,
    pub raw: Seq<u8>,
    pub typed: Option<ValueView>,
}

pub struct ElementView {
    pub id: u32,
    pub fields: Seq<FieldView>,
}

pub enum PayloadView {
    Raw(Seq<u8>),
    Fields(Seq<FieldView>),
    StructArray { count: u32, elements: Seq<ElementView> },
}

pub struct ChunkView {
    pub id: u32,
    pub payload: PayloadView,
}

pub struct DocView {
    pub header: Seq<u8>,
    pub chunks: Seq<ChunkView>,
    pub end_marker: bool,
}

/// The value a field holds, if any.
pub open spec fn typed_view(t: Option<LcfValue>) -> Option<ValueView> {
    match t {
        Some(v) => Some(v@),
        None => None,
    }
}

impl View for LcfField {
    type V = FieldView;

    open spec fn view(&self) -> FieldView {
        FieldView { id: self.id, raw: self.raw@, typed: typed_view(self.typed) }
    }
}

/// The contents of fields.
pub open spec fn fields_view(v: Seq<LcfField>) -> Seq<FieldView> {
    v.map_values(|f: LcfField| f@)
}

impl View for LcfElement {
    type V = ElementView;

    open spec fn view(&self) -> ElementView {
        ElementView { id: self.id, fields: fields_view(self.fields@) }
    }
}

/// The contents of elements.
pub open spec fn elements_view(v: Seq<LcfElement>) -> Seq<ElementView> {
    v.map_values(|e: LcfElement| e@)
}

impl View for LcfPayload {
    type V = PayloadView;

    open spec fn view(&self) -> PayloadView {
        match self {
            LcfPayload::Raw(b) => PayloadView::Raw(b@),
            LcfPayload::Fields(f) => PayloadView::Fields(fields_view(f@)),
            LcfPayload::StructArray { count, elements } => PayloadView::StructArray {
                count: *count,
                elements: elements_view(elements@),
            },
        }
    }
}

impl View for LcfChunk {
    type V = ChunkView;

    open spec fn view(&self) -> ChunkView {
        ChunkView { id: self.id, payload: self.payload@ }
    }
}

/// The contents of chunks.
pub open spec fn chunks_view(v: Seq<LcfChunk>) -> Seq<ChunkView> {
    v.map_values(|c: LcfChunk| c@)
}

impl View for LcfDoc {
    type V = DocView;

    open spec fn view(&self) -> DocView {
        DocView { header: self.header@, chunks: chunks_view(self.chunks@), end_marker: self.end_marker }
    }
}

/// The structs of a save whose fields have known types.
#[derive(Debug, Clone, Copy, PartialEq, Eq)]
pub enum Schema {
    /// SaveTitle (chunk 0x64).
    Title,
    /// SaveSystem (chunk 0x65).
    System,
    /// SaveActor (elements of chunk 0x6C).
    Actor,
    /// SaveInventory (chunk 0x6D).
    Inventory,
}

/// Types of the SaveTitle fields.
pub open spec fn title_type(id: u32) -> Option<FieldType> {
    if id == 0x01 {
        Some(FieldType::Double)
    } else if id == 0x0B || id == 0x15 || id == 0x17 || id == 0x19 || id == 0x1B {
        Some(FieldType::Str)
    } else if id == 0x0C || id == 0x0D || id == 0x16 || id == 0x18 || id == 0x1A || id == 0x1C {
        Some(FieldType::Int)
    } else {
        None
    }
}

/// Types of the SaveSystem fields.
pub open spec fn system_type(id: u32) -> Option<FieldType> {
    if id == 0x01 || id == 0x0B || id == 0x1F || id == 0x21 || id == 0x83 || id == 0x84 || id == 0x8C {
        Some(FieldType::Int)
    } else if id == 0x20 {
        Some(FieldType::U8)
    } else if id == 0x22 {
        Some(FieldType::I32)
    } else {
        None
    }
}

/// Types of the SaveActor fields.
pub open spec fn actor_type(id: u32) -> Option<FieldType> {
    if id == 0x01 || id == 0x02 || id == 0x0B || id == 0x15 {
        Some(FieldType::Str)
    } else if id == 0x34 || id == 0x3D || id == 0x52 {
        Some(FieldType::I16)
    } else if id == 0x50 {
        Some(FieldType::I32)
    } else if id == 0x0C || id == 0x0D || id == 0x16 || (0x1F <= id <= 0x22) || (0x29 <= id <= 0x2C) || id
        == 0x33 || id == 0x47 || id == 0x48 || id == 0x51 || id == 0x53 || id == 0x5A || id == 0x5B || (0x5C
        <= id <= 0x60) {
        Some(FieldType::Int)
    } else {
        None
    }
}

/// Types of the SaveInventory fields.
pub open spec fn inventory_type(id: u32) -> Option<FieldType> {
    if id == 0x02 || id == 0x0C {
        Some(FieldType::I16)
    } else if id == 0x0D || id == 0x0E {
        Some(FieldType::U8)
    } else if id == 0x01 || id == 0x0B || id == 0x15 || (0x17 <= id <= 0x1E) || (0x20 <= id <= 0x23) || id
        == 0x29 || id == 0x2A {
        Some(FieldType::Int)
    } else {
        None
    }
}

/// The type of field `id` of a struct.
pub open spec fn field_type(s: Schema, id: u32) -> Option<FieldType> {
    match s {
        Schema::Title => title_type(id),
        Schema::System => system_type(id),
        Schema::Actor => actor_type(id),
        Schema::Inventory => inventory_type(id),
    }
}

fn title_field_type(id: u32) -> (r: Option<FieldType>)
    ensures
        r == title_type(id),
{
    if id == 0x01 {
        Some(FieldType::Double)
    } else if id == 0x0B || id == 0x15 || id == 0x17 || id == 0x19 || id == 0x1B {
        Some(FieldType::Str)
    } else if id == 0x0C || id == 0x0D || id == 0x16 || id == 0x18 || id == 0x1A || id == 0x1C {
        Some(FieldType::Int)
    } else {
        None
    }
}

fn system_field_type(id: u32) -> (r: Option<FieldType>)
    ensures
        r == system_type(id),
{
    if id == 0x01 || id == 0x0B || id == 0x1F || id == 0x21 || id == 0x83 || id == 0x84 || id == 0x8C {
        Some(FieldType::Int)
    } else if id == 0x20 {
        Some(FieldType::U8)
    } else if id == 0x22 {
        Some(FieldType::I32)
    } else {
        None
    }
}

fn actor_field_type(id: u32) -> (r: Option<FieldType>)
    ensures
        r == actor_type(id),
{
    if id == 0x01 || id == 0x02 || id == 0x0B || id == 0x15 {
        Some(FieldType::Str)
    } else if id == 0x34 || id == 0x3D || id == 0x52 {
        Some(FieldType::I16)
    } else if id == 0x50 {
        Some(FieldType::I32)
    } else if id == 0x0C || id == 0x0D || id == 0x16 || (0x1F <= id && id <= 0x22) || (0x29 <= id && id <= 0x2C)
        || id == 0x33 || id == 0x47 || id == 0x48 || id == 0x51 || id == 0x53 || id == 0x5A || id == 0x5B || (
    0x5C <= id && id <= 0x60) {
        Some(FieldType::Int)
    } else {
        None
    }
}

fn inventory_field_type(id: u32) -> (r: Option<FieldType>)
    ensures
        r == inventory_type(id),
{
    if id == 0x02 || id == 0x0C {
        Some(FieldType::I16)
    } else if id == 0x0D || id == 0x0E {
        Some(FieldType::U8)
    } else if id == 0x01 || id == 0x0B || id == 0x15 || (0x17 <= id && id <= 0x1E) || (0x20 <= id && id <= 0x23)
        || id == 0x29 || id == 0x2A {
        Some(FieldType::Int)
    } else {
        None
    }
}

fn schema_type(s: Schema, id: u32) -> (r: Option<FieldType>)
    ensures
        r == field_type(s, id),
{
    match s {
        Schema::Title => title_field_type(id),
        Schema::System => system_field_type(id),
        Schema::Actor => actor_field_type(id),
        Schema::Inventory => inventory_field_type(id),
    }
}

/// A field stream from `p` up to (and past) a field id 0: each field is a
/// variable-length id, a variable-length length and that many value bytes.
/// Ids are taken modulo 2^32, lengths as `usize`.
pub open spec fn fields_from(b: Seq<u8>, p: int, s: Schema) -> Option<(Seq<FieldView>, int)>
    decreases b.len() - p,
{
    match leb_at(b, p) {
        None => None,
        Some(a) => if a.0 as u32 == 0 {
            Some((seq![], a.1))
        } else {
            match leb_at(b, a.1) {
                None => None,
                Some(l) => {
                    let n = (l.0 as usize) as int;
                    if n > b.len() - l.1 || l.1 <= p {
                        None
                    } else {
                        let id = a.0 as u32;
                        let f = FieldView {
                            id: id,
                            raw: b.subrange(p, l.1 + n),
                            typed: typed_of(field_type(s, id), b.subrange(l.1, l.1 + n)),
                        };
                        match fields_from(b, l.1 + n, s) {
                            None => None,
                            Some(rest) => Some((seq![f] + rest.0, rest.1)),
                        }
                    }
                },
            }
        },
    }
}

/// `k` elements of a struct array from `p`: each an id and a field stream.
pub open spec fn elements_from(b: Seq<u8>, p: int, s: Schema, k: nat) -> Option<(Seq<ElementView>, int)>
    decreases k,
{
    if k == 0 {
        Some((seq![], p))
    } else {
        match elements_from(b, p, s, (k - 1) as nat) {
            None => None,
            Some(done) => match leb_at(b, done.1) {
                None => None,
                Some(a) => match fields_from(b, a.1, s) {
                    None => None,
                    Some(fs) => Some((done.0.push(ElementView { id: a.0 as u32, fields: fs.0 }), fs.1)),
                },
            },
        }
    }
}

/// A struct array payload: a count (modulo 2^32), then that many elements,
/// ending exactly at the end of the payload.
pub open spec fn struct_array_of(b: Seq<u8>, s: Schema) -> Option<(u32, Seq<ElementView>)> {
    match leb_at(b, 0) {
        None => None,
        Some(c) => match elements_from(b, c.1, s, (c.0 as u32) as nat) {
            None => None,
            Some(e) => if e.1 == b.len() { Some((c.0 as u32, e.0)) } else { None },
        },
    }
}

/// How the payload of chunk `id` is read: the four known structs of a save,
/// every other chunk kept raw.
pub open spec fn payload_of(id: u32, p: Seq<u8>) -> Option<PayloadView> {
    if id == 0x64 || id == 0x65 || id == 0x6D {
        let s = if id == 0x64 { Schema::Title } else if id == 0x65 { Schema::System } else { Schema::Inventory };
        match fields_from(p, 0, s) {
            None => None,
            Some(f) => Some(PayloadView::Fields(f.0)),
        }
    } else if id == 0x6C {
        match struct_array_of(p, Schema::Actor) {
            None => None,
            Some(a) => Some(PayloadView::StructArray { count: a.0, elements: a.1 }),
        }
    } else {
        Some(PayloadView::Raw(p))
    }
}

/// The chunks from `p` to the end of the file or to a chunk id 0 (the end
/// marker, after which nothing is read); whether the marker was met.
pub open spec fn chunks_from(b: Seq<u8>, p: int) -> Option<(Seq<ChunkView>, bool)>
    decreases b.len() - p,
{
    if p < 0 || p >= b.len() {
        Some((seq![], false))
    } else {
        match leb_at(b, p) {
            None => None,
            Some(a) => if a.0 as u32 == 0 {
                Some((seq![], true))
            } else {
                match leb_at(b, a.1) {
                    None => None,
                    Some(l) => {
                        let n = (l.0 as usize) as int;
                        if n > b.len() - l.1 || l.1 <= p {
                            None
                        } else {
                            match payload_of(a.0 as u32, b.subrange(l.1, l.1 + n)) {
                                None => None,
                                Some(pv) => match chunks_from(b, l.1 + n) {
                                    None => None,
                                    Some(rest) => Some((seq![ChunkView { id: a.0 as u32, payload: pv }] + rest.0, rest.1)),
                                },
                            }
                        }
                    },
                }
            },
        }
    }
}

/// The header of a file: a length, then that many bytes starting with `Lcf`.
pub open spec fn header_at(b: Seq<u8>) -> Option<(Seq<u8>, int)> {
    match leb_at(b, 0) {
        None => None,
        Some(h) => {
            let n = (h.0 as usize) as int;
            if n > b.len() - h.1 {
                None
            } else {
                let hd = b.subrange(h.1, h.1 + n);
                if hd.len() >= 3 && hd[0] == 0x4C && hd[1] == 0x63 && hd[2] == 0x66 {
                    Some((hd, h.1 + n))
                } else {
                    None
                }
            }
        },
    }
}

/// What a file parses to.
pub open spec fn doc_of(b: Seq<u8>) -> Option<DocView> {
    match header_at(b) {
        None => None,
        Some(h) => match chunks_from(b, h.1) {
            None => None,
            Some(c) => Some(DocView { header: h.0, chunks: c.0, end_marker: c.1 }),
        },
    }
}

/// `a` before the fields of `r`, if any.
pub open spec fn prepend_fields(a: Seq<FieldView>, r: Option<(Seq<FieldView>, int)>) -> Option<(Seq<FieldView>, int)> {
    match r {
        None => None,
        Some(x) => Some((a + x.0, x.1)),
    }
}

/// `a` before the chunks of `r`, if any.
pub open spec fn prepend_chunks(a: Seq<ChunkView>, r: Option<(Seq<ChunkView>, bool)>) -> Option<(Seq<ChunkView>, bool)> {
    match r {
        None => None,
        Some(x) => Some((a + x.0, x.1)),
    }
}

proof fn lemma_elements_fail(b: Seq<u8>, p: int, s: Schema, m: nat, k: nat)
    requires
        m <= k,
        elements_from(b, p, s, m) is None,
    ensures
        elements_from(b, p, s, k) is None,
    decreases k - m,
{
    if m < k {
        lemma_elements_fail(b, p, s, m, (k - 1) as nat);
    }
}

impl Error {
    /// The error as text.
    pub fn message(&self) -> (r: String)
        ensures
            match self {
                Error::UnexpectedEof => r@ == "数据意外结束（文件损坏或不是 LCF 格式）"@,
                Error::BadFormat(s) => r@ == "格式错误: "@ + s@,
                Error::BadHeader => r@ == "头字符串无效（不是 LCF 格式）"@,
            },
    {
        match self {
            Error::UnexpectedEof => name("数据意外结束（文件损坏或不是 LCF 格式）"),
            Error::BadFormat(s) => joined("格式错误: ", s.as_str()),
            Error::BadHeader => name("头字符串无效（不是 LCF 格式）"),
        }
    }
}

/// Reads a field stream at `*pos` up to a field id 0 (see [`fields_from`]).
fn parse_fields_from(buf: &[u8], pos: &mut usize, s: Schema) -> (r: Result<Vec<LcfField>, Error>)
    ensures
        r is Ok <==> fields_from(buf@, *old(pos) as int, s) is Some,
        r matches Ok(v) ==> fields_from(buf@, *old(pos) as int, s) == Some((fields_view(v@), *final(pos) as int)),
{
    let ghost p0 = *pos as int;
    let len = buf.len();
    let mut out: Vec<LcfField> = Vec::new();
    loop
        invariant
            len == buf@.len(),
            p0 == *old(pos) as int,
            fields_from(buf@, p0, s) == prepend_fields(fields_view(out@), fields_from(buf@, *pos as int, s)),
        decreases buf@.len() - *pos,
    {
        let start = *pos;
        proof {
            lemma_leb_advances(buf@, start as int, 0);
        }
        let id64 = match read_leb(buf, pos) {
            Ok(v) => v,
            Err(e) => {
                return Err(e);
            },
        };
        let id = id64 as u32;
        if id == 0 {
            assert(fields_view(out@) + seq![] =~= fields_view(out@));
            return Ok(out);
        }
        let mid = *pos;
        proof {
            lemma_leb_advances(buf@, mid as int, 0);
        }
        let len64 = match read_leb(buf, pos) {
            Ok(v) => v,
            Err(e) => {
                return Err(e);
            },
        };
        let n = len64 as usize;
        if n > len - *pos {
            return Err(Error::UnexpectedEof);
        }
        let end = *pos + n;
        let payload = vstd::slice::slice_subrange(buf, *pos, end);
        let typed = match schema_type(s, id) {
            Some(ft) => parse_typed(ft, payload),
            None => None,
        };
        let raw = copy_range(buf, start, end);
        let f = LcfField { id, raw, typed };
        proof {
            let r = fields_from(buf@, end as int, s);
            assert(f@.typed == typed_of(field_type(s, id), buf@.subrange(*pos as int, end as int)));
            if let Some(x) = r {
                assert(fields_view(out@.push(f)) =~= fields_view(out@).push(f@));
                assert(fields_view(out@) + (seq![f@] + x.0) =~= fields_view(out@).push(f@) + x.0);
            }
        }
        out.push(f);
        *pos = end;
    }
}

/// Reads a struct array payload (see [`struct_array_of`]).
fn parse_struct_array(buf: &[u8], s: Schema) -> (r: Result<(u32, Vec<LcfElement>), Error>)
    ensures
        r is Ok <==> struct_array_of(buf@, s) is Some,
        r matches Ok(x) ==> struct_array_of(buf@, s) == Some((x.0, elements_view(x.1@))),
{
    let mut pos: usize = 0;
    let c = read_leb(buf, &mut pos)?;
    let count = c as u32;
    let ghost q0 = pos as int;
    let mut elements: Vec<LcfElement> = Vec::new();
    let mut i: u32 = 0;
    while i < count
        invariant
            leb_at(buf@, 0) == Some((c, q0)),
            count == c as u32,
            i <= count,
            elements_from(buf@, q0, s, i as nat) == Some((elements_view(elements@), pos as int)),
        decreases count - i,
    {
        let id = match read_leb(buf, &mut pos) {
            Ok(v) => v as u32,
            Err(e) => {
                proof {
                    lemma_elements_fail(buf@, q0, s, (i + 1) as nat, count as nat);
                }
                return Err(e);
            },
        };
        let fields = match parse_fields_from(buf, &mut pos, s) {
            Ok(f) => f,
            Err(e) => {
                proof {
                    lemma_elements_fail(buf@, q0, s, (i + 1) as nat, count as nat);
                }
                return Err(e);
            },
        };
        let el = LcfElement { id, fields };
        proof {
            assert(elements_view(elements@.push(el)) =~= elements_view(elements@).push(el@));
        }
        elements.push(el);
        i = i + 1;
    }
    if pos != buf.len() {
        return Err(Error::BadFormat(name("结构体数组解析后未对齐")));
    }
    Ok((count, elements))
}

/// Reads the payload of chunk `id` (see [`payload_of`]).
fn parse_chunk(id: u32, payload: &[u8]) -> (r: Result<LcfPayload, Error>)
    ensures
        r is Ok <==> payload_of(id, payload@) is Some,
        r matches Ok(p) ==> payload_of(id, payload@) == Some(p@),
{
    if id == 0x64 || id == 0x65 || id == 0x6D {
        let s = if id == 0x64 { Schema::Title } else if id == 0x65 { Schema::System } else { Schema::Inventory };
        let mut pos: usize = 0;
        let fields = parse_fields_from(payload, &mut pos, s)?;
        Ok(LcfPayload::Fields(fields))
    } else if id == 0x6C {
        let (count, elements) = parse_struct_array(payload, Schema::Actor)?;
        Ok(LcfPayload::StructArray { count, elements })
    } else {
        Ok(LcfPayload::Raw(vstd::slice::slice_to_vec(payload)))
    }
}

/// Parses an LCF file (see [`doc_of`]); a header that runs past the end or
/// does not start with `Lcf` is refused as a bad header.
pub fn parse(bytes: &[u8]) -> (r: Result<LcfDoc, Error>)
    ensures
        r is Ok <==> doc_of(bytes@) is Some,
        r matches Ok(d) ==> doc_of(bytes@) == Some(d@),
        r matches Err(Error::BadHeader) <==> (leb_at(bytes@, 0) is Some && header_at(bytes@) is None),
{
    let len = bytes.len();
    let mut pos: usize = 0;
    proof {
        lemma_leb_advances(bytes@, 0, 0);
    }
    let hl = read_leb(bytes, &mut pos)?;
    let n = hl as usize;
    if n > len - pos {
        return Err(Error::BadHeader);
    }
    let header = copy_range(bytes, pos, pos + n);
    pos = pos + n;
    if header.len() < 3 || header[0] != 0x4C || header[1] != 0x63 || header[2] != 0x66 {
        return Err(Error::BadHeader);
    }
    let ghost h1 = pos as int;
    let mut chunks: Vec<LcfChunk> = Vec::new();
    let mut end_marker = false;
    while pos < len
        invariant
            len == bytes@.len(),
            header_at(bytes@) == Some((header@, h1)),
            !end_marker,
            chunks_from(bytes@, h1) == prepend_chunks(chunks_view(chunks@), chunks_from(bytes@, pos as int)),
        decreases bytes@.len() - pos,
    {
        let start = pos;
        proof {
            lemma_leb_advances(bytes@, start as int, 0);
        }
        let id64 = match read_leb(bytes, &mut pos) {
            Ok(v) => v,
            Err(e) => {
                return Err(e);
            },
        };
        let id = id64 as u32;
        if id == 0 {
            end_marker = true;
            assert(chunks_view(chunks@) + seq![] =~= chunks_view(chunks@));
            return Ok(LcfDoc { header, chunks, end_marker });
        }
        let mid = pos;
        proof {
            lemma_leb_advances(bytes@, mid as int, 0);
        }
        let l64 = match read_leb(bytes, &mut pos) {
            Ok(v) => v,
            Err(e) => {
                return Err(e);
            },
        };
        let n = l64 as usize;
        if n > len - pos {
            return Err(Error::UnexpectedEof);
        }
        let end = pos + n;
        let payload = vstd::slice::slice_subrange(bytes, pos, end);
        let parsed = match parse_chunk(id, payload) {
            Ok(p) => p,
            Err(e) => {
                let text = joined(fmt_hex("chunk 0x", id as u64, ": ").as_str(), e.message().as_str());
                return Err(Error::BadFormat(text));
            },
        };
        let ch = LcfChunk { id, payload: parsed };
        proof {
            if let Some(x) = chunks_from(bytes@, end as int) {
                assert(chunks_view(chunks@.push(ch)) =~= chunks_view(chunks@).push(ch@));
                assert(chunks_view(chunks@) + (seq![ch@] + x.0) =~= chunks_view(chunks@).push(ch@) + x.0);
            }
        }
        chunks.push(ch);
        pos = end;
    }
    assert(chunks_view(chunks@) + seq![] =~= chunks_view(chunks@));
    Ok(LcfDoc { header, chunks, end_marker })
}

/// How a field is written: a typed one as its id, the length of its value's
/// encoding and that encoding; any other as its raw bytes.
pub open spec fn field_bytes(f: FieldView) -> Seq<u8> {
    match f.typed {
        Some(t) => leb_bytes(f.id as nat) + leb_bytes(value_bytes(t).len()) + value_bytes(t),
        None => f.raw,
    }
}

/// The fields written one after another.
pub open spec fn fields_concat(fs: Seq<FieldView>) -> Seq<u8>
    decreases fs.len(),
{
    if fs.len() == 0 {
        seq![]
    } else {
        field_bytes(fs[0]) + fields_concat(fs.drop_first())
    }
}

/// A field stream: the fields, then the end mark 0.
pub open spec fn fields_bytes(fs: Seq<FieldView>) -> Seq<u8> {
    fields_concat(fs) + seq![0u8]
}

/// The elements of a struct array written one after another: each its id and its field stream.
pub open spec fn elements_concat(es: Seq<ElementView>) -> Seq<u8>
    decreases es.len(),
{
    if es.len() == 0 {
        seq![]
    } else {
        elements_concat(es.drop_last()) + leb_bytes(es.last().id as nat) + fields_bytes(es.last().fields)
    }
}

/// How a payload is written.
pub open spec fn payload_encoding(p: PayloadView) -> Seq<u8> {
    match p {
        PayloadView::Raw(b) => b,
        PayloadView::Fields(fs) => fields_bytes(fs),
        PayloadView::StructArray { count, elements } => leb_bytes(count as nat) + elements_concat(elements),
    }
}

/// How a chunk is written: its id, the length of its payload and the payload.
pub open spec fn chunk_bytes(c: ChunkView) -> Seq<u8> {
    leb_bytes(c.id as nat) + leb_bytes(payload_encoding(c.payload).len()) + payload_encoding(c.payload)
}

/// The chunks written one after another.
pub open spec fn chunks_concat(cs: Seq<ChunkView>) -> Seq<u8>
    decreases cs.len(),
{
    if cs.len() == 0 {
        seq![]
    } else {
        chunk_bytes(cs[0]) + chunks_concat(cs.drop_first())
    }
}

/// How a document is written: the header's length and bytes, the chunks, and
/// the end marker 0 when it had one.
pub open spec fn doc_bytes(d: DocView) -> Seq<u8> {
    leb_bytes(d.header.len()) + d.header + chunks_concat(d.chunks) + (if d.end_marker {
        seq![0u8]
    } else {
        seq![]
    })
}

proof fn lemma_fields_concat_push(fs: Seq<FieldView>, f: FieldView)
    ensures
        fields_concat(fs.push(f)) == fields_concat(fs) + field_bytes(f),
    decreases fs.len(),
{
    if fs.len() == 0 {
        assert(fs.push(f).drop_first() =~= seq![]);
        assert(fields_concat(fs.push(f).drop_first()) =~= seq![]);
        assert(fs.push(f)[0] == f);
        assert(fields_concat(fs.push(f)) =~= field_bytes(f));
    } else {
        assert(fs.push(f).drop_first() =~= fs.drop_first().push(f));
        lemma_fields_concat_push(fs.drop_first(), f);
        assert(fields_concat(fs.push(f)) =~= field_bytes(fs[0]) + (fields_concat(fs.drop_first()) + field_bytes(f)));
    }
}

proof fn lemma_chunks_concat_push(cs: Seq<ChunkView>, c: ChunkView)
    ensures
        chunks_concat(cs.push(c)) == chunks_concat(cs) + chunk_bytes(c),
    decreases cs.len(),
{
    if cs.len() == 0 {
        assert(cs.push(c).drop_first() =~= seq![]);
        assert(chunks_concat(cs.push(c).drop_first()) =~= seq![]);
        assert(cs.push(c)[0] == c);
        assert(chunks_concat(cs.push(c)) =~= chunk_bytes(c));
    } else {
        assert(cs.push(c).drop_first() =~= cs.drop_first().push(c));
        lemma_chunks_concat_push(cs.drop_first(), c);
        assert(chunks_concat(cs.push(c)) =~= chunk_bytes(cs[0]) + (chunks_concat(cs.drop_first()) + chunk_bytes(c)));
    }
}

/// Writes a field stream (see [`fields_bytes`]).
fn encode_fields(fields: &Vec<LcfField>) -> (r: Vec<u8>)
    ensures
        r@ == fields_bytes(fields_view(fields@)),
{
    let mut out: Vec<u8> = Vec::new();
    let mut i: usize = 0;
    while i < fields.len()
        invariant
            i <= fields@.len(),
            out@ == fields_concat(fields_view(fields@).subrange(0, i as int)),
        decreases fields@.len() - i,
    {
        let f = &fields[i];
        let ghost before = out@;
        match &f.typed {
            Some(t) => {
                let val = encode_value(t);
                let a = encode_leb(f.id as u64);
                let b = encode_leb(val.len() as u64);
                crate::util::append_bytes(&mut out, a.as_slice());
                crate::util::append_bytes(&mut out, b.as_slice());
                crate::util::append_bytes(&mut out, val.as_slice());
            },
            None => {
                crate::util::append_bytes(&mut out, f.raw.as_slice());
            },
        }
        proof {
            assert(out@ =~= before + field_bytes(f@));
            assert(fields_view(fields@).subrange(0, i + 1) =~= fields_view(fields@).subrange(0, i as int).push(f@));
            lemma_fields_concat_push(fields_view(fields@).subrange(0, i as int), f@);
        }
        i = i + 1;
    }
    assert(fields_view(fields@).subrange(0, fields@.len() as int) =~= fields_view(fields@));
    out.push(0);
    out
}

/// Writes a payload (see [`payload_encoding`]).
fn encode_payload(p: &LcfPayload) -> (r: Vec<u8>)
    ensures
        r@ == payload_encoding(p@),
{
    match p {
        LcfPayload::Raw(b) => b.clone(),
        LcfPayload::Fields(fields) => encode_fields(fields),
        LcfPayload::StructArray { count, elements } => {
            let mut out = encode_leb(*count as u64);
            let ghost head = out@;
            let mut i: usize = 0;
            while i < elements.len()
                invariant
                    i <= elements@.len(),
                    out@ == head + elements_concat(elements_view(elements@).subrange(0, i as int)),
                decreases elements@.len() - i,
            {
                let el = &elements[i];
                let a = encode_leb(el.id as u64);
                let b = encode_fields(&el.fields);
                crate::util::append_bytes(&mut out, a.as_slice());
                crate::util::append_bytes(&mut out, b.as_slice());
                proof {
                    let prev = elements_view(elements@).subrange(0, i as int);
                    let now = elements_view(elements@).subrange(0, i + 1);
                    assert(now.drop_last() =~= prev);
                    assert(now.last() == el@);
                }
                i = i + 1;
            }
            assert(elements_view(elements@).subrange(0, elements@.len() as int) =~= elements_view(elements@));
            out
        },
    }
}

/// The bytes of a payload as they would be written.
pub fn payload_bytes(p: &LcfPayload) -> (r: Vec<u8>)
    ensures
        r@ == payload_encoding(p@),
{
    encode_payload(p)
}

/// Number of bytes the fields take when written (without the end mark).
pub fn fields_len(fields: &Vec<LcfField>) -> (r: usize)
    ensures
        r == fields_concat(fields_view(fields@)).len(),
{
    let b = encode_fields(fields);
    b.len() - 1
}

/// Writes a document (see [`doc_bytes`]).
pub fn dump(doc: &LcfDoc) -> (r: Vec<u8>)
    ensures
        r@ == doc_bytes(doc@),
{
    let mut out = encode_leb(doc.header.len() as u64);
    crate::util::append_bytes(&mut out, doc.header.as_slice());
    let ghost head = out@;
    let mut i: usize = 0;
    while i < doc.chunks.len()
        invariant
            i <= doc.chunks@.len(),
            out@ == head + chunks_concat(chunks_view(doc.chunks@).subrange(0, i as int)),
        decreases doc.chunks@.len() - i,
    {
        let ch = &doc.chunks[i];
        let ghost before = out@;
        let a = encode_leb(ch.id as u64);
        let payload = encode_payload(&ch.payload);
        let b = encode_leb(payload.len() as u64);
        crate::util::append_bytes(&mut out, a.as_slice());
        crate::util::append_bytes(&mut out, b.as_slice());
        crate::util::append_bytes(&mut out, payload.as_slice());
        proof {
            assert(out@ =~= before + chunk_bytes(ch@));
            assert(chunks_view(doc.chunks@).subrange(0, i + 1) =~= chunks_view(doc.chunks@).subrange(0, i as int).push(ch@));
            lemma_chunks_concat_push(chunks_view(doc.chunks@).subrange(0, i as int), ch@);
        }
        i = i + 1;
    }
    assert(chunks_view(doc.chunks@).subrange(0, doc.chunks@.len() as int) =~= chunks_view(doc.chunks@));
    if doc.end_marker {
        out.push(0);
    }
    assert(out@ =~= doc_bytes(doc@));
    out
}

/// The number at `p` is written in its shortest form.
pub open spec fn leb_canon(b: Seq<u8>, p: int) -> bool {
    match leb_at(b, p) {
        Some(a) => 0 <= p && b.subrange(p, a.1) == leb_bytes(a.0 as nat),
        None => false,
    }
}

/// A payload read as `ft` is its value's own encoding (or has no value).
pub open spec fn typed_canon(ft: Option<FieldType>, p: Seq<u8>) -> bool {
    match typed_of(ft, p) {
        None => true,
        Some(v) => value_bytes(v) == p,
    }
}

/// The field stream from `p` comes back as it is when written again: its end
/// mark is a single zero byte, and each typed field has its id (below 2^32)
/// and length in shortest form and holds exactly its value's encoding.
pub open spec fn fields_canon(b: Seq<u8>, p: int, s: Schema) -> bool
    decreases b.len() - p,
{
    match leb_at(b, p) {
        None => false,
        Some(a) => if a.0 as u32 == 0 {
            leb_canon(b, p) && a.0 == 0
        } else {
            match leb_at(b, a.1) {
                None => false,
                Some(l) => {
                    let n = (l.0 as usize) as int;
                    if n > b.len() - l.1 || l.1 <= p {
                        false
                    } else {
                        let ft = field_type(s, a.0 as u32);
                        let payload = b.subrange(l.1, l.1 + n);
                        &&& (typed_of(ft, payload) is Some ==> leb_canon(b, p) && a.0 < 0x1_0000_0000
                            && leb_canon(b, a.1) && n == l.0 && typed_canon(ft, payload))
                        &&& fields_canon(b, l.1 + n, s)
                    }
                },
            }
        },
    }
}

/// The `k` struct array elements from `p` come back as they are: shortest
/// ids below 2^32 and field streams that come back.
pub open spec fn elements_canon(b: Seq<u8>, p: int, s: Schema, k: nat) -> bool
    decreases k,
{
    if k == 0 {
        true
    } else {
        elements_canon(b, p, s, (k - 1) as nat) && match elements_from(b, p, s, (k - 1) as nat) {
            None => false,
            Some(done) => match leb_at(b, done.1) {
                None => false,
                Some(a) => leb_canon(b, done.1) && a.0 < 0x1_0000_0000 && fields_canon(b, a.1, s),
            },
        }
    }
}

/// The payload of chunk `id` comes back as it is: a field stream that ends
/// the payload, a struct array with a shortest count below 2^32, or raw bytes.
pub open spec fn payload_canon(id: u32, p: Seq<u8>) -> bool {
    if id == 0x64 || id == 0x65 || id == 0x6D {
        let s = if id == 0x64 { Schema::Title } else if id == 0x65 { Schema::System } else { Schema::Inventory };
        fields_canon(p, 0, s) && match fields_from(p, 0, s) {
            Some(f) => f.1 == p.len(),
            None => false,
        }
    } else if id == 0x6C {
        match leb_at(p, 0) {
            None => false,
            Some(c) => leb_canon(p, 0) && c.0 < 0x1_0000_0000 && elements_canon(p, c.1, Schema::Actor, c.0 as nat),
        }
    } else {
        true
    }
}

/// The chunks from `p` come back as they are: shortest ids below 2^32 and
/// lengths, payloads that come back, and an end marker only as the last byte.
pub open spec fn chunks_canon(b: Seq<u8>, p: int) -> bool
    decreases b.len() - p,
{
    if p < 0 || p >= b.len() {
        p == b.len()
    } else {
        match leb_at(b, p) {
            None => false,
            Some(a) => leb_canon(b, p) && a.0 < 0x1_0000_0000 && if a.0 == 0 {
                a.1 == b.len()
            } else {
                match leb_at(b, a.1) {
                    None => false,
                    Some(l) => {
                        let n = (l.0 as usize) as int;
                        if n > b.len() - l.1 || l.1 <= p {
                            false
                        } else {
                            leb_canon(b, a.1) && n == l.0 && payload_canon(a.0 as u32, b.subrange(l.1, l.1 + n))
                                && chunks_canon(b, l.1 + n)
                        }
                    },
                }
            },
        }
    }
}

/// A file comes back as it is when written again: its header length is in
/// shortest form and its chunks come back.
pub open spec fn doc_canon(b: Seq<u8>) -> bool {
    leb_canon(b, 0) && match leb_at(b, 0) {
        Some(h) => (h.0 as usize) as int == h.0 && match header_at(b) {
            Some(hd) => chunks_canon(b, hd.1),
            None => false,
        },
        None => false,
    }
}

proof fn lemma_cat(b: Seq<u8>, i: int, j: int, k: int)
    requires
        0 <= i <= j <= k <= b.len(),
    ensures
        b.subrange(i, j) + b.subrange(j, k) == b.subrange(i, k),
{
    assert(b.subrange(i, j) + b.subrange(j, k) =~= b.subrange(i, k));
}

proof fn lemma_fields_rt(b: Seq<u8>, p: int, s: Schema)
    requires
        fields_from(b, p, s) is Some,
        fields_canon(b, p, s),
    ensures
        0 <= p <= fields_from(b, p, s).unwrap().1 <= b.len(),
        fields_bytes(fields_from(b, p, s).unwrap().0) == b.subrange(p, fields_from(b, p, s).unwrap().1),
    decreases b.len() - p,
{
    let a = leb_at(b, p).unwrap();
    lemma_leb_advances(b, p, 0);
    if a.0 as u32 == 0 {
        assert(leb_bytes(0) =~= seq![0u8]) by {
            reveal_with_fuel(crate::lcf::leb_groups, 2);
        }
        assert(fields_concat(seq![]) =~= seq![]);
        assert(fields_bytes(seq![]) =~= seq![0u8]);
    } else {
        let l = leb_at(b, a.1).unwrap();
        lemma_leb_advances(b, a.1, 0);
        let n = (l.0 as usize) as int;
        let e0 = l.1 + n;
        let id = a.0 as u32;
        let payload = b.subrange(l.1, e0);
        let f = FieldView { id: id, raw: b.subrange(p, e0), typed: typed_of(field_type(s, id), payload) };
        let rest = fields_from(b, e0, s).unwrap();
        lemma_fields_rt(b, e0, s);
        assert(fields_from(b, p, s).unwrap() == (seq![f] + rest.0, rest.1));
        match f.typed {
            Some(v) => {
                assert(value_bytes(v) == payload);
                assert(id as nat == a.0);
                assert(value_bytes(v).len() == l.0);
                lemma_cat(b, p, a.1, l.1);
                lemma_cat(b, p, l.1, e0);
                assert(field_bytes(f) == b.subrange(p, e0));
            },
            None => {
                assert(field_bytes(f) == b.subrange(p, e0));
            },
        }
        let fs = seq![f] + rest.0;
        assert(fs.drop_first() =~= rest.0);
        assert(fs[0] == f);
        assert(fields_concat(fs) == field_bytes(f) + fields_concat(rest.0));
        lemma_cat(b, p, e0, rest.1);
        assert(fields_bytes(fs) =~= b.subrange(p, e0) + fields_bytes(rest.0));
    }
}

proof fn lemma_elements_rt(b: Seq<u8>, p: int, s: Schema, k: nat)
    requires
        0 <= p <= b.len(),
        elements_from(b, p, s, k) is Some,
        elements_canon(b, p, s, k),
    ensures
        p <= elements_from(b, p, s, k).unwrap().1 <= b.len(),
        elements_concat(elements_from(b, p, s, k).unwrap().0) == b.subrange(p, elements_from(b, p, s, k).unwrap().1),
    decreases k,
{
    if k == 0 {
        assert(elements_concat(seq![]) =~= b.subrange(p, p));
    } else {
        let done = elements_from(b, p, s, (k - 1) as nat).unwrap();
        lemma_elements_rt(b, p, s, (k - 1) as nat);
        let a = leb_at(b, done.1).unwrap();
        lemma_leb_advances(b, done.1, 0);
        let fs = fields_from(b, a.1, s).unwrap();
        lemma_fields_rt(b, a.1, s);
        let el = ElementView { id: a.0 as u32, fields: fs.0 };
        let es = done.0.push(el);
        assert(es.drop_last() =~= done.0);
        assert(el.id as nat == a.0);
        lemma_cat(b, done.1, a.1, fs.1);
        lemma_cat(b, p, done.1, fs.1);
        assert(elements_concat(es) =~= elements_concat(done.0) + (leb_bytes(el.id as nat) + fields_bytes(el.fields)));
    }
}

proof fn lemma_payload_rt(id: u32, p: Seq<u8>)
    requires
        payload_of(id, p) is Some,
        payload_canon(id, p),
    ensures
        payload_encoding(payload_of(id, p).unwrap()) == p,
{
    if id == 0x64 || id == 0x65 || id == 0x6D {
        let s = if id == 0x64 { Schema::Title } else if id == 0x65 { Schema::System } else { Schema::Inventory };
        lemma_fields_rt(p, 0, s);
        assert(p.subrange(0, p.len() as int) =~= p);
    } else if id == 0x6C {
        let c = leb_at(p, 0).unwrap();
        lemma_leb_advances(p, 0, 0);
        let e = elements_from(p, c.1, Schema::Actor, (c.0 as u32) as nat).unwrap();
        assert((c.0 as u32) as nat == c.0);
        lemma_elements_rt(p, c.1, Schema::Actor, c.0 as nat);
        lemma_cat(p, 0, c.1, p.len() as int);
        assert(p.subrange(0, p.len() as int) =~= p);
    }
}

proof fn lemma_chunks_rt(b: Seq<u8>, p: int)
    requires
        chunks_from(b, p) is Some,
        chunks_canon(b, p),
    ensures
        0 <= p <= b.len(),
        chunks_concat(chunks_from(b, p).unwrap().0) + (if chunks_from(b, p).unwrap().1 {
            seq![0u8]
        } else {
            seq![]
        }) == b.subrange(p, b.len() as int),
    decreases b.len() - p,
{
    if p < 0 || p >= b.len() {
        assert(chunks_concat(seq![]) + seq![] =~= b.subrange(p, b.len() as int));
    } else {
        let a = leb_at(b, p).unwrap();
        lemma_leb_advances(b, p, 0);
        if a.0 as u32 == 0 {
            assert(leb_bytes(0) =~= seq![0u8]) by {
                reveal_with_fuel(crate::lcf::leb_groups, 2);
            }
            assert(chunks_concat(seq![]) + seq![0u8] =~= b.subrange(p, b.len() as int));
        } else {
            let l = leb_at(b, a.1).unwrap();
            lemma_leb_advances(b, a.1, 0);
            let n = (l.0 as usize) as int;
            let e0 = l.1 + n;
            let payload = b.subrange(l.1, e0);
            let pv = payload_of(a.0 as u32, payload).unwrap();
            lemma_payload_rt(a.0 as u32, payload);
            let c = ChunkView { id: a.0 as u32, payload: pv };
            let rest = chunks_from(b, e0).unwrap();
            lemma_chunks_rt(b, e0);
            assert(c.id as nat == a.0);
            lemma_cat(b, p, a.1, l.1);
            lemma_cat(b, p, l.1, e0);
            assert(chunk_bytes(c) == b.subrange(p, e0));
            let cs = seq![c] + rest.0;
            assert(cs.drop_first() =~= rest.0);
            assert(cs[0] == c);
            lemma_cat(b, p, e0, b.len() as int);
            let tail = if rest.1 { seq![0u8] } else { seq![] };
            assert(chunks_concat(cs) + tail =~= chunk_bytes(c) + (chunks_concat(rest.0) + tail));
        }
    }
}

/// Writing a parsed file gives back its bytes, for every file whose numbers
/// are in shortest form and whose typed fields hold exactly their values
/// (see [`doc_canon`]); this is what a file written by RPG_RT looks like.
pub proof fn law_parse_dump_roundtrip(b: Seq<u8>)
    requires
        doc_of(b) is Some,
        doc_canon(b),
    ensures
        doc_bytes(doc_of(b).unwrap()) == b,
{
    let h = leb_at(b, 0).unwrap();
    lemma_leb_advances(b, 0, 0);
    let hd = header_at(b).unwrap();
    let n = (h.0 as usize) as int;
    lemma_chunks_rt(b, hd.1);
    let d = doc_of(b).unwrap();
    assert(d.header.len() == h.0);
    lemma_cat(b, 0, h.1, hd.1);
    lemma_cat(b, 0, hd.1, b.len() as int);
    let tail = if d.end_marker { seq![0u8] } else { seq![] };
    assert(doc_bytes(d) =~= (leb_bytes(d.header.len()) + d.header) + (chunks_concat(d.chunks) + tail));
    assert(b.subrange(0, b.len() as int) =~= b);
}

impl LcfValue {
    pub fn as_int(&self) -> (r: Option<i64>)
        ensures
            r == (match self@ {
                ValueView::Int(v) => Some(v),
                _ => None,
            }),
    {
        match self {
            LcfValue::Int(v) => Some(*v),
            _ => None,
        }
    }

    pub fn as_u8_vec(&self) -> (r: Option<&Vec<u8>>)
        ensures
            match self@ {
                ValueView::U8(v) => r matches Some(x) && x@ == v,
                _ => r is None,
            },
    {
        match self {
            LcfValue::U8(v) => Some(v),
            _ => None,
        }
    }

    pub fn as_i16_vec(&self) -> (r: Option<&Vec<i16>>)
        ensures
            match self@ {
                ValueView::I16(v) => r matches Some(x) && x@ == v,
                _ => r is None,
            },
    {
        match self {
            LcfValue::I16(v) => Some(v),
            _ => None,
        }
    }

    pub fn as_i32_vec(&self) -> (r: Option<&Vec<i32>>)
        ensures
            match self@ {
                ValueView::I32(v) => r matches Some(x) && x@ == v,
                _ => r is None,
            },
    {
        match self {
            LcfValue::I32(v) => Some(v),
            _ => None,
        }
    }

    pub fn as_str(&self) -> (r: Option<&[u8]>)
        ensures
            match self@ {
                ValueView::Str(v) => r matches Some(x) && x@ == v,
                _ => r is None,
            },
    {
        match self {
            LcfValue::Str(s) => Some(s.as_slice()),
            _ => None,
        }
    }
}

/// Position of the first chunk with id `id`.
pub open spec fn chunk_pos(cs: Seq<LcfChunk>, id: u32) -> Option<int> {
    crate::util::first_index(cs, |c: LcfChunk| c.id == id)
}

/// Position of the first field with id `id`.
pub open spec fn field_pos(fs: Seq<LcfField>, id: u32) -> Option<int> {
    crate::util::first_index(fs, |f: LcfField| f.id == id)
}

/// The field `field_id` of the field-stream chunk `chunk_id` (the first of each).
pub open spec fn field_of(d: LcfDoc, chunk_id: u32, field_id: u32) -> Option<LcfField> {
    match chunk_pos(d.chunks@, chunk_id) {
        Some(c) => match d.chunks@[c].payload {
            LcfPayload::Fields(fs) => match field_pos(fs@, field_id) {
                Some(j) => Some(fs@[j]),
                None => None,
            },
            _ => None,
        },
        None => None,
    }
}

fn find_chunk(cs: &Vec<LcfChunk>, id: u32) -> (r: Option<usize>)
    ensures
        match chunk_pos(cs@, id) {
            Some(j) => r matches Some(i) && i as int == j && 0 <= j < cs@.len() && cs@[j].id == id,
            None => r is None,
        },
{
    let ghost p = |c: LcfChunk| c.id == id;
    let mut i: usize = 0;
    while i < cs.len()
        invariant
            i <= cs@.len(),
            p == (|c: LcfChunk| c.id == id),
            forall|k: int| 0 <= k < i ==> !p(#[trigger] cs@[k]),
        decreases cs@.len() - i,
    {
        if cs[i].id == id {
            proof {
                crate::util::lemma_first_index_at(cs@, p, i as int);
            }
            return Some(i);
        }
        i = i + 1;
    }
    proof {
        crate::util::lemma_first_index_none(cs@, p);
    }
    None
}

fn find_field(fs: &Vec<LcfField>, id: u32) -> (r: Option<usize>)
    ensures
        match field_pos(fs@, id) {
            Some(j) => r matches Some(i) && i as int == j && 0 <= j < fs@.len() && fs@[j].id == id,
            None => r is None,
        },
{
    let ghost p = |f: LcfField| f.id == id;
    let mut i: usize = 0;
    while i < fs.len()
        invariant
            i <= fs@.len(),
            p == (|f: LcfField| f.id == id),
            forall|k: int| 0 <= k < i ==> !p(#[trigger] fs@[k]),
        decreases fs@.len() - i,
    {
        if fs[i].id == id {
            proof {
                crate::util::lemma_first_index_at(fs@, p, i as int);
            }
            return Some(i);
        }
        i = i + 1;
    }
    proof {
        crate::util::lemma_first_index_none(fs@, p);
    }
    None
}

impl LcfDoc {
    /// The first chunk with id `id`.
    pub fn chunk(&self, id: u32) -> (r: Option<&LcfChunk>)
        ensures
            match chunk_pos(self.chunks@, id) {
                Some(j) => r == Some(&self.chunks@[j]),
                None => r is None,
            },
    {
        match find_chunk(&self.chunks, id) {
            Some(i) => Some(&self.chunks[i]),
            None => None,
        }
    }

    /// The first chunk with id `id`, for editing.
    pub fn chunk_mut(&mut self, id: u32) -> (r: Option<&mut LcfChunk>)
        ensures
            match chunk_pos(old(self).chunks@, id) {
                Some(j) => r is Some && *r.unwrap() == old(self).chunks@[j]
                    && final(self).chunks@ == old(self).chunks@.update(j, *final(r.unwrap()))
                    && final(self).header == old(self).header && final(self).end_marker == old(self).end_marker,
                None => r is None && *final(self) == *old(self),
            },
    {
        match find_chunk(&self.chunks, id) {
            Some(i) => Some(&mut self.chunks[i]),
            None => None,
        }
    }

    /// Field `field_id` of the field-stream chunk `chunk_id`.
    pub fn field(&self, chunk_id: u32, field_id: u32) -> (r: Option<&LcfField>)
        ensures
            match field_of(*self, chunk_id, field_id) {
                Some(f) => r == Some(&f),
                None => r is None,
            },
    {
        match self.chunk(chunk_id) {
            Some(c) => match &c.payload {
                LcfPayload::Fields(fs) => match find_field(fs, field_id) {
                    Some(j) => Some(&fs[j]),
                    None => None,
                },
                _ => None,
            },
            None => None,
        }
    }

    /// Field `field_id` of the field-stream chunk `chunk_id`, for editing.
    pub fn field_mut(&mut self, chunk_id: u32, field_id: u32) -> (r: Option<&mut LcfField>)
        ensures
            match field_of(*old(self), chunk_id, field_id) {
                Some(f) => r is Some && *r.unwrap() == f && final(self).header == old(self).header
                    && final(self).end_marker == old(self).end_marker && ({
                    let c = chunk_pos(old(self).chunks@, chunk_id).unwrap();
                    let fs = old(self).chunks@[c].payload->Fields_0;
                    let j = field_pos(fs@, field_id).unwrap();
                    &&& final(self).chunks@.len() == old(self).chunks@.len()
                    &&& forall|k: int| 0 <= k < old(self).chunks@.len() && k != c ==> final(self).chunks@[k] == old(self).chunks@[k]
                    &&& final(self).chunks@[c].id == chunk_id
                    &&& final(self).chunks@[c].payload matches LcfPayload::Fields(fs2) && fs2@ == fs@.update(j, *final(r.unwrap()))
                }),
                None => r is None && *final(self) == *old(self),
            },
    {
        let c = match find_chunk(&self.chunks, chunk_id) {
            Some(i) => i,
            None => {
                return None;
            },
        };
        let j = match &self.chunks[c].payload {
            LcfPayload::Fields(fs) => match find_field(fs, field_id) {
                Some(j) => j,
                None => {
                    return None;
                },
            },
            _ => {
                return None;
            },
        };
        match &mut self.chunks[c].payload {
            LcfPayload::Fields(fs) => Some(&mut fs[j]),
            _ => None,
        }
    }

    /// The bytes of a U8-typed field (switch flags and the like).
    pub fn u8_field(&self, chunk_id: u32, field_id: u32) -> (r: Option<&[u8]>)
        ensures
            match field_of(*self, chunk_id, field_id) {
                Some(f) => match typed_view(f.typed) {
                    Some(ValueView::U8(v)) => r matches Some(x) && x@ == v,
                    _ => r is None,
                },
                None => r is None,
            },
    {
        match self.field(chunk_id, field_id) {
            Some(f) => match &f.typed {
                Some(t) => match t.as_u8_vec() {
                    Some(v) => Some(v.as_slice()),
                    None => None,
                },
                None => None,
            },
            None => None,
        }
    }

    /// The value of an Int-typed field.
    pub fn int_field(&self, chunk_id: u32, field_id: u32) -> (r: Option<i64>)
        ensures
            r == (match field_of(*self, chunk_id, field_id) {
                Some(f) => match typed_view(f.typed) {
                    Some(ValueView::Int(v)) => Some(v),
                    _ => None,
                },
                None => None,
            }),
    {
        match self.field(chunk_id, field_id) {
            Some(f) => match &f.typed {
                Some(t) => t.as_int(),
                None => None,
            },
            None => None,
        }
    }

    /// Sets a field to an integer (written in its shortest form on saving);
    /// `false`, with nothing changed, when there is no such field. Nothing
    /// but that field's value changes.
    pub fn set_int_field(&mut self, chunk_id: u32, field_id: u32, v: i64) -> (r: bool)
        ensures
            r == (field_of(*old(self), chunk_id, field_id) is Some),
            r ==> (field_of(*final(self), chunk_id, field_id) matches Some(f) && typed_view(f.typed) == Some(ValueView::Int(v))
                && f.id == field_id),
            r ==> field_set(*old(self), *final(self), chunk_id, field_id, LcfField {
                id: field_id,
                raw: field_of(*old(self), chunk_id, field_id).unwrap().raw,
                typed: Some(LcfValue::Int(v)),
            }),
            !r ==> *final(self) == *old(self),
    {
        let ghost d0 = *self;
        match self.field_mut(chunk_id, field_id) {
            Some(f) => {
                f.typed = Some(LcfValue::Int(v));
                proof {
                    lemma_field_after_set(d0, *self, chunk_id, field_id);
                }
                true
            },
            None => false,
        }
    }
}

/// `d1` is `d0` with field `field_id` of chunk `chunk_id` (the first of
/// each) replaced by `f`, and nothing else changed.
pub open spec fn field_set(d0: LcfDoc, d1: LcfDoc, chunk_id: u32, field_id: u32, f: LcfField) -> bool {
    let c = chunk_pos(d0.chunks@, chunk_id).unwrap();
    let fs = d0.chunks@[c].payload->Fields_0;
    let j = field_pos(fs@, field_id).unwrap();
    &&& d1.header == d0.header
    &&& d1.end_marker == d0.end_marker
    &&& d1.chunks@.len() == d0.chunks@.len()
    &&& forall|k: int| 0 <= k < d0.chunks@.len() && k != c ==> d1.chunks@[k] == d0.chunks@[k]
    &&& d1.chunks@[c].id == chunk_id
    &&& d1.chunks@[c].payload matches LcfPayload::Fields(fs2) && fs2@ == fs@.update(j, f)
}

pub proof fn lemma_first_index_same<A, B>(s1: Seq<A>, p1: spec_fn(A) -> bool, s2: Seq<B>, p2: spec_fn(B) -> bool)
    requires
        s1.len() == s2.len(),
        forall|k: int| 0 <= k < s1.len() ==> p1(#[trigger] s1[k]) == p2(s2[k]),
    ensures
        crate::util::first_index(s1, p1) == crate::util::first_index(s2, p2),
{
    if crate::util::first_index(s1, p1) is Some {
        crate::util::lemma_first_index_some(s1, p1);
        let j = crate::util::first_index(s1, p1)->0;
        assert(p2(s2[j]));
        assert forall|k: int| 0 <= k < j implies !p2(#[trigger] s2[k]) by {
            assert(!p1(s1[k]));
        }
        crate::util::lemma_first_index_at(s2, p2, j);
    } else if crate::util::first_index(s2, p2) is Some {
        crate::util::lemma_first_index_some(s2, p2);
        let j = crate::util::first_index(s2, p2)->0;
        assert(p1(s1[j]));
        assert forall|k: int| 0 <= k < j implies !p1(#[trigger] s1[k]) by {
            assert(!p2(s2[k]));
        }
        crate::util::lemma_first_index_at(s1, p1, j);
    }
}

/// Replacing one field of a save leaves every other field as it was, and
/// that field reads back as what was written.
pub proof fn law_field_set_keeps_others(
    d0: LcfDoc,
    d1: LcfDoc,
    chunk_id: u32,
    field_id: u32,
    f: LcfField,
    other_chunk: u32,
    other_field: u32,
)
    requires
        field_of(d0, chunk_id, field_id) is Some,
        f.id == field_id,
        field_set(d0, d1, chunk_id, field_id, f),
    ensures
        field_of(d1, chunk_id, field_id) == Some(f),
        (other_chunk != chunk_id || other_field != field_id) ==> field_of(d1, other_chunk, other_field)
            == field_of(d0, other_chunk, other_field),
{
    let c = chunk_pos(d0.chunks@, chunk_id).unwrap();
    crate::util::lemma_first_index_some(d0.chunks@, |x: LcfChunk| x.id == chunk_id);
    let fs = d0.chunks@[c].payload->Fields_0;
    let j = field_pos(fs@, field_id).unwrap();
    crate::util::lemma_first_index_some(fs@, |x: LcfField| x.id == field_id);
    let fs2 = d1.chunks@[c].payload->Fields_0;
    assert forall|k: int| 0 <= k < d0.chunks@.len() implies (#[trigger] d0.chunks@[k]).id == d1.chunks@[k].id by {
        if k == c {
        }
    }
    assert forall|k: int| 0 <= k < fs@.len() implies (#[trigger] fs@[k]).id == fs2@[k].id by {
        if k == j {
        }
    }
    lemma_first_index_same(d0.chunks@, |x: LcfChunk| x.id == chunk_id, d1.chunks@, |x: LcfChunk| x.id == chunk_id);
    lemma_first_index_same(fs@, |x: LcfField| x.id == field_id, fs2@, |x: LcfField| x.id == field_id);
    lemma_first_index_same(
        d0.chunks@,
        |x: LcfChunk| x.id == other_chunk,
        d1.chunks@,
        |x: LcfChunk| x.id == other_chunk,
    );
    lemma_first_index_same(fs@, |x: LcfField| x.id == other_field, fs2@, |x: LcfField| x.id == other_field);
    if other_chunk != chunk_id || other_field != field_id {
        match chunk_pos(d0.chunks@, other_chunk) {
            Some(c2) => {
                crate::util::lemma_first_index_some(d0.chunks@, |x: LcfChunk| x.id == other_chunk);
                if c2 == c {
                    match field_pos(fs@, other_field) {
                        Some(j2) => {
                            crate::util::lemma_first_index_some(fs@, |x: LcfField| x.id == other_field);
                            assert(j2 != j);
                        },
                        None => {},
                    }
                }
            },
            None => {},
        }
    }
}

proof fn lemma_field_after_set(d0: LcfDoc, d1: LcfDoc, chunk_id: u32, field_id: u32)
    requires
        field_of(d0, chunk_id, field_id) is Some,
        ({
            let c = chunk_pos(d0.chunks@, chunk_id).unwrap();
            let fs = d0.chunks@[c].payload->Fields_0;
            let j = field_pos(fs@, field_id).unwrap();
            &&& d1.chunks@.len() == d0.chunks@.len()
            &&& forall|k: int| 0 <= k < d0.chunks@.len() && k != c ==> d1.chunks@[k] == d0.chunks@[k]
            &&& d1.chunks@[c].id == chunk_id
            &&& d1.chunks@[c].payload matches LcfPayload::Fields(fs2) && fs2@.len() == fs@.len()
                && (forall|k: int| 0 <= k < fs@.len() && k != j ==> fs2@[k] == fs@[k]) && fs2@[j].id == field_id
        }),
    ensures
        field_of(d1, chunk_id, field_id) matches Some(f) && f == (d1.chunks@[chunk_pos(d0.chunks@, chunk_id).unwrap()].payload->Fields_0)@[field_pos((d0.chunks@[chunk_pos(d0.chunks@, chunk_id).unwrap()].payload->Fields_0)@, field_id).unwrap()],
{
    let c = chunk_pos(d0.chunks@, chunk_id).unwrap();
    crate::util::lemma_first_index_some(d0.chunks@, |x: LcfChunk| x.id == chunk_id);
    let fs = d0.chunks@[c].payload->Fields_0;
    let j = field_pos(fs@, field_id).unwrap();
    crate::util::lemma_first_index_some(fs@, |x: LcfField| x.id == field_id);
    assert(crate::util::is_first(d1.chunks@, |x: LcfChunk| x.id == chunk_id, c));
    crate::util::lemma_first_index_at(d1.chunks@, |x: LcfChunk| x.id == chunk_id, c);
    let fs2 = d1.chunks@[c].payload->Fields_0;
    assert(crate::util::is_first(fs2@, |x: LcfField| x.id == field_id, j));
    crate::util::lemma_first_index_at(fs2@, |x: LcfField| x.id == field_id, j);
}

} // verus!
