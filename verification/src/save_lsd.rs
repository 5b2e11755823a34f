//! RPG Maker 2000/2003 saves (`.lsd`): the editing operations of a save,
//! on top of the LCF document.
//!
//! Switches and variables live in SaveSystem (chunk 0x65), gold, goods and
//! the party in SaveInventory (chunk 0x6D), and the actors are the
//! elements of chunk 0x6C.
use vstd::prelude::*;
use crate::lcf_doc::{
    ChunkView, DocView, ElementView, FieldView, LcfDoc, LcfElement, LcfField, LcfValue, PayloadView,
    ValueView, chunk_pos, chunks_view, elements_view, field_of, field_pos, fields_view,
    lemma_first_index_same, typed_view, LcfChunk, LcfPayload,
};
use crate::util::{first_index, lemma_first_index_some};
use crate::save::InvKind;
use crate::lcf::text_of;
use crate::text::gbk_encoded;
use vstd::string::StringSliceAdditionalSpecFns;

verus! {

/// SaveSystem chunk and its fields.
pub const SYSTEM: u32 = 0x65;
pub const SWITCHES_SIZE: u32 = 0x1F;
pub const SWITCHES: u32 = 0x20;
pub const VARIABLES_SIZE: u32 = 0x21;
pub const VARIABLES: u32 = 0x22;

/// SaveInventory chunk and its fields.
pub const INVENTORY: u32 = 0x6D;
pub const PARTY: u32 = 0x02;
pub const ITEM_IDS_SIZE: u32 = 0x0B;
pub const ITEM_IDS: u32 = 0x0C;
pub const ITEM_COUNTS: u32 = 0x0D;
pub const GOLD: u32 = 0x15;

/// The actors chunk and the fields of an actor.
pub const ACTORS: u32 = 0x6C;
pub const NAME: u32 = 0x01;
pub const LEVEL: u32 = 0x1F;
pub const EXP: u32 = 0x20;
pub const HP_MOD: u32 = 0x21;
pub const SP_MOD: u32 = 0x22;
pub const ATK_MOD: u32 = 0x29;
pub const DEF_MOD: u32 = 0x2A;
pub const SPI_MOD: u32 = 0x2B;
pub const AGI_MOD: u32 = 0x2C;
pub const SKILLS_SIZE: u32 = 0x33;
pub const SKILLS: u32 = 0x34;
pub const EQUIPPED: u32 = 0x3D;
pub const CURRENT_HP: u32 = 0x47;
pub const CURRENT_SP: u32 = 0x48;
pub const STATUS_SIZE: u32 = 0x51;
pub const STATUS: u32 = 0x52;
pub const CLASS_ID: u32 = 0x5A;

// ---------------------------------------------------------------------------
// Fields of a document, as plain values
// ---------------------------------------------------------------------------

pub open spec fn chunk_is(c: u32) -> spec_fn(ChunkView) -> bool {
    |x: ChunkView| x.id == c
}

pub open spec fn field_is(f: u32) -> spec_fn(FieldView) -> bool {
    |x: FieldView| x.id == f
}

/// Where field `f` of chunk `c` is: the first chunk with that id, when it
/// is a field stream, and its first field with that id.
pub open spec fn vfield_pos(dv: DocView, c: u32, f: u32) -> Option<(int, int)> {
    match first_index(dv.chunks, chunk_is(c)) {
        Some(ci) => match dv.chunks[ci].payload {
            PayloadView::Fields(fs) => match first_index(fs, field_is(f)) {
                Some(j) => Some((ci, j)),
                None => None,
            },
            _ => None,
        },
        None => None,
    }
}

/// The value of field `f` of chunk `c`.
pub open spec fn vvalue(dv: DocView, c: u32, f: u32) -> Option<ValueView> {
    match vfield_pos(dv, c, f) {
        Some((ci, j)) => dv.chunks[ci].payload->Fields_0[j].typed,
        None => None,
    }
}

/// The document with the value of field `f` of chunk `c` replaced (unchanged
/// when there is no such field).
pub open spec fn vset(dv: DocView, c: u32, f: u32, v: ValueView) -> DocView {
    match vfield_pos(dv, c, f) {
        Some((ci, j)) => {
            let fs = dv.chunks[ci].payload->Fields_0;
            DocView {
                chunks: dv.chunks.update(
                    ci,
                    ChunkView {
                        id: c,
                        payload: PayloadView::Fields(fs.update(j, FieldView { typed: Some(v), ..fs[j] })),
                    },
                ),
                ..dv
            }
        },
        None => dv,
    }
}

/// The positions `field_of` uses are those of the view.
proof fn lemma_bridge(d: LcfDoc, c: u32, f: u32)
    ensures
        chunk_pos(d.chunks@, c) == first_index(d@.chunks, chunk_is(c)),
        (field_of(d, c, f) is Some) == (vfield_pos(d@, c, f) is Some),
        field_of(d, c, f) matches Some(fl) ==> vfield_pos(d@, c, f) matches Some((ci, j)) && ci == chunk_pos(
            d.chunks@,
            c,
        )->0 && j == field_pos(d.chunks@[ci].payload->Fields_0@, f)->0 && fl == d.chunks@[ci].payload->Fields_0@[j]
            && d@.chunks[ci].payload->Fields_0[j] == fl@,
{
    lemma_first_index_same(d.chunks@, |x: LcfChunk| x.id == c, d@.chunks, chunk_is(c));
    match chunk_pos(d.chunks@, c) {
        Some(ci) => {
            lemma_first_index_some(d.chunks@, |x: LcfChunk| x.id == c);
            match d.chunks@[ci].payload {
                LcfPayload::Fields(fs) => {
                    lemma_first_index_same(fs@, |x: LcfField| x.id == f, fields_view(fs@), field_is(f));
                    if field_pos(fs@, f) is Some {
                        lemma_first_index_some(fs@, |x: LcfField| x.id == f);
                    }
                },
                _ => {},
            }
        },
        None => {},
    }
}

/// The value of field `f` of chunk `c`.
pub fn value_of(doc: &LcfDoc, c: u32, f: u32) -> (r: Option<&LcfValue>)
    ensures
        match vvalue(doc@, c, f) {
            Some(v) => r matches Some(x) && x@ == v,
            None => r is None,
        },
{
    proof {
        lemma_bridge(*doc, c, f);
    }
    match doc.field(c, f) {
        Some(fl) => match &fl.typed {
            Some(t) => Some(t),
            None => None,
        },
        None => None,
    }
}

/// Replaces the value of field `f` of chunk `c`; `false`, with nothing
/// changed, when there is no such field.
pub fn set_value(doc: &mut LcfDoc, c: u32, f: u32, v: LcfValue) -> (r: bool)
    ensures
        r == (vfield_pos(old(doc)@, c, f) is Some),
        final(doc)@ == vset(old(doc)@, c, f, v@),
{
    let ghost d0 = *doc;
    proof {
        lemma_bridge(*doc, c, f);
    }
    match doc.field_mut(c, f) {
        Some(fl) => {
            fl.typed = Some(v);
            proof {
                let ci = chunk_pos(d0.chunks@, c)->0;
                let fs = d0.chunks@[ci].payload->Fields_0;
                let j = field_pos(fs@, f)->0;
                let fs2 = doc.chunks@[ci].payload->Fields_0;
                assert(fields_view(fs2@) =~= fields_view(fs@).update(j, FieldView { typed: Some(v@), ..fields_view(fs@)[j] }));
                assert(doc@.chunks =~= vset(d0@, c, f, v@).chunks);
            }
            true
        },
        None => false,
    }
}

// ---------------------------------------------------------------------------
// Actors, as plain values
// ---------------------------------------------------------------------------

pub open spec fn elem_is(id: u32) -> spec_fn(ElementView) -> bool {
    |x: ElementView| x.id == id
}

/// Where actor `id` is: the actors chunk (the first with its id, when it is
/// a struct array) and the first element with that id.
pub open spec fn vactor_pos(dv: DocView, id: u32) -> Option<(int, int)> {
    match first_index(dv.chunks, chunk_is(ACTORS)) {
        Some(ci) => match dv.chunks[ci].payload {
            PayloadView::StructArray { elements, .. } => match first_index(elements, elem_is(id)) {
                Some(e) => Some((ci, e)),
                None => None,
            },
            _ => None,
        },
        None => None,
    }
}

/// Actor `id`.
pub open spec fn vactor(dv: DocView, id: u32) -> Option<ElementView> {
    match vactor_pos(dv, id) {
        Some((ci, e)) => Some(dv.chunks[ci].payload->StructArray_elements[e]),
        None => None,
    }
}

/// The first field `f` of an element.
pub open spec fn elem_field(el: ElementView, f: u32) -> Option<FieldView> {
    match first_index(el.fields, field_is(f)) {
        Some(k) => Some(el.fields[k]),
        None => None,
    }
}

/// The value of field `f` of actor `id`.
pub open spec fn vactor_value(dv: DocView, id: u32, f: u32) -> Option<ValueView> {
    match vactor(dv, id) {
        Some(el) => match elem_field(el, f) {
            Some(fv) => fv.typed,
            None => None,
        },
        None => None,
    }
}

/// An element with the value of its field `f` replaced (unchanged without one).
pub open spec fn elem_set(el: ElementView, f: u32, v: ValueView) -> ElementView {
    match first_index(el.fields, field_is(f)) {
        Some(k) => ElementView { fields: el.fields.update(k, FieldView { typed: Some(v), ..el.fields[k] }), ..el },
        None => el,
    }
}

/// The document with actor `id` replaced by `el` (unchanged without one).
pub open spec fn with_actor(dv: DocView, id: u32, el: ElementView) -> DocView {
    match vactor_pos(dv, id) {
        Some((ci, e)) => {
            let p = dv.chunks[ci].payload;
            DocView {
                chunks: dv.chunks.update(
                    ci,
                    ChunkView {
                        id: ACTORS,
                        payload: PayloadView::StructArray {
                            count: p->StructArray_count,
                            elements: p->StructArray_elements.update(e, el),
                        },
                    },
                ),
                ..dv
            }
        },
        None => dv,
    }
}

/// The document with the value of field `f` of actor `id` replaced.
pub open spec fn vactor_set(dv: DocView, id: u32, f: u32, v: ValueView) -> DocView {
    match vactor(dv, id) {
        Some(el) => with_actor(dv, id, elem_set(el, f, v)),
        None => dv,
    }
}

fn find_field_v(fs: &Vec<LcfField>, f: u32) -> (r: Option<usize>)
    ensures
        match r {
            Some(k) => first_index(fields_view(fs@), field_is(f)) == Some(k as int) && k < fs@.len(),
            None => first_index(fields_view(fs@), field_is(f)) is None,
        },
{
    let mut i: usize = 0;
    while i < fs.len()
        invariant
            i <= fs@.len(),
            forall|k: int| 0 <= k < i ==> !field_is(f)(#[trigger] fields_view(fs@)[k]),
        decreases fs@.len() - i,
    {
        if fs[i].id == f {
            proof {
                crate::util::lemma_first_index_at(fields_view(fs@), field_is(f), i as int);
            }
            return Some(i);
        }
        i = i + 1;
    }
    proof {
        crate::util::lemma_first_index_none(fields_view(fs@), field_is(f));
    }
    None
}

fn find_element(elements: &Vec<LcfElement>, id: u32) -> (r: Option<usize>)
    ensures
        match r {
            Some(k) => first_index(elements_view(elements@), elem_is(id)) == Some(k as int) && k < elements@.len(),
            None => first_index(elements_view(elements@), elem_is(id)) is None,
        },
{
    let mut e: usize = 0;
    while e < elements.len()
        invariant
            e <= elements@.len(),
            forall|k: int| 0 <= k < e ==> !elem_is(id)(#[trigger] elements_view(elements@)[k]),
        decreases elements@.len() - e,
    {
        if elements[e].id == id {
            proof {
                crate::util::lemma_first_index_at(elements_view(elements@), elem_is(id), e as int);
            }
            return Some(e);
        }
        e = e + 1;
    }
    proof {
        crate::util::lemma_first_index_none(elements_view(elements@), elem_is(id));
    }
    None
}

fn find_chunk_v(chunks: &Vec<LcfChunk>, c: u32) -> (r: Option<usize>)
    ensures
        match r {
            Some(k) => first_index(chunks_view(chunks@), chunk_is(c)) == Some(k as int) && k < chunks@.len(),
            None => first_index(chunks_view(chunks@), chunk_is(c)) is None,
        },
{
    let mut i: usize = 0;
    while i < chunks.len()
        invariant
            i <= chunks@.len(),
            forall|k: int| 0 <= k < i ==> !chunk_is(c)(#[trigger] chunks_view(chunks@)[k]),
        decreases chunks@.len() - i,
    {
        if chunks[i].id == c {
            proof {
                crate::util::lemma_first_index_at(chunks_view(chunks@), chunk_is(c), i as int);
            }
            return Some(i);
        }
        i = i + 1;
    }
    proof {
        crate::util::lemma_first_index_none(chunks_view(chunks@), chunk_is(c));
    }
    None
}

/// Where actor `id` is.
fn actor_index(doc: &LcfDoc, id: u32) -> (r: Option<(usize, usize)>)
    ensures
        r is None <==> vactor_pos(doc@, id) is None,
        r matches Some((ci, e)) ==> (vactor_pos(doc@, id) == Some((ci as int, e as int)) && ci < doc.chunks@.len() && (
        doc.chunks@[ci as int].payload matches LcfPayload::StructArray { elements, .. } && e < elements@.len())),
{
    match find_chunk_v(&doc.chunks, ACTORS) {
        Some(ci) => match &doc.chunks[ci].payload {
            LcfPayload::StructArray { elements, .. } => {
                assert(doc@.chunks[ci as int].payload->StructArray_elements == elements_view(elements@));
                match find_element(elements, id) {
                    Some(e) => Some((ci, e)),
                    None => None,
                }
            },
            _ => None,
        },
        None => None,
    }
}

/// The value of field `f` of actor `id`.
pub fn actor_value_of(doc: &LcfDoc, id: u32, f: u32) -> (r: Option<&LcfValue>)
    ensures
        match vactor_value(doc@, id, f) {
            Some(v) => r matches Some(x) && x@ == v,
            None => r is None,
        },
{
    match actor_index(doc, id) {
        Some((ci, e)) => match &doc.chunks[ci].payload {
            LcfPayload::StructArray { elements, .. } => {
                let el = &elements[e];
                match find_field_v(&el.fields, f) {
                    Some(k) => match &el.fields[k].typed {
                        Some(t) => Some(t),
                        None => None,
                    },
                    None => None,
                }
            },
            _ => None,
        },
        None => None,
    }
}

/// Replaces the value of field `f` of an element.
fn elem_set_value(el: &mut LcfElement, f: u32, v: LcfValue) -> (r: bool)
    ensures
        r == (first_index(old(el)@.fields, field_is(f)) is Some),
        final(el)@ == elem_set(old(el)@, f, v@),
{
    let ghost e0 = el@;
    match find_field_v(&el.fields, f) {
        Some(k) => {
            let raw = vstd::slice::slice_to_vec(el.fields[k].raw.as_slice());
            let fl = LcfField { id: el.fields[k].id, raw, typed: Some(v) };
            el.fields.set(k, fl);
            proof {
                assert(fields_view(el.fields@) =~= e0.fields.update(k as int, FieldView { typed: Some(v@), ..e0.fields[k as int] }));
            }
            true
        },
        None => false,
    }
}

/// Replaces element `e` of the struct-array chunk `ci` by what `edit` makes
/// of it.
proof fn lemma_with_actor(d0: DocView, d1: DocView, id: u32, el: ElementView)
    requires
        vactor_pos(d0, id) matches Some((ci, e)) && d1 == (DocView {
            chunks: d0.chunks.update(
                ci,
                ChunkView {
                    id: d0.chunks[ci].id,
                    payload: PayloadView::StructArray {
                        count: d0.chunks[ci].payload->StructArray_count,
                        elements: d0.chunks[ci].payload->StructArray_elements.update(e, el),
                    },
                },
            ),
            ..d0
        }),
    ensures
        d1 == with_actor(d0, id, el),
{
    let (ci, e) = vactor_pos(d0, id)->0;
    lemma_first_index_some(d0.chunks, chunk_is(ACTORS));
}

/// Applies `elem_set` to actor `id`.
pub fn set_actor_value(doc: &mut LcfDoc, id: u32, f: u32, v: LcfValue) -> (r: bool)
    ensures
        r == (vactor(old(doc)@, id) matches Some(el) && first_index(el.fields, field_is(f)) is Some),
        final(doc)@ == vactor_set(old(doc)@, id, f, v@),
{
    let ghost d0 = doc@;
    match actor_index(doc, id) {
        Some((ci, e)) => {
            let ch = doc.chunks.remove(ci);
            let LcfChunk { id: cid, payload } = ch;
            match payload {
                LcfPayload::StructArray { count, mut elements } => {
                    let ghost el0 = elements@[e as int]@;
                    let mut el = elements.remove(e);
                    let r = elem_set_value(&mut el, f, v);
                    let ghost el1 = el@;
                    elements.insert(e, el);
                    doc.chunks.insert(ci, LcfChunk { id: cid, payload: LcfPayload::StructArray { count, elements } });
                    proof {
                        let ch1 = ChunkView {
                            id: d0.chunks[ci as int].id,
                            payload: PayloadView::StructArray {
                                count: d0.chunks[ci as int].payload->StructArray_count,
                                elements: d0.chunks[ci as int].payload->StructArray_elements.update(e as int, el1),
                            },
                        };
                        assert(elements_view(elements@) =~= d0.chunks[ci as int].payload->StructArray_elements.update(e as int, el1));
                        assert(doc@.chunks =~= d0.chunks.update(ci as int, ch1));
                        lemma_with_actor(d0, doc@, id, el1);
                    }
                    r
                },
                other => {
                    doc.chunks.insert(ci, LcfChunk { id: cid, payload: other });
                    false
                },
            }
        },
        None => false,
    }
}

/// Appends a field to actor `id`.
pub open spec fn vactor_push(dv: DocView, id: u32, fv: FieldView) -> DocView {
    match vactor(dv, id) {
        Some(el) => with_actor(dv, id, ElementView { fields: el.fields.push(fv), ..el }),
        None => dv,
    }
}

fn push_actor_field(doc: &mut LcfDoc, id: u32, fl: LcfField) -> (r: bool)
    ensures
        r == vactor(old(doc)@, id) is Some,
        final(doc)@ == vactor_push(old(doc)@, id, fl@),
{
    let ghost d0 = doc@;
    let ghost fv = fl@;
    match actor_index(doc, id) {
        Some((ci, e)) => {
            let ch = doc.chunks.remove(ci);
            let LcfChunk { id: cid, payload } = ch;
            match payload {
                LcfPayload::StructArray { count, mut elements } => {
                    let mut el = elements.remove(e);
                    let ghost el0 = el@;
                    el.fields.push(fl);
                    let ghost el1 = el@;
                    assert(el1 == ElementView { fields: el0.fields.push(fv), ..el0 }) by {
                        assert(el1.fields =~= el0.fields.push(fv));
                    }
                    elements.insert(e, el);
                    doc.chunks.insert(ci, LcfChunk { id: cid, payload: LcfPayload::StructArray { count, elements } });
                    proof {
                        let ch1 = ChunkView {
                            id: d0.chunks[ci as int].id,
                            payload: PayloadView::StructArray {
                                count: d0.chunks[ci as int].payload->StructArray_count,
                                elements: d0.chunks[ci as int].payload->StructArray_elements.update(e as int, el1),
                            },
                        };
                        assert(elements_view(elements@) =~= d0.chunks[ci as int].payload->StructArray_elements.update(e as int, el1));
                        assert(doc@.chunks =~= d0.chunks.update(ci as int, ch1));
                        lemma_with_actor(d0, doc@, id, el1);
                    }
                    true
                },
                other => {
                    doc.chunks.insert(ci, LcfChunk { id: cid, payload: other });
                    false
                },
            }
        },
        None => false,
    }
}

// ---------------------------------------------------------------------------
// Typed values
// ---------------------------------------------------------------------------

pub open spec fn u8s_at(dv: DocView, c: u32, f: u32) -> Option<Seq<u8>> {
    match vvalue(dv, c, f) {
        Some(ValueView::U8(v)) => Some(v),
        _ => None,
    }
}

pub open spec fn i16s_at(dv: DocView, c: u32, f: u32) -> Option<Seq<i16>> {
    match vvalue(dv, c, f) {
        Some(ValueView::I16(v)) => Some(v),
        _ => None,
    }
}

pub open spec fn i32s_at(dv: DocView, c: u32, f: u32) -> Option<Seq<i32>> {
    match vvalue(dv, c, f) {
        Some(ValueView::I32(v)) => Some(v),
        _ => None,
    }
}

pub open spec fn int_at(dv: DocView, c: u32, f: u32) -> Option<i64> {
    match vvalue(dv, c, f) {
        Some(ValueView::Int(v)) => Some(v),
        _ => None,
    }
}

fn u8s(doc: &LcfDoc, c: u32, f: u32) -> (r: Option<&Vec<u8>>)
    ensures
        match u8s_at(doc@, c, f) {
            Some(v) => r matches Some(x) && x@ == v,
            None => r is None,
        },
{
    match value_of(doc, c, f) {
        Some(t) => t.as_u8_vec(),
        None => None,
    }
}

fn i16s(doc: &LcfDoc, c: u32, f: u32) -> (r: Option<&Vec<i16>>)
    ensures
        match i16s_at(doc@, c, f) {
            Some(v) => r matches Some(x) && x@ == v,
            None => r is None,
        },
{
    match value_of(doc, c, f) {
        Some(t) => t.as_i16_vec(),
        None => None,
    }
}

fn i32s(doc: &LcfDoc, c: u32, f: u32) -> (r: Option<&Vec<i32>>)
    ensures
        match i32s_at(doc@, c, f) {
            Some(v) => r matches Some(x) && x@ == v,
            None => r is None,
        },
{
    match value_of(doc, c, f) {
        Some(t) => t.as_i32_vec(),
        None => None,
    }
}

/// Zeros appended to reach length `n`.
pub open spec fn padded<A>(v: Seq<A>, n: int, zero: A) -> Seq<A> {
    if v.len() >= n {
        v
    } else {
        v + Seq::new((n - v.len()) as nat, |i: int| zero)
    }
}

/// The ids `1..n` whose flag is set.
pub open spec fn flag_ids(v: Seq<u8>, n: int) -> Seq<u32>
    decreases n,
{
    if n <= 0 {
        seq![]
    } else {
        flag_ids(v, n - 1) + if n - 1 > 0 && v[n - 1] != 0 { seq![(n - 1) as u32] } else { seq![] }
    }
}

/// The ids `1..n` whose value is not zero.
pub open spec fn value_ids(v: Seq<i32>, n: int) -> Seq<u32>
    decreases n,
{
    if n <= 0 {
        seq![]
    } else {
        value_ids(v, n - 1) + if n - 1 > 0 && v[n - 1] != 0 { seq![(n - 1) as u32] } else { seq![] }
    }
}

/// What reading switch `id` gives: off past the end of the flags, `None`
/// without flags.
pub open spec fn switch_value(dv: DocView, id: u32) -> Option<bool> {
    match u8s_at(dv, SYSTEM, SWITCHES) {
        Some(v) => Some((id as int) < v.len() && v[id as int] != 0),
        None => None,
    }
}

/// What reading variable `id` gives: 0 past the end, `None` without variables.
pub open spec fn variable_value(dv: DocView, id: u32) -> Option<i64> {
    match i32s_at(dv, SYSTEM, VARIABLES) {
        Some(v) => Some(if (id as int) < v.len() { v[id as int] as i64 } else { 0 }),
        None => None,
    }
}

/// Setting switch `id` of a document: the new document and whether it took.
/// A switch past the end first extends the flags with zeros and sets the
/// count field; without a count field the flags stay extended and the
/// switch is not set.
pub open spec fn switch_set(dv: DocView, id: u32, on: bool) -> (DocView, bool) {
    let b: u8 = if on { 1 } else { 0 };
    match u8s_at(dv, SYSTEM, SWITCHES) {
        None => (dv, false),
        Some(v) => if (id as int) < v.len() {
            (vset(dv, SYSTEM, SWITCHES, ValueView::U8(v.update(id as int, b))), true)
        } else {
            let w = padded(v, id + 1, 0u8);
            let d1 = vset(dv, SYSTEM, SWITCHES, ValueView::U8(w));
            if vfield_pos(d1, SYSTEM, SWITCHES_SIZE) is None {
                (d1, false)
            } else {
                let d2 = vset(d1, SYSTEM, SWITCHES_SIZE, ValueView::Int((id + 1) as i64));
                (vset(d2, SYSTEM, SWITCHES, ValueView::U8(w.update(id as int, b))), true)
            }
        },
    }
}

/// Setting variable `id` of a document (to `v` cut to 32 bits), in the same
/// way as switches.
pub open spec fn variable_set(dv: DocView, id: u32, v: i64) -> (DocView, bool) {
    let x: i32 = v as i32;
    match i32s_at(dv, SYSTEM, VARIABLES) {
        None => (dv, false),
        Some(w0) => if (id as int) < w0.len() {
            (vset(dv, SYSTEM, VARIABLES, ValueView::I32(w0.update(id as int, x))), true)
        } else {
            let w = padded(w0, id + 1, 0i32);
            let d1 = vset(dv, SYSTEM, VARIABLES, ValueView::I32(w));
            if vfield_pos(d1, SYSTEM, VARIABLES_SIZE) is None {
                (d1, false)
            } else {
                let d2 = vset(d1, SYSTEM, VARIABLES_SIZE, ValueView::Int((id + 1) as i64));
                (vset(d2, SYSTEM, VARIABLES, ValueView::I32(w.update(id as int, x))), true)
            }
        },
    }
}

fn pad_u8(v: &Vec<u8>, n: usize) -> (r: Vec<u8>)
    ensures
        r@ == padded(v@, n as int, 0u8),
{
    let mut out = vstd::slice::slice_to_vec(v.as_slice());
    let ghost v0 = v@;
    assert(out@ =~= v0 + Seq::new(0, |i: int| 0u8));
    while out.len() < n
        invariant
            v0 == v@,
            out@.len() >= v0.len(),
            v0.len() < n ==> out@.len() <= n,
            v0.len() >= n ==> out@.len() == v0.len(),
            out@ == v0 + Seq::new((out@.len() - v0.len()) as nat, |i: int| 0u8),
        decreases n - out@.len(),
    {
        out.push(0);
        assert(out@ =~= v0 + Seq::new((out@.len() - v0.len()) as nat, |i: int| 0u8));
    }
    proof {
        if v0.len() >= n as nat {
            assert(out@ =~= v0);
        }
    }
    out
}

fn pad_i32(v: &Vec<i32>, n: usize) -> (r: Vec<i32>)
    ensures
        r@ == padded(v@, n as int, 0i32),
{
    let mut out = vstd::slice::slice_to_vec(v.as_slice());
    let ghost v0 = v@;
    assert(out@ =~= v0 + Seq::new(0, |i: int| 0i32));
    while out.len() < n
        invariant
            v0 == v@,
            out@.len() >= v0.len(),
            v0.len() < n ==> out@.len() <= n,
            v0.len() >= n ==> out@.len() == v0.len(),
            out@ == v0 + Seq::new((out@.len() - v0.len()) as nat, |i: int| 0i32),
        decreases n - out@.len(),
    {
        out.push(0);
        assert(out@ =~= v0 + Seq::new((out@.len() - v0.len()) as nat, |i: int| 0i32));
    }
    proof {
        if v0.len() >= n as nat {
            assert(out@ =~= v0);
        }
    }
    out
}

/// The item ids, empty without them.
pub open spec fn item_ids(dv: DocView) -> Seq<i16> {
    match i16s_at(dv, INVENTORY, ITEM_IDS) {
        Some(v) => v,
        None => seq![],
    }
}

/// The item counts, empty without them.
pub open spec fn item_counts(dv: DocView) -> Seq<u8> {
    match u8s_at(dv, INVENTORY, ITEM_COUNTS) {
        Some(v) => v,
        None => seq![],
    }
}

/// The first `n` items as (id, count), those with a count above 0 (a
/// missing count is 0).
pub open spec fn inv_list(ids: Seq<i16>, counts: Seq<u8>, n: int) -> Seq<(u32, i64)>
    decreases n,
{
    if n <= 0 {
        seq![]
    } else {
        let i = n - 1;
        let q: i64 = if i < counts.len() { counts[i] as i64 } else { 0 };
        inv_list(ids, counts, n - 1) + if q > 0 { seq![(ids[i] as u32, q)] } else { seq![] }
    }
}

/// The goods of a kind: only items exist in these saves.
pub open spec fn inventory_of(dv: DocView, kind: InvKind) -> Seq<(u32, i64)> {
    if kind is Item && i16s_at(dv, INVENTORY, ITEM_IDS) is Some {
        inv_list(item_ids(dv), item_counts(dv), item_ids(dv).len() as int)
    } else {
        seq![]
    }
}

pub open spec fn key_is(id: u32) -> spec_fn(i16) -> bool {
    |x: i16| x == id as i16
}

/// Writing the item lists: ids, counts, then the count field.
pub open spec fn lists_set(dv: DocView, ids: Seq<i16>, counts: Seq<u8>) -> (DocView, bool) {
    if vfield_pos(dv, INVENTORY, ITEM_IDS) is None {
        (dv, false)
    } else {
        let d1 = vset(dv, INVENTORY, ITEM_IDS, ValueView::I16(ids));
        if vfield_pos(d1, INVENTORY, ITEM_COUNTS) is None {
            (d1, false)
        } else {
            let d2 = vset(d1, INVENTORY, ITEM_COUNTS, ValueView::U8(counts));
            (
                vset(d2, INVENTORY, ITEM_IDS_SIZE, ValueView::Int(counts.len() as i64)),
                vfield_pos(d2, INVENTORY, ITEM_IDS_SIZE) is Some,
            )
        }
    }
}

pub open spec fn clamp_qty(q: i64) -> i64 {
    if q < 0 {
        0
    } else if q > 255 {
        255
    } else {
        q
    }
}

/// Setting the count of item `id` (kept within 0..=255): a count of 0
/// removes its entry, a new item is appended.
pub open spec fn qty_set(dv: DocView, kind: InvKind, id: u32, qty: i64) -> (DocView, bool) {
    if !(kind is Item) {
        (dv, false)
    } else {
        let q = clamp_qty(qty);
        let ids = item_ids(dv);
        let counts = item_counts(dv);
        match first_index(ids, key_is(id)) {
            Some(p) => if q <= 0 {
                lists_set(dv, ids.remove(p), counts.remove(p))
            } else {
                lists_set(dv, ids, counts.update(p, q as u8))
            },
            None => if q > 0 {
                lists_set(dv, ids.push(id as i16), counts.push(q as u8))
            } else {
                (dv, true)
            },
        }
    }
}

/// The count item `id` has in the goods list, 0 without an entry.
pub open spec fn held(dv: DocView, kind: InvKind, id: u32) -> i64 {
    let inv = inventory_of(dv, kind);
    match first_index(inv, entry_is(id)) {
        Some(j) => inv[j].1,
        None => 0,
    }
}

/// The entry of item `id`, when there is one, has a count.
pub open spec fn qty_settable(dv: DocView, kind: InvKind, id: u32) -> bool {
    kind is Item ==> (first_index(item_ids(dv), key_is(id)) matches Some(p) ==> p < item_counts(dv).len())
}

fn copy_i16(v: &Vec<i16>) -> (r: Vec<i16>)
    ensures
        r@ == v@,
{
    vstd::slice::slice_to_vec(v.as_slice())
}

fn find_key(ids: &Vec<i16>, id: u32) -> (r: Option<usize>)
    ensures
        match r {
            Some(k) => first_index(ids@, key_is(id)) == Some(k as int) && k < ids@.len(),
            None => first_index(ids@, key_is(id)) is None,
        },
{
    let key = id as i16;
    let mut i: usize = 0;
    while i < ids.len()
        invariant
            i <= ids@.len(),
            key == id as i16,
            forall|k: int| 0 <= k < i ==> !key_is(id)(#[trigger] ids@[k]),
        decreases ids@.len() - i,
    {
        if ids[i] == key {
            proof {
                crate::util::lemma_first_index_at(ids@, key_is(id), i as int);
            }
            return Some(i);
        }
        i = i + 1;
    }
    proof {
        crate::util::lemma_first_index_none(ids@, key_is(id));
    }
    None
}

/// The field of an actor's stat named `b`.
pub open spec fn stat_field(b: Seq<u8>) -> Option<u32> {
    if b == seq![108u8, 101, 118, 101, 108] {
        Some(LEVEL)
    } else if b == seq![101u8, 120, 112] {
        Some(EXP)
    } else if b == seq![104u8, 112] {
        Some(CURRENT_HP)
    } else if b == seq![115u8, 112] {
        Some(CURRENT_SP)
    } else if b == seq![104u8, 112, 95, 109, 111, 100] {
        Some(HP_MOD)
    } else if b == seq![115u8, 112, 95, 109, 111, 100] {
        Some(SP_MOD)
    } else if b == seq![97u8, 116, 116, 97, 99, 107] {
        Some(ATK_MOD)
    } else if b == seq![100u8, 101, 102, 101, 110, 115, 101] {
        Some(DEF_MOD)
    } else if b == seq![115u8, 112, 105, 114, 105, 116] {
        Some(SPI_MOD)
    } else if b == seq![97u8, 103, 105, 108, 105, 116, 121] {
        Some(AGI_MOD)
    } else if b == seq![99u8, 108, 97, 115, 115, 95, 105, 100] {
        Some(CLASS_ID)
    } else {
        None
    }
}

fn is_name(iv: &str, lit: &[u8]) -> (r: bool)
    ensures
        r == (iv.spec_bytes() == lit@),
{
    crate::util::bytes_eq(iv.as_bytes(), lit)
}

/// The field of an actor's stat named `iv` (`level`, `exp`, `hp`, `sp`,
/// `hp_mod`, `sp_mod`, `attack`, `defense`, `spirit`, `agility`, `class_id`).
pub fn actor_stat_field(iv: &str) -> (r: Option<u32>)
    ensures
        r == stat_field(iv.spec_bytes()),
{
    let a: [u8; 5] = [108, 101, 118, 101, 108];
    let b: [u8; 3] = [101, 120, 112];
    let c: [u8; 2] = [104, 112];
    let d: [u8; 2] = [115, 112];
    let e: [u8; 6] = [104, 112, 95, 109, 111, 100];
    let f: [u8; 6] = [115, 112, 95, 109, 111, 100];
    let g: [u8; 6] = [97, 116, 116, 97, 99, 107];
    let h: [u8; 7] = [100, 101, 102, 101, 110, 115, 101];
    let i: [u8; 6] = [115, 112, 105, 114, 105, 116];
    let j: [u8; 7] = [97, 103, 105, 108, 105, 116, 121];
    let k: [u8; 8] = [99, 108, 97, 115, 115, 95, 105, 100];
    assert(a@ =~= seq![108u8, 101, 118, 101, 108]);
    assert(b@ =~= seq![101u8, 120, 112]);
    assert(c@ =~= seq![104u8, 112]);
    assert(d@ =~= seq![115u8, 112]);
    assert(e@ =~= seq![104u8, 112, 95, 109, 111, 100]);
    assert(f@ =~= seq![115u8, 112, 95, 109, 111, 100]);
    assert(g@ =~= seq![97u8, 116, 116, 97, 99, 107]);
    assert(h@ =~= seq![100u8, 101, 102, 101, 110, 115, 101]);
    assert(i@ =~= seq![115u8, 112, 105, 114, 105, 116]);
    assert(j@ =~= seq![97u8, 103, 105, 108, 105, 116, 121]);
    assert(k@ =~= seq![99u8, 108, 97, 115, 115, 95, 105, 100]);
    if is_name(iv, a.as_slice()) {
        Some(LEVEL)
    } else if is_name(iv, b.as_slice()) {
        Some(EXP)
    } else if is_name(iv, c.as_slice()) {
        Some(CURRENT_HP)
    } else if is_name(iv, d.as_slice()) {
        Some(CURRENT_SP)
    } else if is_name(iv, e.as_slice()) {
        Some(HP_MOD)
    } else if is_name(iv, f.as_slice()) {
        Some(SP_MOD)
    } else if is_name(iv, g.as_slice()) {
        Some(ATK_MOD)
    } else if is_name(iv, h.as_slice()) {
        Some(DEF_MOD)
    } else if is_name(iv, i.as_slice()) {
        Some(SPI_MOD)
    } else if is_name(iv, j.as_slice()) {
        Some(AGI_MOD)
    } else if is_name(iv, k.as_slice()) {
        Some(CLASS_ID)
    } else {
        None
    }
}

/// The field of parameter bonus `idx`: 0 max HP, 1 max SP, 2 attack, 3
/// defense, 4 spirit, 6 agility (5 and 7 do not exist in these saves).
pub open spec fn param_field(idx: usize) -> Option<u32> {
    if idx == 0 {
        Some(HP_MOD)
    } else if idx == 1 {
        Some(SP_MOD)
    } else if idx == 2 {
        Some(ATK_MOD)
    } else if idx == 3 {
        Some(DEF_MOD)
    } else if idx == 4 {
        Some(SPI_MOD)
    } else if idx == 6 {
        Some(AGI_MOD)
    } else {
        None
    }
}

/// Parameter bonus `idx` is the actor field of the stat it names: 0 the max
/// HP bonus (0x21, `hp_mod`), 1 the max SP bonus (0x22, `sp_mod`), 2 attack
/// (0x29), 3 defense (0x2A), 4 spirit (0x2B), 6 agility (0x2C); 5 and 7 on
/// are no parameter. So setting bonus `idx` and setting the stat of that name
/// write the same field (the names spelled as bytes: `hp_mod`, `sp_mod`,
/// `attack`, `defense`, `spirit`, `agility`).
pub proof fn law_param_bonus_fields(idx: usize)
    ensures
        param_field(0) == Some(0x21u32) && param_field(0) == stat_field(seq![104u8, 112, 95, 109, 111, 100]),
        param_field(1) == Some(0x22u32) && param_field(1) == stat_field(seq![115u8, 112, 95, 109, 111, 100]),
        param_field(2) == Some(0x29u32) && param_field(2) == stat_field(seq![97u8, 116, 116, 97, 99, 107]),
        param_field(3) == Some(0x2Au32) && param_field(3) == stat_field(seq![100u8, 101, 102, 101, 110, 115, 101]),
        param_field(4) == Some(0x2Bu32) && param_field(4) == stat_field(seq![115u8, 112, 105, 114, 105, 116]),
        param_field(6) == Some(0x2Cu32) && param_field(6) == stat_field(seq![97u8, 103, 105, 108, 105, 116, 121]),
        idx == 5 || idx >= 7 ==> param_field(idx) is None,
{
    let hp_mod = seq![104u8, 112, 95, 109, 111, 100];
    let sp_mod = seq![115u8, 112, 95, 109, 111, 100];
    assert(hp_mod.len() == 6 && sp_mod.len() == 6);
    assert(hp_mod != seq![108u8, 101, 118, 101, 108]);
    assert(hp_mod != seq![101u8, 120, 112]);
    assert(hp_mod != seq![104u8, 112]);
    assert(hp_mod != seq![115u8, 112]);
    assert(sp_mod != seq![108u8, 101, 118, 101, 108]);
    assert(sp_mod != seq![101u8, 120, 112]);
    assert(sp_mod != seq![104u8, 112]);
    assert(sp_mod != seq![115u8, 112]);
    assert(sp_mod != seq![104u8, 112, 95, 109, 111, 100]) by {
        assert(sp_mod[0] != hp_mod[0]);
    }
    let attack = seq![97u8, 116, 116, 97, 99, 107];
    let defense = seq![100u8, 101, 102, 101, 110, 115, 101];
    let spirit = seq![115u8, 112, 105, 114, 105, 116];
    let agility = seq![97u8, 103, 105, 108, 105, 116, 121];
    assert(attack.len() == 6 && spirit.len() == 6 && defense.len() == 7 && agility.len() == 7);
    assert(attack != hp_mod) by { assert(attack[0] != hp_mod[0]); }
    assert(attack != sp_mod) by { assert(attack[0] != sp_mod[0]); }
    assert(spirit != hp_mod) by { assert(spirit[0] != hp_mod[0]); }
    assert(spirit != sp_mod) by { assert(spirit[2] != sp_mod[2]); }
    assert(spirit != attack) by { assert(spirit[0] != attack[0]); }
    assert(agility != defense) by { assert(agility[0] != defense[0]); }
}

pub fn param_plus_field(idx: usize) -> (r: Option<u32>)
    ensures
        r == param_field(idx),
{
    if idx == 0 {
        Some(HP_MOD)
    } else if idx == 1 {
        Some(SP_MOD)
    } else if idx == 2 {
        Some(ATK_MOD)
    } else if idx == 3 {
        Some(DEF_MOD)
    } else if idx == 4 {
        Some(SPI_MOD)
    } else if idx == 6 {
        Some(AGI_MOD)
    } else {
        None
    }
}

/// An integer field of actor `id`.
pub open spec fn actor_int(dv: DocView, id: u32, f: u32) -> Option<i64> {
    match vactor_value(dv, id, f) {
        Some(ValueView::Int(v)) => Some(v),
        _ => None,
    }
}

/// An id list of actor `id` (empty without one).
pub open spec fn actor_list(dv: DocView, id: u32, f: u32) -> Seq<i16> {
    match vactor_value(dv, id, f) {
        Some(ValueView::I16(v)) => v,
        _ => seq![],
    }
}

/// Actor `id` has a field `f`.
pub open spec fn actor_has(dv: DocView, id: u32, f: u32) -> bool {
    vactor(dv, id) matches Some(el) && first_index(el.fields, field_is(f)) is Some
}

/// An RPG Maker 2000/2003 save.
pub struct SaveLsd {
    pub doc: LcfDoc,
    pub path: Option<std::path::PathBuf>,
    pub note: Option<String>,
}

impl SaveLsd {
    /// A save of a document read from a file: refused unless its header is
    /// `LcfSaveData`; a remark when it has no SaveSystem chunk.
    pub fn from_parsed(doc: LcfDoc) -> (r: Result<SaveLsd, String>)
        ensures
            r is Ok <==> doc.header@ == crate::lcf::HEADER_LSD@,
            r matches Ok(s) ==> s.doc == doc && s.path is None && (s.note is Some <==> first_index(
                doc@.chunks,
                chunk_is(SYSTEM),
            ) is None),
    {
        let h = crate::lcf::HEADER_LSD;
        if !crate::util::bytes_eq(doc.header.as_slice(), h.as_slice()) {
            return Err(crate::text::name("不是 RPG2000/2003 存档（缺少 LcfSaveData 头）"));
        }
        let note = match find_chunk_v(&doc.chunks, SYSTEM) {
            Some(_) => None,
            None => Some(crate::text::name("存档缺少 System 数据，部分功能不可用")),
        };
        Ok(SaveLsd { doc, path: None, note })
    }

    pub fn from_doc(doc: LcfDoc) -> (r: SaveLsd)
        ensures
            r.doc == doc,
            r.path is None,
            r.note is None,
    {
        SaveLsd { doc, path: None, note: None }
    }

    /// The save file's bytes.
    pub fn dump_bytes(&self) -> (r: Vec<u8>)
        ensures
            r@ == crate::lcf_doc::doc_bytes(self.doc@),
    {
        crate::lcf_doc::dump(&self.doc)
    }

    /// Length of the switch flags (slot 0 included), 0 without them.
    pub fn switch_array_len(&self) -> (r: usize)
        ensures
            r == (match u8s_at(self.doc@, SYSTEM, SWITCHES) {
                Some(v) => v.len(),
                None => 0,
            }),
    {
        match u8s(&self.doc, SYSTEM, SWITCHES) {
            Some(v) => v.len(),
            None => 0,
        }
    }

    /// The switches that are on.
    pub fn switch_ids(&self) -> (r: Vec<u32>)
        ensures
            r@ == (match u8s_at(self.doc@, SYSTEM, SWITCHES) {
                Some(v) => flag_ids(v, v.len() as int),
                None => seq![],
            }),
    {
        let mut out: Vec<u32> = Vec::new();
        match u8s(&self.doc, SYSTEM, SWITCHES) {
            Some(sw) => {
                let mut i: usize = 0;
                while i < sw.len()
                    invariant
                        i <= sw@.len(),
                        out@ == flag_ids(sw@, i as int),
                    decreases sw@.len() - i,
                {
                    if i > 0 && sw[i] != 0 {
                        out.push(i as u32);
                    }
                    i = i + 1;
                }
            },
            None => {},
        }
        out
    }

    /// Switch `id`: off past the end of the flags; `None` without flags.
    pub fn switch(&self, id: u32) -> (r: Option<bool>)
        ensures
            r == switch_value(self.doc@, id),
    {
        let sw = u8s(&self.doc, SYSTEM, SWITCHES)?;
        Some((id as usize) < sw.len() && sw[id as usize] != 0)
    }

    /// Turns switch `id` on or off, extending the flags (and their count) when needed.
    pub fn set_switch(&mut self, id: u32, on: bool) -> (r: bool)
        requires
            (id as int) < usize::MAX,
        ensures
            (final(self).doc@, r) == switch_set(old(self).doc@, id, on),
            final(self).path == old(self).path,
            final(self).note == old(self).note,
    {
        let b: u8 = if on { 1 } else { 0 };
        let v = match u8s(&self.doc, SYSTEM, SWITCHES) {
            Some(v) => vstd::slice::slice_to_vec(v.as_slice()),
            None => {
                return false;
            },
        };
        let i = id as usize;
        if i < v.len() {
            let mut w = v;
            w.set(i, b);
            set_value(&mut self.doc, SYSTEM, SWITCHES, LcfValue::U8(w));
            return true;
        }
        let w = pad_u8(&v, i + 1);
        let w2 = vstd::slice::slice_to_vec(w.as_slice());
        set_value(&mut self.doc, SYSTEM, SWITCHES, LcfValue::U8(w));
        if !set_value(&mut self.doc, SYSTEM, SWITCHES_SIZE, LcfValue::Int(id as i64 + 1)) {
            return false;
        }
        let mut w3 = w2;
        w3.set(i, b);
        set_value(&mut self.doc, SYSTEM, SWITCHES, LcfValue::U8(w3));
        true
    }

    /// Length of the variables (slot 0 included), 0 without them.
    pub fn variable_array_len(&self) -> (r: usize)
        ensures
            r == (match i32s_at(self.doc@, SYSTEM, VARIABLES) {
                Some(v) => v.len(),
                None => 0,
            }),
    {
        match i32s(&self.doc, SYSTEM, VARIABLES) {
            Some(v) => v.len(),
            None => 0,
        }
    }

    /// The variables that are not zero.
    pub fn variable_ids(&self) -> (r: Vec<u32>)
        ensures
            r@ == (match i32s_at(self.doc@, SYSTEM, VARIABLES) {
                Some(v) => value_ids(v, v.len() as int),
                None => seq![],
            }),
    {
        let mut out: Vec<u32> = Vec::new();
        match i32s(&self.doc, SYSTEM, VARIABLES) {
            Some(vars) => {
                let mut i: usize = 0;
                while i < vars.len()
                    invariant
                        i <= vars@.len(),
                        out@ == value_ids(vars@, i as int),
                    decreases vars@.len() - i,
                {
                    if i > 0 && vars[i] != 0 {
                        out.push(i as u32);
                    }
                    i = i + 1;
                }
            },
            None => {},
        }
        out
    }

    /// Variable `id`: 0 past the end; `None` without variables.
    pub fn variable(&self, id: u32) -> (r: Option<i64>)
        ensures
            r == variable_value(self.doc@, id),
    {
        let vars = i32s(&self.doc, SYSTEM, VARIABLES)?;
        if (id as usize) < vars.len() {
            Some(vars[id as usize] as i64)
        } else {
            Some(0)
        }
    }

    /// Sets variable `id` (to `v` cut to 32 bits), extending the variables when needed.
    pub fn set_variable(&mut self, id: u32, v: i64) -> (r: bool)
        requires
            (id as int) < usize::MAX,
        ensures
            (final(self).doc@, r) == variable_set(old(self).doc@, id, v),
            final(self).path == old(self).path,
            final(self).note == old(self).note,
    {
        let x: i32 = v as i32;
        let w0 = match i32s(&self.doc, SYSTEM, VARIABLES) {
            Some(w) => vstd::slice::slice_to_vec(w.as_slice()),
            None => {
                return false;
            },
        };
        let i = id as usize;
        if i < w0.len() {
            let mut w = w0;
            w.set(i, x);
            set_value(&mut self.doc, SYSTEM, VARIABLES, LcfValue::I32(w));
            return true;
        }
        let w = pad_i32(&w0, i + 1);
        let w2 = vstd::slice::slice_to_vec(w.as_slice());
        set_value(&mut self.doc, SYSTEM, VARIABLES, LcfValue::I32(w));
        if !set_value(&mut self.doc, SYSTEM, VARIABLES_SIZE, LcfValue::Int(id as i64 + 1)) {
            return false;
        }
        let mut w3 = w2;
        w3.set(i, x);
        set_value(&mut self.doc, SYSTEM, VARIABLES, LcfValue::I32(w3));
        true
    }

    /// The party's gold.
    pub fn gold(&self) -> (r: Option<i64>)
        ensures
            r == int_at(self.doc@, INVENTORY, GOLD),
    {
        match value_of(&self.doc, INVENTORY, GOLD) {
            Some(t) => t.as_int(),
            None => None,
        }
    }

    /// Sets the party's gold; `false`, with nothing changed, without a gold field.
    pub fn set_gold(&mut self, v: i64) -> (r: bool)
        ensures
            r == (vfield_pos(old(self).doc@, INVENTORY, GOLD) is Some),
            final(self).doc@ == vset(old(self).doc@, INVENTORY, GOLD, ValueView::Int(v)),
            final(self).path == old(self).path,
            final(self).note == old(self).note,
    {
        set_value(&mut self.doc, INVENTORY, GOLD, LcfValue::Int(v))
    }
}

/// Setting a field an actor does not have changes nothing.
proof fn lemma_vactor_set_noop(dv: DocView, id: u32, f: u32, v: ValueView)
    requires
        !actor_has(dv, id, f),
    ensures
        vactor_set(dv, id, f, v) == dv,
{
    if vactor(dv, id) is Some {
        let (ci, e) = vactor_pos(dv, id)->0;
        lemma_first_index_some(dv.chunks, chunk_is(ACTORS));
        let p = dv.chunks[ci].payload;
        assert(p->StructArray_elements.update(e, p->StructArray_elements[e]) =~= p->StructArray_elements);
        assert(dv.chunks.update(
            ci,
            ChunkView {
                id: ACTORS,
                payload: PayloadView::StructArray {
                    count: p->StructArray_count,
                    elements: p->StructArray_elements.update(e, p->StructArray_elements[e]),
                },
            },
        ) =~= dv.chunks);
    }
}

/// The goods entry of item `id`.
pub open spec fn entry_is(id: u32) -> spec_fn((u32, i64)) -> bool {
    |e: (u32, i64)| e.0 == id
}

fn find_held(inv: &Vec<(u32, i64)>, id: u32) -> (r: i64)
    ensures
        r == (match first_index(inv@, entry_is(id)) {
            Some(j) => inv@[j].1,
            None => 0,
        }),
{
    let mut i: usize = 0;
    while i < inv.len()
        invariant
            i <= inv@.len(),
            forall|k: int| 0 <= k < i ==> !entry_is(id)(#[trigger] inv@[k]),
        decreases inv@.len() - i,
    {
        if inv[i].0 == id {
            proof {
                crate::util::lemma_first_index_at(inv@, entry_is(id), i as int);
            }
            return inv[i].1;
        }
        i = i + 1;
    }
    proof {
        crate::util::lemma_first_index_none(inv@, entry_is(id));
    }
    0
}

/// Setting the level of actor `id`, then its experience from the table
/// (the entry at the level, or the last one past the end).
pub open spec fn level_sync(dv: DocView, id: u32, level: i64, exps: Seq<i64>) -> (DocView, bool) {
    if !actor_has(dv, id, LEVEL) {
        (dv, false)
    } else {
        let d1 = vactor_set(dv, id, LEVEL, ValueView::Int(level));
        if exps.len() == 0 {
            (d1, true)
        } else {
            let i = (level as usize) as int;
            let needed = if i < exps.len() { exps[i] } else { exps.last() };
            (vactor_set(d1, id, EXP, ValueView::Int(needed)), true)
        }
    }
}

/// The level an experience reaches: scanning the table from entry 1 while
/// the entries are at most `exp`.
pub open spec fn level_for(exps: Seq<i64>, exp: i64, i: int, level: i64) -> i64
    decreases exps.len() - i,
{
    if i >= exps.len() {
        level
    } else if exps[i] <= exp {
        level_for(exps, exp, i + 1, i as i64)
    } else {
        level
    }
}

/// The item lists and count field after adding `item` to list `f` (size
/// field `sf`) of actor `id`; nothing changes when it is there already.
pub open spec fn id_added(dv: DocView, id: u32, f: u32, sf: u32, item: u32) -> (DocView, bool) {
    let old = actor_list(dv, id, f);
    let key = item as i16;
    if vactor(dv, id) is None {
        (dv, false)
    } else if old.contains(key) {
        (dv, true)
    } else if !actor_has(dv, id, f) {
        (dv, false)
    } else {
        let new = old.push(key);
        (vactor_set(vactor_set(dv, id, f, ValueView::I16(new)), id, sf, ValueView::Int(new.len() as i64)), true)
    }
}

/// `s` without the entries equal to `key`.
pub open spec fn without(s: Seq<i16>, key: i16, n: int) -> Seq<i16>
    decreases n,
{
    if n <= 0 {
        seq![]
    } else {
        without(s, key, n - 1) + if s[n - 1] != key { seq![s[n - 1]] } else { seq![] }
    }
}

/// List `f` of actor `id` with every `item` removed, and its size field.
pub open spec fn id_removed(dv: DocView, id: u32, f: u32, sf: u32, item: u32) -> (DocView, bool) {
    let old = actor_list(dv, id, f);
    if !actor_has(dv, id, f) {
        (dv, false)
    } else {
        let new = without(old, item as i16, old.len() as int);
        (vactor_set(vactor_set(dv, id, f, ValueView::I16(new)), id, sf, ValueView::Int(new.len() as i64)), true)
    }
}

/// The list and size fields named `b` (`skills` or `states`).
pub open spec fn list_fields(b: Seq<u8>) -> Option<(u32, u32)> {
    if b == seq![115u8, 107, 105, 108, 108, 115] {
        Some((SKILLS, SKILLS_SIZE))
    } else if b == seq![115u8, 116, 97, 116, 101, 115] {
        Some((STATUS, STATUS_SIZE))
    } else {
        None
    }
}

fn list_fields_of(iv: &str) -> (r: Option<(u32, u32)>)
    ensures
        r == list_fields(iv.spec_bytes()),
{
    let a: [u8; 6] = [115, 107, 105, 108, 108, 115];
    let b: [u8; 6] = [115, 116, 97, 116, 101, 115];
    assert(a@ =~= seq![115u8, 107, 105, 108, 108, 115]);
    assert(b@ =~= seq![115u8, 116, 97, 116, 101, 115]);
    if is_name(iv, a.as_slice()) {
        Some((SKILLS, SKILLS_SIZE))
    } else if is_name(iv, b.as_slice()) {
        Some((STATUS, STATUS_SIZE))
    } else {
        None
    }
}

/// The name of actor `id`: `None` for an empty name or the one-character
/// name `\\x01` that stands for the database's default name.
pub open spec fn actor_name_of(dv: DocView, id: u32) -> Option<Seq<char>> {
    match vactor_value(dv, id, NAME) {
        Some(ValueView::Str(b)) => {
            let t = text_of(b);
            if t.len() == 0 || t == seq!['\u{1}'] {
                None
            } else {
                Some(t)
            }
        },
        _ => None,
    }
}

/// Renaming actor `id` to `text` (stored GBK-encoded), adding a name field
/// when it has none.
pub open spec fn renamed(dv: DocView, id: u32, text: Seq<char>) -> (DocView, bool) {
    let v = ValueView::Str(gbk_encoded(text));
    match vactor(dv, id) {
        None => (dv, false),
        Some(el) => if first_index(el.fields, field_is(NAME)) is Some {
            (vactor_set(dv, id, NAME, v), true)
        } else {
            (vactor_push(dv, id, FieldView { id: NAME, raw: seq![], typed: Some(v) }), true)
        },
    }
}

/// The actor ids of the actors chunk, in order.
pub open spec fn actor_ids_of(dv: DocView) -> Seq<u32> {
    match first_index(dv.chunks, chunk_is(ACTORS)) {
        Some(ci) => match dv.chunks[ci].payload {
            PayloadView::StructArray { elements, .. } => elements.map_values(|e: ElementView| e.id),
            _ => seq![],
        },
        None => seq![],
    }
}

fn as_u32s(v: &Vec<i16>, clamp: bool) -> (r: Vec<u32>)
    ensures
        r@ == v@.map_values(|x: i16| if clamp && x < 0 { 0u32 } else { x as u32 }),
{
    let mut out: Vec<u32> = Vec::new();
    let mut i: usize = 0;
    while i < v.len()
        invariant
            i <= v@.len(),
            out@ == v@.subrange(0, i as int).map_values(|x: i16| if clamp && x < 0 { 0u32 } else { x as u32 }),
        decreases v@.len() - i,
    {
        let x = v[i];
        out.push(if clamp && x < 0 { 0u32 } else { x as u32 });
        i = i + 1;
        assert(out@ =~= v@.subrange(0, i as int).map_values(|x: i16| if clamp && x < 0 { 0u32 } else { x as u32 }));
    }
    assert(v@.subrange(0, v@.len() as int) =~= v@);
    out
}

impl SaveLsd {
    /// The goods of a kind as (id, count) with a count above 0.
    pub fn inventory(&self, kind: InvKind) -> (r: Vec<(u32, i64)>)
        ensures
            r@ == inventory_of(self.doc@, kind),
    {
        let mut out: Vec<(u32, i64)> = Vec::new();
        match kind {
            InvKind::Item => {},
            _ => {
                return out;
            },
        }
        let ids = match i16s(&self.doc, INVENTORY, ITEM_IDS) {
            Some(v) => v,
            None => {
                return out;
            },
        };
        let empty: Vec<u8> = Vec::new();
        let counts = match u8s(&self.doc, INVENTORY, ITEM_COUNTS) {
            Some(c) => c,
            None => &empty,
        };
        assert(counts@ == item_counts(self.doc@));
        let mut i: usize = 0;
        while i < ids.len()
            invariant
                i <= ids@.len(),
                ids@ == item_ids(self.doc@),
                counts@ == item_counts(self.doc@),
                out@ == inv_list(ids@, counts@, i as int),
            decreases ids@.len() - i,
        {
            let q: i64 = if i < counts.len() { counts[i] as i64 } else { 0 };
            if q > 0 {
                out.push((ids[i] as u32, q));
            }
            i = i + 1;
        }
        out
    }

    fn set_item_lists(&mut self, ids: Vec<i16>, counts: Vec<u8>) -> (r: bool)
        ensures
            (final(self).doc@, r) == lists_set(old(self).doc@, ids@, counts@),
            final(self).path == old(self).path,
            final(self).note == old(self).note,
    {
        let n = counts.len();
        let counts2 = vstd::slice::slice_to_vec(counts.as_slice());
        if !set_value(&mut self.doc, INVENTORY, ITEM_IDS, LcfValue::I16(ids)) {
            return false;
        }
        if !set_value(&mut self.doc, INVENTORY, ITEM_COUNTS, LcfValue::U8(counts2)) {
            return false;
        }
        set_value(&mut self.doc, INVENTORY, ITEM_IDS_SIZE, LcfValue::Int(n as i64))
    }

    /// Sets the count of item `id` (kept within 0..=255); 0 removes the entry.
    pub fn set_inventory_qty(&mut self, kind: InvKind, id: u32, qty: i64) -> (r: bool)
        requires
            qty_settable(old(self).doc@, kind, id),
        ensures
            (final(self).doc@, r) == qty_set(old(self).doc@, kind, id, qty),
            final(self).path == old(self).path,
            final(self).note == old(self).note,
    {
        match kind {
            InvKind::Item => {},
            _ => {
                return false;
            },
        }
        let q: i64 = if qty < 0 { 0 } else if qty > 255 { 255 } else { qty };
        let ids: Vec<i16> = match i16s(&self.doc, INVENTORY, ITEM_IDS) {
            Some(v) => copy_i16(v),
            None => Vec::new(),
        };
        let counts: Vec<u8> = match u8s(&self.doc, INVENTORY, ITEM_COUNTS) {
            Some(c) => vstd::slice::slice_to_vec(c.as_slice()),
            None => Vec::new(),
        };
        assert(ids@ == item_ids(self.doc@));
        assert(counts@ == item_counts(self.doc@));
        match find_key(&ids, id) {
            Some(pos) => {
                if q <= 0 {
                    let mut ids2 = ids;
                    let mut counts2 = counts;
                    ids2.remove(pos);
                    counts2.remove(pos);
                    self.set_item_lists(ids2, counts2)
                } else {
                    let mut counts2 = counts;
                    counts2.set(pos, q as u8);
                    self.set_item_lists(ids, counts2)
                }
            },
            None => {
                if q > 0 {
                    let mut ids2 = ids;
                    let mut counts2 = counts;
                    ids2.push(id as i16);
                    counts2.push(q as u8);
                    self.set_item_lists(ids2, counts2)
                } else {
                    true
                }
            },
        }
    }

    /// Adds `qty` of item `id` to what is held.
    pub fn add_inventory(&mut self, kind: InvKind, id: u32, qty: i64) -> (r: bool)
        requires
            qty <= i64::MAX - 255,
            qty_settable(old(self).doc@, kind, id),
        ensures
            qty <= 0 || !(kind is Item) ==> r && *final(self) == *old(self),
            qty > 0 && kind is Item ==> (final(self).doc@, r) == qty_set(
                old(self).doc@,
                kind,
                id,
                (held(old(self).doc@, kind, id) + qty) as i64,
            ),
            final(self).path == old(self).path,
            final(self).note == old(self).note,
    {
        let is_item = match kind {
            InvKind::Item => true,
            _ => false,
        };
        if qty <= 0 || !is_item {
            return true;
        }
        let inv = self.inventory(kind);
        let cur = find_held(&inv, id);
        proof {
            lemma_inv_counts(item_ids(self.doc@), item_counts(self.doc@), item_ids(self.doc@).len() as int);
            if first_index(inv@, entry_is(id)) is Some {
                lemma_first_index_some(inv@, entry_is(id));
            }
        }
        self.set_inventory_qty(kind, id, cur + qty)
    }

    /// The actor ids of the party.
    pub fn party_member_ids(&self) -> (r: Vec<u32>)
        ensures
            r@ == (match i16s_at(self.doc@, INVENTORY, PARTY) {
                Some(v) => v.map_values(|x: i16| if false && x < 0 { 0u32 } else { x as u32 }),
                None => seq![],
            }),
    {
        match i16s(&self.doc, INVENTORY, PARTY) {
            Some(v) => as_u32s(v, false),
            None => Vec::new(),
        }
    }

    /// The actor ids of the save, in order.
    pub fn actor_ids(&self) -> (r: Vec<u32>)
        ensures
            r@ == actor_ids_of(self.doc@),
    {
        let mut out: Vec<u32> = Vec::new();
        match find_chunk_v(&self.doc.chunks, ACTORS) {
            Some(ci) => match &self.doc.chunks[ci].payload {
                LcfPayload::StructArray { elements, .. } => {
                    let ghost ev = elements_view(elements@);
                    let mut i: usize = 0;
                    while i < elements.len()
                        invariant
                            i <= elements@.len(),
                            ev == elements_view(elements@),
                            out@ == ev.subrange(0, i as int).map_values(|e: ElementView| e.id),
                        decreases elements@.len() - i,
                    {
                        out.push(elements[i].id);
                        i = i + 1;
                        assert(out@ =~= ev.subrange(0, i as int).map_values(|e: ElementView| e.id));
                    }
                    assert(ev.subrange(0, ev.len() as int) =~= ev);
                },
                _ => {},
            },
            None => {},
        }
        out
    }

    /// `Some(id)` when the save has actor `id`.
    pub fn actor(&self, id: u32) -> (r: Option<u32>)
        ensures
            r == (if vactor(self.doc@, id) is Some { Some(id) } else { None }),
    {
        match actor_index(&self.doc, id) {
            Some(_) => Some(id),
            None => None,
        }
    }

    /// The name of actor `id` (see [`actor_name_of`]).
    pub fn actor_name(&self, id: u32) -> (r: Option<String>)
        ensures
            match actor_name_of(self.doc@, id) {
                Some(t) => r matches Some(x) && x@ == t,
                None => r is None,
            },
    {
        let b = match actor_value_of(&self.doc, id, NAME) {
            Some(t) => match t.as_str() {
                Some(b) => b,
                None => {
                    return None;
                },
            },
            None => {
                return None;
            },
        };
        let s = crate::lcf::decode_text(b);
        let sentinel = crate::text::name("\u{1}");
        proof {
            reveal_strlit("\u{1}");
            assert(sentinel@ =~= seq!['\u{1}']);
        }
        if s.as_str().is_empty() || s == sentinel {
            None
        } else {
            Some(s)
        }
    }

    /// Renames actor `id` (see [`renamed`]).
    pub fn rename_actor(&mut self, id: u32, name: &str) -> (r: bool)
        ensures
            (final(self).doc@, r) == renamed(old(self).doc@, id, name@),
            final(self).path == old(self).path,
            final(self).note == old(self).note,
    {
        let bytes = crate::text::gbk_encode(name);
        let bytes2 = vstd::slice::slice_to_vec(bytes.as_slice());
        if actor_index(&self.doc, id).is_none() {
            return false;
        }
        let ghost d0 = self.doc@;
        if set_actor_value(&mut self.doc, id, NAME, LcfValue::Str(bytes)) {
            return true;
        }
        proof {
            lemma_vactor_set_noop(d0, id, NAME, ValueView::Str(gbk_encoded(name@)));
        }
        let fl = LcfField { id: NAME, raw: Vec::new(), typed: Some(LcfValue::Str(bytes2)) };
        assert(fl@ == FieldView { id: NAME, raw: seq![], typed: Some(ValueView::Str(gbk_encoded(name@))) });
        push_actor_field(&mut self.doc, id, fl)
    }

    fn actor_int_field(&self, id: u32, f: u32) -> (r: Option<i64>)
        ensures
            r == actor_int(self.doc@, id, f),
    {
        match actor_value_of(&self.doc, id, f) {
            Some(t) => t.as_int(),
            None => None,
        }
    }

    /// Stat `iv` of actor `id` (see [`actor_stat_field`]).
    pub fn actor_stat(&self, id: u32, iv: &str) -> (r: Option<i64>)
        ensures
            r == (match stat_field(iv.spec_bytes()) {
                Some(f) => actor_int(self.doc@, id, f),
                None => None,
            }),
    {
        let f = actor_stat_field(iv)?;
        self.actor_int_field(id, f)
    }

    /// Sets stat `iv` of actor `id`; `false`, with nothing changed, for an
    /// unknown stat or an actor without that field.
    pub fn set_actor_stat(&mut self, id: u32, iv: &str, v: i64) -> (r: bool)
        ensures
            match stat_field(iv.spec_bytes()) {
                Some(f) => r == actor_has(old(self).doc@, id, f) && final(self).doc@ == vactor_set(
                    old(self).doc@,
                    id,
                    f,
                    ValueView::Int(v),
                ),
                None => !r && final(self).doc@ == old(self).doc@,
            },
            final(self).path == old(self).path,
            final(self).note == old(self).note,
    {
        let f = match actor_stat_field(iv) {
            Some(f) => f,
            None => {
                return false;
            },
        };
        set_actor_value(&mut self.doc, id, f, LcfValue::Int(v))
    }

    /// Experience of actor `id`.
    pub fn actor_exp(&self, id: u32) -> (r: Option<i64>)
        ensures
            r == actor_int(self.doc@, id, EXP),
    {
        self.actor_int_field(id, EXP)
    }

    /// Sets the experience of actor `id`.
    pub fn set_actor_exp(&mut self, id: u32, exp: i64) -> (r: bool)
        ensures
            r == actor_has(old(self).doc@, id, EXP),
            final(self).doc@ == vactor_set(old(self).doc@, id, EXP, ValueView::Int(exp)),
            final(self).path == old(self).path,
            final(self).note == old(self).note,
    {
        set_actor_value(&mut self.doc, id, EXP, LcfValue::Int(exp))
    }

    /// Sets the level of actor `id` and, with a table, the experience it needs.
    pub fn set_actor_level_sync(&mut self, id: u32, level: i64, exps: &[i64]) -> (r: bool)
        ensures
            (final(self).doc@, r) == level_sync(old(self).doc@, id, level, exps@),
            final(self).path == old(self).path,
            final(self).note == old(self).note,
    {
        let ghost d0 = self.doc@;
        if !set_actor_value(&mut self.doc, id, LEVEL, LcfValue::Int(level)) {
            proof {
                lemma_vactor_set_noop(d0, id, LEVEL, ValueView::Int(level));
            }
            return false;
        }
        if exps.len() > 0 {
            let i = level as usize;
            let needed = if i < exps.len() { exps[i] } else { exps[exps.len() - 1] };
            set_actor_value(&mut self.doc, id, EXP, LcfValue::Int(needed));
        }
        true
    }

    /// Sets the experience of actor `id` and, with a table, the level it
    /// reaches, which is returned.
    pub fn set_actor_exp_sync(&mut self, id: u32, exp: i64, exps: &[i64]) -> (r: Option<i64>)
        ensures
            exps@.len() == 0 ==> r is None && final(self).doc@ == vactor_set(old(self).doc@, id, EXP, ValueView::Int(exp)),
            exps@.len() > 0 ==> r == Some(level_for(exps@, exp, 1, 1)) && final(self).doc@ == vactor_set(
                vactor_set(old(self).doc@, id, EXP, ValueView::Int(exp)),
                id,
                LEVEL,
                ValueView::Int(level_for(exps@, exp, 1, 1)),
            ),
            final(self).path == old(self).path,
            final(self).note == old(self).note,
    {
        set_actor_value(&mut self.doc, id, EXP, LcfValue::Int(exp));
        if exps.len() == 0 {
            return None;
        }
        let mut level: i64 = 1;
        let mut i: usize = 1;
        while i < exps.len()
            invariant
                1 <= i <= exps@.len(),
                level_for(exps@, exp, i as int, level) == level_for(exps@, exp, 1, 1),
            ensures
                level == level_for(exps@, exp, 1, 1),
            decreases exps@.len() - i,
        {
            if exps[i] <= exp {
                level = i as i64;
            } else {
                break;
            }
            i = i + 1;
        }
        set_actor_value(&mut self.doc, id, LEVEL, LcfValue::Int(level));
        Some(level)
    }

    /// Parameter bonus `idx` of actor `id` (see [`param_field`]).
    pub fn actor_param_plus(&self, id: u32, idx: usize) -> (r: Option<i64>)
        ensures
            r == (match param_field(idx) {
                Some(f) => actor_int(self.doc@, id, f),
                None => None,
            }),
    {
        let f = param_plus_field(idx)?;
        self.actor_int_field(id, f)
    }

    /// Sets parameter bonus `idx` of actor `id`.
    pub fn set_actor_param_plus(&mut self, id: u32, idx: usize, v: i64) -> (r: bool)
        ensures
            match param_field(idx) {
                Some(f) => r == actor_has(old(self).doc@, id, f) && final(self).doc@ == vactor_set(
                    old(self).doc@,
                    id,
                    f,
                    ValueView::Int(v),
                ),
                None => !r && final(self).doc@ == old(self).doc@,
            },
            final(self).path == old(self).path,
            final(self).note == old(self).note,
    {
        let f = match param_plus_field(idx) {
            Some(f) => f,
            None => {
                return false;
            },
        };
        set_actor_value(&mut self.doc, id, f, LcfValue::Int(v))
    }

    /// The equipment of actor `id` (negative slots read as 0).
    pub fn actor_equips(&self, id: u32) -> (r: Vec<u32>)
        ensures
            r@ == actor_list(self.doc@, id, EQUIPPED).map_values(|x: i16| if true && x < 0 { 0u32 } else { x as u32 }),
    {
        match actor_value_of(&self.doc, id, EQUIPPED) {
            Some(t) => match t.as_i16_vec() {
                Some(v) => as_u32s(v, true),
                None => Vec::new(),
            },
            None => Vec::new(),
        }
    }

    /// Puts item `item_id` in equipment slot `slot` of actor `id`.
    pub fn set_actor_equip(&mut self, id: u32, slot: usize, item_id: u32) -> (r: bool)
        ensures
            match vactor_value(old(self).doc@, id, EQUIPPED) {
                Some(ValueView::I16(v)) => if slot < v.len() {
                    r && final(self).doc@ == vactor_set(
                        old(self).doc@,
                        id,
                        EQUIPPED,
                        ValueView::I16(v.update(slot as int, item_id as i16)),
                    )
                } else {
                    !r && final(self).doc@ == old(self).doc@
                },
                _ => !r && final(self).doc@ == old(self).doc@,
            },
            final(self).path == old(self).path,
            final(self).note == old(self).note,
    {
        let v = match actor_value_of(&self.doc, id, EQUIPPED) {
            Some(t) => match t.as_i16_vec() {
                Some(v) => copy_i16(v),
                None => {
                    return false;
                },
            },
            None => {
                return false;
            },
        };
        if slot >= v.len() {
            return false;
        }
        let mut w = v;
        w.set(slot, item_id as i16);
        set_actor_value(&mut self.doc, id, EQUIPPED, LcfValue::I16(w))
    }

    fn actor_id_array(&self, id: u32, f: u32) -> (r: Vec<u32>)
        ensures
            r@ == actor_list(self.doc@, id, f).map_values(|x: i16| if false && x < 0 { 0u32 } else { x as u32 }),
    {
        match actor_value_of(&self.doc, id, f) {
            Some(t) => match t.as_i16_vec() {
                Some(v) => as_u32s(v, false),
                None => Vec::new(),
            },
            None => Vec::new(),
        }
    }

    /// The skills of actor `id`.
    pub fn actor_skills(&self, id: u32) -> (r: Vec<u32>)
        ensures
            r@ == actor_list(self.doc@, id, SKILLS).map_values(|x: i16| if false && x < 0 { 0u32 } else { x as u32 }),
    {
        self.actor_id_array(id, SKILLS)
    }

    /// The states of actor `id`.
    pub fn actor_states(&self, id: u32) -> (r: Vec<u32>)
        ensures
            r@ == actor_list(self.doc@, id, STATUS).map_values(|x: i16| if false && x < 0 { 0u32 } else { x as u32 }),
    {
        self.actor_id_array(id, STATUS)
    }

    /// Adds `item_id` to the skills or states (`iv`) of actor `id` once.
    #[verifier::loop_isolation(false)]
    pub fn actor_add_id(&mut self, id: u32, iv: &str, item_id: u32) -> (r: bool)
        ensures
            match list_fields(iv.spec_bytes()) {
                Some((f, sf)) => (final(self).doc@, r) == id_added(old(self).doc@, id, f, sf, item_id),
                None => !r && final(self).doc@ == old(self).doc@,
            },
            final(self).path == old(self).path,
            final(self).note == old(self).note,
    {
        let (f, sf) = match list_fields_of(iv) {
            Some(x) => x,
            None => {
                return false;
            },
        };
        if actor_index(&self.doc, id).is_none() {
            return false;
        }
        let old: Vec<i16> = match actor_value_of(&self.doc, id, f) {
            Some(t) => match t.as_i16_vec() {
                Some(v) => copy_i16(v),
                None => Vec::new(),
            },
            None => Vec::new(),
        };
        assert(old@ == actor_list(self.doc@, id, f));
        let key = item_id as i16;
        let mut i: usize = 0;
        while i < old.len()
            invariant
                i <= old@.len(),
                forall|k: int| 0 <= k < i ==> old@[k] != key,
            decreases old@.len() - i,
        {
            if old[i] == key {
                assert(old@[i as int] == key);
                assert(old@.contains(key));
                return true;
            }
            i = i + 1;
        }
        assert(!old@.contains(key));
        let mut new = old;
        new.push(key);
        let n = new.len();
        let ghost d0 = self.doc@;
        if !set_actor_value(&mut self.doc, id, f, LcfValue::I16(new)) {
            proof {
                lemma_vactor_set_noop(d0, id, f, ValueView::I16(new@));
            }
            return false;
        }
        set_actor_value(&mut self.doc, id, sf, LcfValue::Int(n as i64));
        true
    }

    /// Removes `item_id` from the skills or states (`iv`) of actor `id`.
    pub fn actor_remove_id(&mut self, id: u32, iv: &str, item_id: u32) -> (r: bool)
        ensures
            match list_fields(iv.spec_bytes()) {
                Some((f, sf)) => (final(self).doc@, r) == id_removed(old(self).doc@, id, f, sf, item_id),
                None => !r && final(self).doc@ == old(self).doc@,
            },
            final(self).path == old(self).path,
            final(self).note == old(self).note,
    {
        let (f, sf) = match list_fields_of(iv) {
            Some(x) => x,
            None => {
                return false;
            },
        };
        let old: Vec<i16> = match actor_value_of(&self.doc, id, f) {
            Some(t) => match t.as_i16_vec() {
                Some(v) => copy_i16(v),
                None => Vec::new(),
            },
            None => Vec::new(),
        };
        assert(old@ == actor_list(self.doc@, id, f));
        let key = item_id as i16;
        let mut new: Vec<i16> = Vec::new();
        let mut i: usize = 0;
        while i < old.len()
            invariant
                i <= old@.len(),
                new@ == without(old@, key, i as int),
            decreases old@.len() - i,
        {
            if old[i] != key {
                new.push(old[i]);
            }
            i = i + 1;
        }
        let n = new.len();
        let ghost d0 = self.doc@;
        if !set_actor_value(&mut self.doc, id, f, LcfValue::I16(new)) {
            proof {
                lemma_vactor_set_noop(d0, id, f, ValueView::I16(new@));
            }
            return false;
        }
        set_actor_value(&mut self.doc, id, sf, LcfValue::Int(n as i64));
        true
    }
}

/// Every count in a goods list is at most 255.
proof fn lemma_inv_counts(ids: Seq<i16>, counts: Seq<u8>, n: int)
    ensures
        forall|j: int| 0 <= j < inv_list(ids, counts, n).len() ==> 0 < (#[trigger] inv_list(ids, counts, n)[j]).1 <= 255,
    decreases n,
{
    if n > 0 {
        lemma_inv_counts(ids, counts, n - 1);
        let prev = inv_list(ids, counts, n - 1);
        let cur = inv_list(ids, counts, n);
        assert forall|j: int| 0 <= j < cur.len() implies 0 < (#[trigger] cur[j]).1 <= 255 by {
            if j < prev.len() {
                assert(cur[j] == prev[j]);
            }
        }
    }
}

// ---------------------------------------------------------------------------
// Laws
// ---------------------------------------------------------------------------

/// Replacing a field's value keeps every position, gives the new value at
/// that field, and leaves the other fields of the chunk as they were.
pub proof fn lemma_vset_read(dv: DocView, c: u32, f: u32, v: ValueView, f2: u32)
    requires
        vfield_pos(dv, c, f) is Some,
    ensures
        vfield_pos(vset(dv, c, f, v), c, f2) == vfield_pos(dv, c, f2),
        vvalue(vset(dv, c, f, v), c, f) == Some(v),
        f2 != f ==> vvalue(vset(dv, c, f, v), c, f2) == vvalue(dv, c, f2),
{
    let d1 = vset(dv, c, f, v);
    let (ci, j) = vfield_pos(dv, c, f)->0;
    lemma_first_index_some(dv.chunks, chunk_is(c));
    let fs = dv.chunks[ci].payload->Fields_0;
    lemma_first_index_some(fs, field_is(f));
    let fs1 = fs.update(j, FieldView { typed: Some(v), ..fs[j] });
    assert forall|k: int| 0 <= k < dv.chunks.len() implies chunk_is(c)(#[trigger] dv.chunks[k]) == chunk_is(c)(d1.chunks[k]) by {
    }
    lemma_first_index_same(dv.chunks, chunk_is(c), d1.chunks, chunk_is(c));
    assert forall|k: int| 0 <= k < fs.len() implies field_is(f2)(#[trigger] fs[k]) == field_is(f2)(fs1[k]) by {
    }
    lemma_first_index_same(fs, field_is(f2), fs1, field_is(f2));
    assert forall|k: int| 0 <= k < fs.len() implies field_is(f)(#[trigger] fs[k]) == field_is(f)(fs1[k]) by {
    }
    lemma_first_index_same(fs, field_is(f), fs1, field_is(f));
    if f2 != f {
        if first_index(fs, field_is(f2)) is Some {
            lemma_first_index_some(fs, field_is(f2));
        }
    }
}

/// A switch reads back as it was set, and every other switch reads as before.
pub proof fn law_lsd_switch_read_after_write(dv: DocView, id: u32, on: bool, other: u32)
    requires
        switch_set(dv, id, on).1,
        other != id,
    ensures
        switch_value(switch_set(dv, id, on).0, id) == Some(on),
        switch_value(switch_set(dv, id, on).0, other) == switch_value(dv, other),
{
    let b: u8 = if on { 1 } else { 0 };
    let v = u8s_at(dv, SYSTEM, SWITCHES)->0;
    if (id as int) < v.len() {
        lemma_vset_read(dv, SYSTEM, SWITCHES, ValueView::U8(v.update(id as int, b)), SWITCHES);
    } else {
        let w = padded(v, id + 1, 0u8);
        let d1 = vset(dv, SYSTEM, SWITCHES, ValueView::U8(w));
        lemma_vset_read(dv, SYSTEM, SWITCHES, ValueView::U8(w), SWITCHES_SIZE);
        let d2 = vset(d1, SYSTEM, SWITCHES_SIZE, ValueView::Int((id + 1) as i64));
        lemma_vset_read(d1, SYSTEM, SWITCHES_SIZE, ValueView::Int((id + 1) as i64), SWITCHES);
        lemma_vset_read(d2, SYSTEM, SWITCHES, ValueView::U8(w.update(id as int, b)), SWITCHES);
        if (other as int) < w.len() && (other as int) >= v.len() {
            assert(w[other as int] == 0u8);
        }
    }
}

/// A variable reads back as it was set (cut to 32 bits), and every other
/// variable reads as before.
pub proof fn law_lsd_variable_read_after_write(dv: DocView, id: u32, x: i64, other: u32)
    requires
        variable_set(dv, id, x).1,
        other != id,
    ensures
        variable_value(variable_set(dv, id, x).0, id) == Some((x as i32) as i64),
        variable_value(variable_set(dv, id, x).0, other) == variable_value(dv, other),
{
    let y: i32 = x as i32;
    let v = i32s_at(dv, SYSTEM, VARIABLES)->0;
    if (id as int) < v.len() {
        lemma_vset_read(dv, SYSTEM, VARIABLES, ValueView::I32(v.update(id as int, y)), VARIABLES);
    } else {
        let w = padded(v, id + 1, 0i32);
        let d1 = vset(dv, SYSTEM, VARIABLES, ValueView::I32(w));
        lemma_vset_read(dv, SYSTEM, VARIABLES, ValueView::I32(w), VARIABLES_SIZE);
        let d2 = vset(d1, SYSTEM, VARIABLES_SIZE, ValueView::Int((id + 1) as i64));
        lemma_vset_read(d1, SYSTEM, VARIABLES_SIZE, ValueView::Int((id + 1) as i64), VARIABLES);
        lemma_vset_read(d2, SYSTEM, VARIABLES, ValueView::I32(w.update(id as int, y)), VARIABLES);
        if (other as int) < w.len() && (other as int) >= v.len() {
            assert(w[other as int] == 0i32);
        }
    }
}

/// The gold reads back as it was set.
pub proof fn law_lsd_gold_read_after_write(dv: DocView, g: i64)
    requires
        vfield_pos(dv, INVENTORY, GOLD) is Some,
    ensures
        int_at(vset(dv, INVENTORY, GOLD, ValueView::Int(g)), INVENTORY, GOLD) == Some(g),
{
    lemma_vset_read(dv, INVENTORY, GOLD, ValueView::Int(g), GOLD);
}

/// Setting a field of an actor keeps that actor where it was, gives the new
/// value at that field and leaves its other fields as they were.
pub proof fn law_lsd_actor_read_after_write(dv: DocView, id: u32, f: u32, v: ValueView, f2: u32)
    requires
        actor_has(dv, id, f),
    ensures
        vactor_value(vactor_set(dv, id, f, v), id, f) == Some(v),
        f2 != f ==> vactor_value(vactor_set(dv, id, f, v), id, f2) == vactor_value(dv, id, f2),
{
    let d1 = vactor_set(dv, id, f, v);
    let (ci, e) = vactor_pos(dv, id)->0;
    lemma_first_index_some(dv.chunks, chunk_is(ACTORS));
    let els = dv.chunks[ci].payload->StructArray_elements;
    lemma_first_index_some(els, elem_is(id));
    let el = els[e];
    let el1 = elem_set(el, f, v);
    let k = first_index(el.fields, field_is(f))->0;
    lemma_first_index_some(el.fields, field_is(f));
    let els1 = els.update(e, el1);
    assert forall|m: int| 0 <= m < dv.chunks.len() implies chunk_is(ACTORS)(#[trigger] dv.chunks[m]) == chunk_is(ACTORS)(d1.chunks[m]) by {
    }
    lemma_first_index_same(dv.chunks, chunk_is(ACTORS), d1.chunks, chunk_is(ACTORS));
    assert forall|m: int| 0 <= m < els.len() implies elem_is(id)(#[trigger] els[m]) == elem_is(id)(els1[m]) by {
    }
    lemma_first_index_same(els, elem_is(id), els1, elem_is(id));
    assert(vactor(d1, id) == Some(el1));
    assert forall|m: int| 0 <= m < el.fields.len() implies field_is(f2)(#[trigger] el.fields[m]) == field_is(f2)(el1.fields[m]) by {
    }
    lemma_first_index_same(el.fields, field_is(f2), el1.fields, field_is(f2));
    lemma_first_index_same(el.fields, field_is(f), el1.fields, field_is(f));
    if f2 != f && first_index(el.fields, field_is(f2)) is Some {
        lemma_first_index_some(el.fields, field_is(f2));
    }
}

} // verus!
