use vstd::prelude::*;
use vstd::slice::{slice_subrange, slice_to_vec};
use crate::reader::{
    text_from_utf8, utf8_text, align4, encode, lemma_encode_round_trip, lemma_pow256_4, pow256, uint_at, ByteOrder, Reader,
};
use crate::typetree::{
    aligns, get_level_length, subtree_len, tag_of, tag_of_type, tag_width, Tag, TypeTreeNode,
    ALIGN_FLAG, lemma_subtree_len_bounds, lemma_subtree_nested,
};

verus! {

/// One step of a decoded object, in the order a receiver consumes them.
///
/// Strings and byte blobs are ranges of the reader's bytes. Floating-point
/// values are handed over as their IEEE-754 bit patterns.
#[derive(Clone, Copy, Debug, PartialEq, Eq, Structural)]
pub enum Event {
    Bool(bool),
    I8(i8),
    U8(u8),
    I16(i16),
    U16(u16),
    I32(i32),
    U32(u32),
    I64(i64),
    U64(u64),
    F32(u32),
    F64(u64),
    Str { start: usize, len: usize },
    Bytes { start: usize, len: usize },
    SeqStart(usize),
    MapStart(usize),
    RecordStart,
    /// A record field, named by the node at this index.
    Field(usize),
    End,
}

#[derive(Clone, Debug)]
pub enum ReadTypeTreeError {
    /// The bytes ran out.
    BufEof,
    /// The walk ran past the last node.
    NodeEof,
    /// A string's bytes are not UTF-8.
    Utf8,
    /// A receiver rejected a value.
    Custom(String),
}

/// Distance from `i` to the end of a list of `n` nodes.
pub open spec fn rem(n: nat, i: nat) -> nat {
    if i < n {
        (n - i) as nat
    } else {
        0
    }
}

/// The event for a scalar tag whose raw bits are `v`.
pub open spec fn scalar_event(t: Tag, v: u64) -> Event {
    match t {
        Tag::SInt8 => Event::I8(v as u8 as i8),
        Tag::UInt8 => Event::U8(v as u8),
        Tag::SInt16 => Event::I16(v as u16 as i16),
        Tag::UInt16 => Event::U16(v as u16),
        Tag::SInt32 => Event::I32(v as u32 as i32),
        Tag::UInt32 => Event::U32(v as u32),
        Tag::SInt64 => Event::I64(v as i64),
        Tag::Float => Event::F32(v as u32),
        Tag::Double => Event::F64(v),
        Tag::Bool => Event::Bool(v != 0),
        _ => Event::U64(v),
    }
}

/// Whether the node at `i` is a record whose first child is an `Array` node.
pub open spec fn is_array_record(nodes: Seq<TypeTreeNode>, i: nat) -> bool {
    tag_of(nodes[i as int].type_@) == Tag::Compound && i + 1 < nodes.len() && nodes[(i + 1) as int].type_@
        == "Array"@
}

/// Whether decoding the node at `i` ends with a 4-byte alignment.
pub open spec fn node_aligns(nodes: Seq<TypeTreeNode>, i: nat) -> bool {
    aligns(nodes[i as int].meta_flag) || ((tag_of(nodes[i as int].type_@) == Tag::Dict
        || is_array_record(nodes, i)) && i + 1 < nodes.len() && aligns(nodes[(i + 1) as int].meta_flag))
}

/// A 4-byte element count at `pos`; negative counts run past any buffer.
pub open spec fn count_ok(data: Seq<u8>, order: ByteOrder, pos: nat) -> bool {
    pos + 4 <= data.len() && uint_at(data, pos as int, 4, order) < 0x8000_0000
}

/// Decoding of the node at `i` with the reader at `pos`: the events, how many
/// nodes past `i` the last consumed node lies, and the new position.
pub open spec fn dec(
    nodes: Seq<TypeTreeNode>,
    data: Seq<u8>,
    order: ByteOrder,
    i: nat,
    pos: nat,
) -> Result<(Seq<Event>, nat, nat), ReadTypeTreeError>
    decreases rem(nodes.len(), i), 0nat, 2nat,
{
    if i >= nodes.len() {
        Err(ReadTypeTreeError::NodeEof)
    } else {
        let body = dec_body(nodes, data, order, i, pos);
        match body {
            Ok((evs, adv, p)) => if node_aligns(nodes, i) {
                if align4(p as int) > data.len() {
                    Err(ReadTypeTreeError::BufEof)
                } else {
                    Ok((evs, adv, align4(p as int) as nat))
                }
            } else {
                Ok((evs, adv, p))
            },
            Err(e) => Err(e),
        }
    }
}


/// A scalar of tag `t` at `pos`.
pub open spec fn dec_scalar(data: Seq<u8>, order: ByteOrder, t: Tag, pos: nat) -> Result<(Seq<Event>, nat, nat), ReadTypeTreeError> {
    let w = tag_width(t);
    if pos + w > data.len() {
        Err(ReadTypeTreeError::BufEof)
    } else {
        Ok((seq![scalar_event(t, uint_at(data, pos as int, w as int, order) as u64)], 0nat, pos + w))
    }
}

/// An aligned string at `pos`: a 4-byte length, UTF-8 bytes, padding to 4.
/// Its node's subtree ends three nodes further on.
pub open spec fn dec_str(data: Seq<u8>, order: ByteOrder, pos: nat) -> Result<(Seq<Event>, nat, nat), ReadTypeTreeError> {
    if pos + 4 > data.len() {
        Err(ReadTypeTreeError::BufEof)
    } else {
        let l = uint_at(data, pos as int, 4, order);
        if pos + 4 + l > data.len() || align4((pos + 4 + l) as int) > data.len() {
            Err(ReadTypeTreeError::BufEof)
        } else if utf8_text(data.subrange((pos + 4) as int, (pos + 4 + l) as int)) is None {
            Err(ReadTypeTreeError::Utf8)
        } else {
            Ok((seq![Event::Str { start: (pos + 4) as usize, len: l as usize }], 3nat, align4((pos + 4 + l) as int) as nat))
        }
    }
}

/// A byte blob at `pos`: a 4-byte length and the bytes. Its node's subtree
/// ends two nodes further on.
pub open spec fn dec_blob(data: Seq<u8>, order: ByteOrder, pos: nat) -> Result<(Seq<Event>, nat, nat), ReadTypeTreeError> {
    if !count_ok(data, order, pos) || pos + 4 + uint_at(data, pos as int, 4, order) > data.len() {
        Err(ReadTypeTreeError::BufEof)
    } else {
        let l = uint_at(data, pos as int, 4, order);
        Ok((seq![Event::Bytes { start: (pos + 4) as usize, len: l as usize }], 2nat, (pos + 4 + l) as nat))
    }
}

/// Decoding of the payload of the node at `i`, before its closing alignment.
pub open spec fn dec_body(
    nodes: Seq<TypeTreeNode>,
    data: Seq<u8>,
    order: ByteOrder,
    i: nat,
    pos: nat,
) -> Result<(Seq<Event>, nat, nat), ReadTypeTreeError>
    decreases rem(nodes.len(), i), 0nat, 1nat,
{
    if i >= nodes.len() {
        Err(ReadTypeTreeError::NodeEof)
    } else {
        let t = tag_of(nodes[i as int].type_@);
        if tag_width(t) > 0 {
            dec_scalar(data, order, t, pos)
        } else if t == Tag::Str {
            dec_str(data, order, pos)
        } else if t == Tag::TypelessData {
            dec_blob(data, order, pos)
        } else if t == Tag::Dict {
            dec_map(nodes, data, order, i, pos)
        } else if is_array_record(nodes, i) {
            dec_array(nodes, data, order, i, pos)
        } else {
            dec_record(nodes, data, order, i, pos)
        }
    }
}

/// A map at node `i`: a count, then that many keys and values decoded from
/// the key template at `i + 4` and the value template after it.
pub open spec fn dec_map(
    nodes: Seq<TypeTreeNode>,
    data: Seq<u8>,
    order: ByteOrder,
    i: nat,
    pos: nat,
) -> Result<(Seq<Event>, nat, nat), ReadTypeTreeError>
    decreases rem(nodes.len(), i), 0nat, 0nat,
{
    if i >= nodes.len() {
        Err(ReadTypeTreeError::NodeEof)
    } else if !count_ok(data, order, pos) {
        Err(ReadTypeTreeError::BufEof)
    } else {
        let c = uint_at(data, pos as int, 4, order);
        match dec_entries(nodes, data, order, i + 4, subtree_len(nodes, (i + 4) as int), c, pos + 4, seq![Event::MapStart(c as usize)]) {
            Ok((evs, p)) => Ok((evs.push(Event::End), (subtree_len(nodes, i as int) - 1) as nat, p)),
            Err(e) => Err(e),
        }
    }
}

/// A sequence at node `i`: a count, then that many elements decoded from the
/// template at `i + 3`.
pub open spec fn dec_array(
    nodes: Seq<TypeTreeNode>,
    data: Seq<u8>,
    order: ByteOrder,
    i: nat,
    pos: nat,
) -> Result<(Seq<Event>, nat, nat), ReadTypeTreeError>
    decreases rem(nodes.len(), i), 0nat, 0nat,
{
    if i >= nodes.len() {
        Err(ReadTypeTreeError::NodeEof)
    } else if !count_ok(data, order, pos) {
        Err(ReadTypeTreeError::BufEof)
    } else {
        let c = uint_at(data, pos as int, 4, order);
        match dec_elems(nodes, data, order, i + 3, c, pos + 4, seq![Event::SeqStart(c as usize)]) {
            Ok((evs, p)) => Ok((evs.push(Event::End), (subtree_len(nodes, i as int) - 1) as nat, p)),
            Err(e) => Err(e),
        }
    }
}

/// A record at node `i`: each child in turn, named by its node.
pub open spec fn dec_record(
    nodes: Seq<TypeTreeNode>,
    data: Seq<u8>,
    order: ByteOrder,
    i: nat,
    pos: nat,
) -> Result<(Seq<Event>, nat, nat), ReadTypeTreeError>
    decreases rem(nodes.len(), i), 0nat, 0nat,
{
    let span = subtree_len(nodes, i as int);
    if i >= nodes.len() {
        Err(ReadTypeTreeError::NodeEof)
    } else if span <= 1 {
        Ok((seq![Event::RecordStart, Event::End], 0nat, pos))
    } else {
        match dec_fields(nodes, data, order, i + 1, (i + span - 1) as nat, pos, seq![Event::RecordStart]) {
            Ok((evs, last, p)) => Ok((evs.push(Event::End), (last - i) as nat, p)),
            Err(e) => Err(e),
        }
    }
}

/// `n` more elements decoded from the template at `tmpl`, appended to `acc`.
pub open spec fn dec_elems(
    nodes: Seq<TypeTreeNode>,
    data: Seq<u8>,
    order: ByteOrder,
    tmpl: nat,
    n: nat,
    pos: nat,
    acc: Seq<Event>,
) -> Result<(Seq<Event>, nat), ReadTypeTreeError>
    decreases rem(nodes.len(), tmpl), 1nat, n,
{
    if n == 0 {
        Ok((acc, pos))
    } else {
        match dec(nodes, data, order, tmpl, pos) {
            Ok((e, _adv, p)) => dec_elems(nodes, data, order, tmpl, (n - 1) as nat, p, acc + e),
            Err(x) => Err(x),
        }
    }
}

/// `n` more key/value pairs, keys from the template at `first` and values from
/// the one `klen` nodes after it, appended to `acc`.
pub open spec fn dec_entries(
    nodes: Seq<TypeTreeNode>,
    data: Seq<u8>,
    order: ByteOrder,
    first: nat,
    klen: nat,
    n: nat,
    pos: nat,
    acc: Seq<Event>,
) -> Result<(Seq<Event>, nat), ReadTypeTreeError>
    decreases rem(nodes.len(), first), 1nat, n,
{
    if n == 0 {
        Ok((acc, pos))
    } else {
        match dec(nodes, data, order, first, pos) {
            Ok((k, _ka, p_key)) => match dec(nodes, data, order, first + klen, p_key) {
                Ok((v, _va, p_val)) => dec_entries(nodes, data, order, first, klen, (n - 1) as nat, p_val, acc + k + v),
                Err(x) => Err(x),
            },
            Err(x) => Err(x),
        }
    }
}

/// The fields of a record from the child at `j` on, up to the node `end`,
/// appended to `acc`; also the index of the last node consumed.
pub open spec fn dec_fields(
    nodes: Seq<TypeTreeNode>,
    data: Seq<u8>,
    order: ByteOrder,
    j: nat,
    end: nat,
    pos: nat,
    acc: Seq<Event>,
) -> Result<(Seq<Event>, nat, nat), ReadTypeTreeError>
    decreases rem(nodes.len(), j), 1nat, 0nat,
{
    if j >= nodes.len() {
        Err(ReadTypeTreeError::NodeEof)
    } else {
        match dec(nodes, data, order, j, pos) {
            Ok((e, adv, p)) => {
                let k = j + adv;
                let acc2 = acc.push(Event::Field(j as usize)) + e;
                if k >= nodes.len() || k >= end {
                    Ok((acc2, k, p))
                } else {
                    dec_fields(nodes, data, order, k + 1, end, p, acc2)
                }
            },
            Err(x) => Err(x),
        }
    }
}

/// An executable step that returns the node advance agrees with the
/// decoding `res`.
pub open spec fn step_done(
    res: Result<(Seq<Event>, nat, nat), ReadTypeTreeError>,
    r: Result<usize, ReadTypeTreeError>,
    out0: Seq<Event>,
    out1: Seq<Event>,
    index0: usize,
    pos1: usize,
) -> bool {
    match res {
        Ok((evs, adv, p)) => r == Ok::<usize, ReadTypeTreeError>(adv as usize) && out1 == out0 + evs
            && index0 + adv <= usize::MAX && pos1 == p,
        Err(e) => r == Err::<usize, ReadTypeTreeError>(e),
    }
}

fn width_of(t: Tag) -> (r: usize)
    ensures
        r == tag_width(t),
{
    match t {
        Tag::SInt8 | Tag::UInt8 | Tag::Bool => 1,
        Tag::SInt16 | Tag::UInt16 => 2,
        Tag::SInt32 | Tag::UInt32 | Tag::Float => 4,
        Tag::SInt64 | Tag::UInt64 | Tag::Double => 8,
        _ => 0,
    }
}

fn make_scalar(t: Tag, v: u64) -> (e: Event)
    ensures
        e == scalar_event(t, v),
{
    match t {
        Tag::SInt8 => Event::I8(v as u8 as i8),
        Tag::UInt8 => Event::U8(v as u8),
        Tag::SInt16 => Event::I16(v as u16 as i16),
        Tag::UInt16 => Event::U16(v as u16),
        Tag::SInt32 => Event::I32(v as u32 as i32),
        Tag::UInt32 => Event::U32(v as u32),
        Tag::SInt64 => Event::I64(v as i64),
        Tag::Float => Event::F32(v as u32),
        Tag::Double => Event::F64(v),
        Tag::Bool => Event::Bool(v != 0),
        _ => Event::U64(v),
    }
}

/// Walks a type tree and the bytes it describes in lockstep.
pub struct Deserializer<'a> {
    pub nodes: &'a [TypeTreeNode],
    pub index: usize,
    pub reader: Reader<'a>,
}

impl<'a> Deserializer<'a> {
    pub open spec fn wf(&self) -> bool {
        self.reader.wf() && self.nodes@.len() <= usize::MAX / 2
    }

    /// Both walk the same nodes and the same bytes.
    pub open spec fn same_input(&self, other: &Self) -> bool {
        self.nodes@ == other.nodes@ && self.reader.data@ == other.reader.data@
            && self.reader.order == other.reader.order
    }

    /// What decoding the node at the current index yields.
    pub open spec fn outcome(&self) -> Result<(Seq<Event>, nat, nat), ReadTypeTreeError> {
        dec(self.nodes@, self.reader.data@, self.reader.order, self.index as nat, self.reader.pos as nat)
    }

    pub fn new(nodes: &'a [TypeTreeNode], reader: Reader<'a>) -> (r: Self)
        ensures
            r.nodes@ == nodes@,
            r.index == 0,
            r.reader == reader,
    {
        Deserializer { nodes, index: 0, reader }
    }

    /// Decodes the subtree at the current node, returning its events.
    pub fn decode(&mut self) -> (r: Result<Vec<Event>, ReadTypeTreeError>)
        requires
            old(self).wf(),
        ensures
            final(self).wf(),
            final(self).same_input(old(self)),
            match old(self).outcome() {
                Ok((evs, adv, p)) => r matches Ok(v) && v@ == evs && final(self).index == old(self).index
                    + adv && final(self).reader.pos == p,
                Err(e) => r == Err::<Vec<Event>, ReadTypeTreeError>(e),
            },
            old(self).index >= old(self).nodes@.len() ==> *final(self) == *old(self),
    {
        let mut out: Vec<Event> = Vec::new();
        match self.decode_node(&mut out) {
            Ok(()) => {
                assert(out@ =~= Seq::<Event>::empty() + out@);
                Ok(out)
            },
            Err(e) => Err(e),
        }
    }

    fn decode_node(&mut self, out: &mut Vec<Event>) -> (r: Result<(), ReadTypeTreeError>)
        requires
            old(self).wf(),
        ensures
            final(self).wf(),
            final(self).same_input(old(self)),
            match old(self).outcome() {
                Ok((evs, adv, p)) => r is Ok && final(out)@ == old(out)@ + evs && final(self).index
                    == old(self).index + adv && final(self).reader.pos == p,
                Err(e) => r == Err::<(), ReadTypeTreeError>(e),
            },
            old(self).index >= old(self).nodes@.len() ==> *final(self) == *old(self) && final(out)@
                == old(out)@,
        decreases rem(self.nodes@.len(), self.index as nat), 0nat, 2nat,
    {
        let i = self.index;
        let n = self.nodes.len();
        if i >= n {
            return Err(ReadTypeTreeError::NodeEof);
        }
        let tag = tag_of_type(&self.nodes[i].type_);
        let is_array = tag == Tag::Compound && i + 1 < n && crate::typetree::text_is(
            &self.nodes[i + 1].type_,
            "Array",
        );
        let adv = match self.decode_body(out) {
            Ok(adv) => adv,
            Err(e) => return Err(e),
        };
        self.index = i + adv;
        let aligned = self.nodes[i].meta_flag & ALIGN_FLAG != 0 || ((tag == Tag::Dict || is_array)
            && i + 1 < n && self.nodes[i + 1].meta_flag & ALIGN_FLAG != 0);
        if aligned {
            if self.reader.align().is_err() {
                return Err(ReadTypeTreeError::BufEof);
            }
        }
        Ok(())
    }

    fn decode_body(&mut self, out: &mut Vec<Event>) -> (r: Result<usize, ReadTypeTreeError>)
        requires
            old(self).wf(),
            old(self).index < old(self).nodes@.len(),
        ensures
            final(self).wf(),
            final(self).same_input(old(self)),
            step_done(dec_body(old(self).nodes@, old(self).reader.data@, old(self).reader.order, old(self).index as nat, old(self).reader.pos as nat), r, old(out)@, final(out)@, old(self).index, final(self).reader.pos),
        decreases rem(self.nodes@.len(), self.index as nat), 0nat, 1nat,
    {
        proof {
            lemma_pow256_4();
        }
        let i = self.index;
        let tag = tag_of_type(&self.nodes[i].type_);
        let w = width_of(tag);
        if w > 0 {
            match self.reader.read_uint(w) {
                Ok(v) => {
                    let e = make_scalar(tag, v);
                    out.push(e);
                    assert(out@ =~= old(out)@ + seq![e]);
                    Ok(0)
                },
                Err(_) => Err(ReadTypeTreeError::BufEof),
            }
        } else if tag == Tag::Str {
            let l = match self.reader.read_uint(4) {
                Ok(v) => v,
                Err(_) => return Err(ReadTypeTreeError::BufEof),
            };
            let rest = self.reader.remaining();
            if l > rest as u64 {
                return Err(ReadTypeTreeError::BufEof);
            }
            let lu = l as usize;
            let start = self.reader.pos;
            self.reader.pos = start + lu;
            if self.reader.align().is_err() {
                return Err(ReadTypeTreeError::BufEof);
            }
            let text = slice_to_vec(slice_subrange(self.reader.data, start, start + lu));
            if text_from_utf8(text).is_none() {
                return Err(ReadTypeTreeError::Utf8);
            }
            let e = Event::Str { start, len: lu };
            out.push(e);
            assert(out@ =~= old(out)@ + seq![e]);
            Ok(3)
        } else if tag == Tag::TypelessData {
            let l = match self.reader.read_uint(4) {
                Ok(v) => v,
                Err(_) => return Err(ReadTypeTreeError::BufEof),
            };
            let rest = self.reader.remaining();
            if l >= 0x8000_0000 || l > rest as u64 {
                return Err(ReadTypeTreeError::BufEof);
            }
            let lu = l as usize;
            let start = self.reader.pos;
            self.reader.pos = start + lu;
            let e = Event::Bytes { start, len: lu };
            out.push(e);
            assert(out@ =~= old(out)@ + seq![e]);
            Ok(2)
        } else if tag == Tag::Dict {
            self.decode_map(out)
        } else if i + 1 < self.nodes.len() && tag == Tag::Compound && crate::typetree::text_is(
            &self.nodes[i + 1].type_,
            "Array",
        ) {
            self.decode_array(out)
        } else {
            self.decode_record(out)
        }
    }

    fn decode_map(&mut self, out: &mut Vec<Event>) -> (r: Result<usize, ReadTypeTreeError>)
        requires
            old(self).wf(),
            old(self).index < old(self).nodes@.len(),
        ensures
            final(self).wf(),
            final(self).same_input(old(self)),
            step_done(dec_map(old(self).nodes@, old(self).reader.data@, old(self).reader.order, old(self).index as nat, old(self).reader.pos as nat), r, old(out)@, final(out)@, old(self).index, final(self).reader.pos),
        decreases rem(self.nodes@.len(), self.index as nat), 0nat, 0nat,
    {
        proof {
            lemma_pow256_4();
        }
        let i = self.index;
        let c = match self.reader.read_uint(4) {
            Ok(v) => v,
            Err(_) => return Err(ReadTypeTreeError::BufEof),
        };
        if c >= 0x8000_0000 {
            return Err(ReadTypeTreeError::BufEof);
        }
        let span = get_level_length(self.nodes, i);
        let first = i + 4;
        let klen = get_level_length(self.nodes, first);
        proof {
            lemma_subtree_len_bounds(self.nodes@, i as int);
            if first < self.nodes@.len() {
                lemma_subtree_len_bounds(self.nodes@, first as int);
            }
        }
        let mut inner: Vec<Event> = Vec::new();
        inner.push(Event::MapStart(c as usize));
        proof {
            assert(inner@ =~= seq![Event::MapStart(c as usize)]);
        }
        match self.decode_entries(first, klen, c as usize, &mut inner) {
            Ok(()) => {},
            Err(e) => return Err(e),
        }
        inner.push(Event::End);
        out.append(&mut inner);
        Ok(span - 1)
    }

    fn decode_array(&mut self, out: &mut Vec<Event>) -> (r: Result<usize, ReadTypeTreeError>)
        requires
            old(self).wf(),
            old(self).index < old(self).nodes@.len(),
        ensures
            final(self).wf(),
            final(self).same_input(old(self)),
            step_done(dec_array(old(self).nodes@, old(self).reader.data@, old(self).reader.order, old(self).index as nat, old(self).reader.pos as nat), r, old(out)@, final(out)@, old(self).index, final(self).reader.pos),
        decreases rem(self.nodes@.len(), self.index as nat), 0nat, 0nat,
    {
        proof {
            lemma_pow256_4();
        }
        let i = self.index;
        let c = match self.reader.read_uint(4) {
            Ok(v) => v,
            Err(_) => return Err(ReadTypeTreeError::BufEof),
        };
        if c >= 0x8000_0000 {
            return Err(ReadTypeTreeError::BufEof);
        }
        let span = get_level_length(self.nodes, i);
        proof {
            lemma_subtree_len_bounds(self.nodes@, i as int);
        }
        let mut inner: Vec<Event> = Vec::new();
        inner.push(Event::SeqStart(c as usize));
        proof {
            assert(inner@ =~= seq![Event::SeqStart(c as usize)]);
        }
        match self.decode_elems(i + 3, c as usize, &mut inner) {
            Ok(()) => {},
            Err(e) => return Err(e),
        }
        inner.push(Event::End);
        out.append(&mut inner);
        Ok(span - 1)
    }

    fn decode_record(&mut self, out: &mut Vec<Event>) -> (r: Result<usize, ReadTypeTreeError>)
        requires
            old(self).wf(),
            old(self).index < old(self).nodes@.len(),
        ensures
            final(self).wf(),
            final(self).same_input(old(self)),
            step_done(dec_record(old(self).nodes@, old(self).reader.data@, old(self).reader.order, old(self).index as nat, old(self).reader.pos as nat), r, old(out)@, final(out)@, old(self).index, final(self).reader.pos),
        decreases rem(self.nodes@.len(), self.index as nat), 0nat, 0nat,
    {
        let i = self.index;
        let span = get_level_length(self.nodes, i);
        proof {
            lemma_subtree_len_bounds(self.nodes@, i as int);
        }
        if span <= 1 {
            out.push(Event::RecordStart);
            out.push(Event::End);
            proof {
                assert(out@ =~= old(out)@ + seq![Event::RecordStart, Event::End]);
            }
            return Ok(0);
        }
        let mut inner: Vec<Event> = Vec::new();
        inner.push(Event::RecordStart);
        proof {
            assert(inner@ =~= seq![Event::RecordStart]);
        }
        self.index = i + 1;
        let last = match self.decode_fields(i + span - 1, &mut inner) {
            Ok(last) => last,
            Err(e) => return Err(e),
        };
        inner.push(Event::End);
        out.append(&mut inner);
        Ok(last - i)
    }

    fn decode_elems(&mut self, tmpl: usize, n: usize, out: &mut Vec<Event>) -> (r: Result<
        (),
        ReadTypeTreeError,
    >)
        requires
            old(self).wf(),
        ensures
            final(self).wf(),
            final(self).same_input(old(self)),
            match dec_elems(old(self).nodes@, old(self).reader.data@, old(self).reader.order, tmpl as nat, n as nat, old(self).reader.pos as nat, old(out)@) {
                Ok((evs, p)) => r is Ok && final(out)@ == evs && final(self).reader.pos == p,
                Err(e) => r == Err::<(), ReadTypeTreeError>(e),
            },
        decreases rem(self.nodes@.len(), tmpl as nat), 1nat, 0nat,
    {
        let mut k: usize = 0;
        while k < n
            invariant
                k <= n,
                self.wf(),
                self.same_input(old(self)),
                dec_elems(old(self).nodes@, old(self).reader.data@, old(self).reader.order, tmpl as nat, n as nat, old(self).reader.pos as nat, old(out)@) == dec_elems(self.nodes@, self.reader.data@, self.reader.order, tmpl as nat, (n - k) as nat, self.reader.pos as nat, out@),
            decreases n - k,
        {
            self.index = tmpl;
            match self.decode_node(out) {
                Ok(()) => {},
                Err(e) => return Err(e),
            }
            k = k + 1;
        }
        Ok(())
    }

    fn decode_entries(&mut self, first: usize, klen: usize, n: usize, out: &mut Vec<Event>) -> (r: Result<
        (),
        ReadTypeTreeError,
    >)
        requires
            old(self).wf(),
            first <= old(self).nodes@.len() + 4,
            klen <= old(self).nodes@.len(),
        ensures
            final(self).wf(),
            final(self).same_input(old(self)),
            match dec_entries(old(self).nodes@, old(self).reader.data@, old(self).reader.order, first as nat, klen as nat, n as nat, old(self).reader.pos as nat, old(out)@) {
                Ok((evs, p)) => r is Ok && final(out)@ == evs && final(self).reader.pos == p,
                Err(e) => r == Err::<(), ReadTypeTreeError>(e),
            },
        decreases rem(self.nodes@.len(), first as nat), 1nat, 0nat,
    {
        let mut k: usize = 0;
        while k < n
            invariant
                k <= n,
                self.wf(),
                self.same_input(old(self)),
                first <= self.nodes@.len() + 4,
                klen <= self.nodes@.len(),
                dec_entries(old(self).nodes@, old(self).reader.data@, old(self).reader.order, first as nat, klen as nat, n as nat, old(self).reader.pos as nat, old(out)@) == dec_entries(self.nodes@, self.reader.data@, self.reader.order, first as nat, klen as nat, (n - k) as nat, self.reader.pos as nat, out@),
            decreases n - k,
        {
            self.index = first;
            match self.decode_node(out) {
                Ok(()) => {},
                Err(e) => return Err(e),
            }
            self.index = first + klen;
            match self.decode_node(out) {
                Ok(()) => {},
                Err(e) => return Err(e),
            }
            k = k + 1;
        }
        Ok(())
    }

    /// Whether a record whose last node is `end` has no fields left.
    fn check_finish(&self, end: usize) -> (r: bool)
        ensures
            r == (self.index >= self.nodes@.len() || self.index >= end),
    {
        if self.index >= self.nodes.len() {
            return true;
        }
        if self.index >= end {
            return true;
        }
        false
    }

    fn decode_fields(&mut self, end: usize, out: &mut Vec<Event>) -> (r: Result<usize, ReadTypeTreeError>)
        requires
            old(self).wf(),
        ensures
            final(self).wf(),
            final(self).same_input(old(self)),
            match dec_fields(old(self).nodes@, old(self).reader.data@, old(self).reader.order, old(self).index as nat, end as nat, old(self).reader.pos as nat, old(out)@) {
                Ok((evs, last, p)) => r == Ok::<usize, ReadTypeTreeError>(last as usize) && last == final(self).index
                    && last >= old(self).index && final(out)@ == evs && final(self).reader.pos == p,
                Err(e) => r == Err::<usize, ReadTypeTreeError>(e),
            },
        decreases rem(self.nodes@.len(), self.index as nat), 1nat, 0nat,
    {
        loop
            invariant
                self.wf(),
                self.same_input(old(self)),
                self.index >= old(self).index,
                dec_fields(old(self).nodes@, old(self).reader.data@, old(self).reader.order, old(self).index as nat, end as nat, old(self).reader.pos as nat, old(out)@) == dec_fields(self.nodes@, self.reader.data@, self.reader.order, self.index as nat, end as nat, self.reader.pos as nat, out@),
            decreases rem(self.nodes@.len(), self.index as nat),
        {
            let j = self.index;
            if j >= self.nodes.len() {
                return Err(ReadTypeTreeError::NodeEof);
            }
            out.push(Event::Field(j));
            match self.decode_node(out) {
                Ok(()) => {},
                Err(e) => return Err(e),
            }
            let k = self.index;
            if self.check_finish(end) {
                return Ok(k);
            }
            self.index = k + 1;
        }
    }
}

/// The class of an object, by its numeric id.
#[derive(Clone, Copy, Debug, PartialEq, Eq, Structural)]
pub struct ClassID {
    pub id: i32,
}

/// An object of an asset file: where its bytes lie and how they are laid out.
#[derive(Clone, Debug)]
pub struct ObjectInfo {
    pub asset_version: u32,
    pub bytes_start: usize,
    pub bytes_size: usize,
    pub data: Vec<u8>,
    pub bytes_order: ByteOrder,
    pub type_id: i32,
    pub class_id: i32,
    pub is_destroyed: u16,
    pub stripped: u8,
    pub path_id: i64,
    /// The type tree of the object's serialized type.
    pub nodes: Vec<TypeTreeNode>,
    pub version: [i32; 4],
}

impl ObjectInfo {
    pub open spec fn wf(&self) -> bool {
        self.bytes_start <= self.data@.len() && self.nodes@.len() <= usize::MAX / 2
    }

    /// The object's own bytes: everything from its start on.
    pub open spec fn payload(&self) -> Seq<u8> {
        self.data@.subrange(self.bytes_start as int, self.data@.len() as int)
    }

    pub fn get_reader(&self) -> (r: Reader<'_>)
        requires
            self.bytes_start <= self.data@.len(),
        ensures
            r.data@ == self.payload(),
            r.pos == 0,
            r.order == self.bytes_order,
            r.wf(),
    {
        Reader::new(
            vstd::slice::slice_subrange(self.data.as_slice(), self.bytes_start, self.data.len()),
            self.bytes_order,
        )
    }

    pub fn class(&self) -> (r: ClassID)
        ensures
            r.id == self.class_id,
    {
        ClassID { id: self.class_id }
    }

    /// Decodes the object along its type tree, from the root node.
    pub fn read_type_tree(&self) -> (r: Result<Vec<Event>, ReadTypeTreeError>)
        requires
            self.wf(),
        ensures
            match dec(self.nodes@, self.payload(), self.bytes_order, 0, 0) {
                Ok((evs, _adv, _p)) => r matches Ok(v) && v@ == evs,
                Err(e) => r == Err::<Vec<Event>, ReadTypeTreeError>(e),
            },
    {
        let reader = self.get_reader();
        let mut de = Deserializer::new(self.nodes.as_slice(), reader);
        de.decode()
    }
}

/// Rounding up to four lands on a multiple of four, no lower.
pub proof fn lemma_align4(p: int)
    requires
        0 <= p,
    ensures
        align4(p) % 4 == 0,
        p <= align4(p) < p + 4,
{
}

/// A node whose `meta_flag` asks for alignment leaves the reader on a
/// multiple of four.
pub proof fn lemma_aligned_node_ends_aligned(
    nodes: Seq<TypeTreeNode>,
    data: Seq<u8>,
    order: ByteOrder,
    i: nat,
    pos: nat,
)
    requires
        i < nodes.len(),
        aligns(nodes[i as int].meta_flag),
        dec(nodes, data, order, i, pos) is Ok,
    ensures
        dec(nodes, data, order, i, pos)->Ok_0.2 % 4 == 0,
{
    let body = dec_body(nodes, data, order, i, pos);
    lemma_align4(body->Ok_0.2 as int);
}

/// A map or a sequence ends on the last node of its subtree.
pub proof fn lemma_container_closes_subtree(
    nodes: Seq<TypeTreeNode>,
    data: Seq<u8>,
    order: ByteOrder,
    i: nat,
    pos: nat,
)
    requires
        i < nodes.len(),
        tag_of(nodes[i as int].type_@) == Tag::Dict || is_array_record(nodes, i),
        dec(nodes, data, order, i, pos) is Ok,
    ensures
        i + dec(nodes, data, order, i, pos)->Ok_0.1 == i + subtree_len(nodes, i as int) - 1,
{
    lemma_subtree_len_bounds(nodes, i as int);
}

/// A record without children is decoded as an empty record that ends on
/// its own node.
pub proof fn lemma_empty_record(
    nodes: Seq<TypeTreeNode>,
    data: Seq<u8>,
    order: ByteOrder,
    i: nat,
    pos: nat,
)
    requires
        i < nodes.len(),
        tag_of(nodes[i as int].type_@) == Tag::Compound,
        !is_array_record(nodes, i),
        subtree_len(nodes, i as int) == 1,
        !aligns(nodes[i as int].meta_flag),
    ensures
        dec(nodes, data, order, i, pos) == Ok::<(Seq<Event>, nat, nat), ReadTypeTreeError>(
            (seq![Event::RecordStart, Event::End], 0nat, pos),
        ),
{
}

/// A decoded scalar moves the reader forward by exactly its width.
pub proof fn lemma_scalar_advances(
    nodes: Seq<TypeTreeNode>,
    data: Seq<u8>,
    order: ByteOrder,
    i: nat,
    pos: nat,
)
    requires
        i < nodes.len(),
        tag_width(tag_of(nodes[i as int].type_@)) > 0,
        !aligns(nodes[i as int].meta_flag),
        dec(nodes, data, order, i, pos) is Ok,
    ensures
        dec(nodes, data, order, i, pos)->Ok_0.2 == pos + tag_width(tag_of(nodes[i as int].type_@)),
        dec(nodes, data, order, i, pos)->Ok_0.2 > pos,
{
}

/// A successful decode never moves the reader back nor past its bytes.
pub proof fn lemma_dec_forward(nodes: Seq<TypeTreeNode>, data: Seq<u8>, order: ByteOrder, i: nat, pos: nat)
    requires
        pos <= data.len(),
    ensures
        dec(nodes, data, order, i, pos) matches Ok((_e, _a, p)) ==> pos <= p <= data.len(),
    decreases rem(nodes.len(), i), 0nat, 2nat,
{
    if i < nodes.len() {
        lemma_body_forward(nodes, data, order, i, pos);
        let body = dec_body(nodes, data, order, i, pos);
        if body is Ok {
            lemma_align4(body->Ok_0.2 as int);
        }
    }
}

proof fn lemma_body_forward(nodes: Seq<TypeTreeNode>, data: Seq<u8>, order: ByteOrder, i: nat, pos: nat)
    requires
        pos <= data.len(),
    ensures
        dec_body(nodes, data, order, i, pos) matches Ok((_e, _a, p)) ==> pos <= p <= data.len(),
    decreases rem(nodes.len(), i), 0nat, 1nat,
{
    if i < nodes.len() {
        let t = tag_of(nodes[i as int].type_@);
        if t == Tag::Str {
            let l = uint_at(data, pos as int, 4, order);
            lemma_align4((pos + 4 + l) as int);
        } else if tag_width(t) == 0 && t != Tag::TypelessData {
            if t == Tag::Dict {
                if count_ok(data, order, pos) {
                    let c = uint_at(data, pos as int, 4, order);
                    lemma_entries_forward(nodes, data, order, i + 4, subtree_len(nodes, (i + 4) as int), c, pos + 4, seq![Event::MapStart(c as usize)]);
                }
            } else if is_array_record(nodes, i) {
                if count_ok(data, order, pos) {
                    let c = uint_at(data, pos as int, 4, order);
                    lemma_elems_forward(nodes, data, order, i + 3, c, pos + 4, seq![Event::SeqStart(c as usize)]);
                }
            } else {
                let span = subtree_len(nodes, i as int);
                if span > 1 {
                    lemma_fields_forward(nodes, data, order, i + 1, (i + span - 1) as nat, pos, seq![Event::RecordStart]);
                }
            }
        }
    }
}

proof fn lemma_elems_forward(
    nodes: Seq<TypeTreeNode>,
    data: Seq<u8>,
    order: ByteOrder,
    tmpl: nat,
    n: nat,
    pos: nat,
    acc: Seq<Event>,
)
    requires
        pos <= data.len(),
    ensures
        dec_elems(nodes, data, order, tmpl, n, pos, acc) matches Ok((_e, p)) ==> pos <= p <= data.len(),
    decreases rem(nodes.len(), tmpl), 1nat, n,
{
    if n > 0 {
        lemma_dec_forward(nodes, data, order, tmpl, pos);
        if let Ok((e, _a, p)) = dec(nodes, data, order, tmpl, pos) {
            lemma_elems_forward(nodes, data, order, tmpl, (n - 1) as nat, p, acc + e);
        }
    }
}

proof fn lemma_entries_forward(
    nodes: Seq<TypeTreeNode>,
    data: Seq<u8>,
    order: ByteOrder,
    first: nat,
    klen: nat,
    n: nat,
    pos: nat,
    acc: Seq<Event>,
)
    requires
        pos <= data.len(),
    ensures
        dec_entries(nodes, data, order, first, klen, n, pos, acc) matches Ok((_e, p)) ==> pos <= p <= data.len(),
    decreases rem(nodes.len(), first), 1nat, n,
{
    if n > 0 {
        lemma_dec_forward(nodes, data, order, first, pos);
        if let Ok((k, _ka, p_key)) = dec(nodes, data, order, first, pos) {
            lemma_dec_forward(nodes, data, order, first + klen, p_key);
            if let Ok((v, _va, p_val)) = dec(nodes, data, order, first + klen, p_key) {
                lemma_entries_forward(nodes, data, order, first, klen, (n - 1) as nat, p_val, acc + k + v);
            }
        }
    }
}

proof fn lemma_fields_forward(
    nodes: Seq<TypeTreeNode>,
    data: Seq<u8>,
    order: ByteOrder,
    j: nat,
    end: nat,
    pos: nat,
    acc: Seq<Event>,
)
    requires
        pos <= data.len(),
    ensures
        dec_fields(nodes, data, order, j, end, pos, acc) matches Ok((_e, _l, p)) ==> pos <= p <= data.len(),
    decreases rem(nodes.len(), j), 1nat, 0nat,
{
    if j < nodes.len() {
        lemma_dec_forward(nodes, data, order, j, pos);
        if let Ok((e, adv, p)) = dec(nodes, data, order, j, pos) {
            let k = j + adv;
            if !(k >= nodes.len() || k >= end) {
                lemma_fields_forward(nodes, data, order, k + 1, end, p, acc.push(Event::Field(j as usize)) + e);
            }
        }
    }
}

/// A one-node tree of a scalar tag decodes the bytes of `bits`, written in
/// the reader's byte order, back to `bits`.
pub proof fn lemma_scalar_round_trip(node: TypeTreeNode, bits: u64, order: ByteOrder)
    requires
        tag_width(tag_of(node.type_@)) > 0,
        bits < pow256(tag_width(tag_of(node.type_@))),
        !aligns(node.meta_flag),
    ensures
        dec(seq![node], encode(bits as nat, tag_width(tag_of(node.type_@)), order), order, 0, 0)
            == Ok::<(Seq<Event>, nat, nat), ReadTypeTreeError>(
            (seq![scalar_event(tag_of(node.type_@), bits)], 0nat, tag_width(tag_of(node.type_@))),
        ),
{
    let w = tag_width(tag_of(node.type_@));
    let data = encode(bits as nat, w, order);
    lemma_encode_round_trip(bits as nat, w, order);
    assert(data.subrange(0, w as int) =~= data);
}

/// The bits of a 32-bit signed value decode back to that value.
pub proof fn lemma_sint32_round_trip(node: TypeTreeNode, x: i32, order: ByteOrder)
    requires
        tag_of(node.type_@) == Tag::SInt32,
        !aligns(node.meta_flag),
    ensures
        dec(seq![node], encode(x as u32 as nat, 4, order), order, 0, 0) == Ok::<
            (Seq<Event>, nat, nat),
            ReadTypeTreeError,
        >((seq![Event::I32(x)], 0nat, 4nat)),
{
    lemma_pow256_4();
    lemma_scalar_round_trip(node, x as u32 as u64, order);
    assert((x as u32 as u64) as u32 as i32 == x) by (bit_vector);
}

/// The events of `n` successive decodings of the template at `tmpl`, one
/// sequence of events for each element.
pub open spec fn template_runs(
    nodes: Seq<TypeTreeNode>,
    data: Seq<u8>,
    order: ByteOrder,
    tmpl: nat,
    n: nat,
    pos: nat,
) -> Result<(Seq<Seq<Event>>, nat), ReadTypeTreeError>
    decreases n,
{
    if n == 0 {
        Ok((Seq::empty(), pos))
    } else {
        match dec(nodes, data, order, tmpl, pos) {
            Ok((e, _a, p)) => match template_runs(nodes, data, order, tmpl, (n - 1) as nat, p) {
                Ok((rest, p_val)) => Ok((seq![e] + rest, p_val)),
                Err(x) => Err(x),
            },
            Err(x) => Err(x),
        }
    }
}

proof fn lemma_elems_are_runs(
    nodes: Seq<TypeTreeNode>,
    data: Seq<u8>,
    order: ByteOrder,
    tmpl: nat,
    n: nat,
    pos: nat,
    acc: Seq<Event>,
)
    ensures
        match template_runs(nodes, data, order, tmpl, n, pos) {
            Ok((items, p)) => items.len() == n && dec_elems(nodes, data, order, tmpl, n, pos, acc)
                == Ok::<(Seq<Event>, nat), ReadTypeTreeError>((acc + items.flatten(), p)),
            Err(x) => dec_elems(nodes, data, order, tmpl, n, pos, acc) == Err::<
                (Seq<Event>, nat),
                ReadTypeTreeError,
            >(x),
        },
    decreases n,
{
    if n == 0 {
        assert(acc + Seq::<Seq<Event>>::empty().flatten() =~= acc);
    } else {
        if let Ok((e, _a, p)) = dec(nodes, data, order, tmpl, pos) {
            lemma_elems_are_runs(nodes, data, order, tmpl, (n - 1) as nat, p, acc + e);
            if let Ok((rest, p_val)) = template_runs(nodes, data, order, tmpl, (n - 1) as nat, p) {
                let items = seq![e] + rest;
                assert(items.drop_first() =~= rest);
                assert(items.flatten() == e + rest.flatten());
                assert(acc + e + rest.flatten() =~= acc + items.flatten());
            }
        }
    }
}

/// A sequence node whose count header is `N` hands the receiver exactly `N`
/// elements, each a decoding of the element template at `i + 3`.
pub proof fn lemma_sequence_arity(
    nodes: Seq<TypeTreeNode>,
    data: Seq<u8>,
    order: ByteOrder,
    i: nat,
    pos: nat,
)
    requires
        i < nodes.len(),
        is_array_record(nodes, i),
        dec(nodes, data, order, i, pos) is Ok,
    ensures
        ({
            let n = uint_at(data, pos as int, 4, order);
            template_runs(nodes, data, order, i + 3, n, pos + 4) matches Ok((items, _p))
                && items.len() == n && dec(nodes, data, order, i, pos)->Ok_0.0 == seq![
                Event::SeqStart(n as usize),
            ] + items.flatten() + seq![Event::End]
        }),
{
    let n = uint_at(data, pos as int, 4, order);
    lemma_elems_are_runs(nodes, data, order, i + 3, n, pos + 4, seq![Event::SeqStart(n as usize)]);
    if let Ok((items, _p)) = template_runs(nodes, data, order, i + 3, n, pos + 4) {
        assert(seq![Event::SeqStart(n as usize)] + items.flatten() + seq![Event::End] =~= (seq![
            Event::SeqStart(n as usize),
        ] + items.flatten()).push(Event::End));
    }
}

/// The events of `n` successive key and value decodings, from the key
/// template at `first` and the value template `klen` nodes after it.
pub open spec fn entry_runs(
    nodes: Seq<TypeTreeNode>,
    data: Seq<u8>,
    order: ByteOrder,
    first: nat,
    klen: nat,
    n: nat,
    pos: nat,
) -> Result<(Seq<(Seq<Event>, Seq<Event>)>, nat), ReadTypeTreeError>
    decreases n,
{
    if n == 0 {
        Ok((Seq::empty(), pos))
    } else {
        match dec(nodes, data, order, first, pos) {
            Ok((k, _ka, p_key)) => match dec(nodes, data, order, first + klen, p_key) {
                Ok((v, _va, p_val)) => match entry_runs(nodes, data, order, first, klen, (n - 1) as nat, p_val) {
                    Ok((rest, p_rest)) => Ok((seq![(k, v)] + rest, p_rest)),
                    Err(x) => Err(x),
                },
                Err(x) => Err(x),
            },
            Err(x) => Err(x),
        }
    }
}

/// The events of key/value pairs, one pair after the other.
pub open spec fn pair_events(items: Seq<(Seq<Event>, Seq<Event>)>) -> Seq<Event>
    decreases items.len(),
{
    if items.len() == 0 {
        Seq::empty()
    } else {
        items[0].0 + items[0].1 + pair_events(items.drop_first())
    }
}

proof fn lemma_pair_events_cons(
    acc: Seq<Event>,
    k: Seq<Event>,
    v: Seq<Event>,
    rest: Seq<(Seq<Event>, Seq<Event>)>,
)
    ensures
        acc + k + v + pair_events(rest) == acc + pair_events(seq![(k, v)] + rest),
{
    let items = seq![(k, v)] + rest;
    assert(items.drop_first() =~= rest);
    assert(items[0] == (k, v));
    assert(pair_events(items) == k + v + pair_events(rest));
    assert(acc + k + v + pair_events(rest) =~= acc + (k + v + pair_events(rest)));
}

#[verifier::spinoff_prover]
proof fn lemma_entries_are_runs(
    nodes: Seq<TypeTreeNode>,
    data: Seq<u8>,
    order: ByteOrder,
    first: nat,
    klen: nat,
    n: nat,
    pos: nat,
    acc: Seq<Event>,
)
    ensures
        match entry_runs(nodes, data, order, first, klen, n, pos) {
            Ok((items, p)) => items.len() == n && dec_entries(nodes, data, order, first, klen, n, pos, acc)
                == Ok::<(Seq<Event>, nat), ReadTypeTreeError>((acc + pair_events(items), p)),
            Err(x) => dec_entries(nodes, data, order, first, klen, n, pos, acc) == Err::<
                (Seq<Event>, nat),
                ReadTypeTreeError,
            >(x),
        },
    decreases n,
{
    if n == 0 {
        assert(acc + pair_events(Seq::empty()) =~= acc);
    } else {
        if let Ok((k, _ka, p_key)) = dec(nodes, data, order, first, pos) {
            if let Ok((v, _va, p_val)) = dec(nodes, data, order, first + klen, p_key) {
                lemma_entries_are_runs(nodes, data, order, first, klen, (n - 1) as nat, p_val, acc + k + v);
                if let Ok((rest, p_rest)) = entry_runs(nodes, data, order, first, klen, (n - 1) as nat, p_val) {
                    lemma_pair_events_cons(acc, k, v, rest);
                }
            }
        }
    }
}

/// A map node whose count header is `N` hands the receiver exactly `N`
/// entries; the key template at `i + 4` and the value template after it are
/// each decoded once for every entry.
pub proof fn lemma_map_arity(nodes: Seq<TypeTreeNode>, data: Seq<u8>, order: ByteOrder, i: nat, pos: nat)
    requires
        i < nodes.len(),
        tag_of(nodes[i as int].type_@) == Tag::Dict,
        dec(nodes, data, order, i, pos) is Ok,
    ensures
        ({
            let n = uint_at(data, pos as int, 4, order);
            entry_runs(nodes, data, order, i + 4, subtree_len(nodes, (i + 4) as int), n, pos + 4)
                matches Ok((items, _p)) && items.len() == n && dec(nodes, data, order, i, pos)->Ok_0.0
                == seq![Event::MapStart(n as usize)] + pair_events(items) + seq![Event::End]
        }),
{
    let n = uint_at(data, pos as int, 4, order);
    let klen = subtree_len(nodes, (i + 4) as int);
    lemma_entries_are_runs(nodes, data, order, i + 4, klen, n, pos + 4, seq![Event::MapStart(n as usize)]);
    if let Ok((items, _p)) = entry_runs(nodes, data, order, i + 4, klen, n, pos + 4) {
        assert(seq![Event::MapStart(n as usize)] + pair_events(items) + seq![Event::End] =~= (seq![
            Event::MapStart(n as usize),
        ] + pair_events(items)).push(Event::End));
    }
}

/// Every node strictly inside the subtree at `i` that decodes ends on the
/// last node of its own subtree.
pub open spec fn inner_nodes_close(nodes: Seq<TypeTreeNode>, data: Seq<u8>, order: ByteOrder, i: nat) -> bool {
    forall|j: nat, p: nat|
        i < j < i + subtree_len(nodes, i as int) && #[trigger] dec(nodes, data, order, j, p) is Ok
            ==> dec(nodes, data, order, j, p)->Ok_0.1 == subtree_len(nodes, j as int) - 1
}

proof fn lemma_fields_close(
    nodes: Seq<TypeTreeNode>,
    data: Seq<u8>,
    order: ByteOrder,
    i: nat,
    j: nat,
    pos: nat,
    acc: Seq<Event>,
)
    requires
        i < j <= i + subtree_len(nodes, i as int) - 1,
        inner_nodes_close(nodes, data, order, i),
        dec_fields(nodes, data, order, j, (i + subtree_len(nodes, i as int) - 1) as nat, pos, acc) is Ok,
    ensures
        dec_fields(nodes, data, order, j, (i + subtree_len(nodes, i as int) - 1) as nat, pos, acc)->Ok_0.1
            == i + subtree_len(nodes, i as int) - 1,
    decreases i + subtree_len(nodes, i as int) - j,
{
    let end = (i + subtree_len(nodes, i as int) - 1) as nat;
    lemma_subtree_len_bounds(nodes, i as int);
    lemma_subtree_nested(nodes, i as int, j as int);
    lemma_subtree_len_bounds(nodes, j as int);
    if let Ok((e, adv, p)) = dec(nodes, data, order, j, pos) {
        let k = j + adv;
        if !(k >= nodes.len() || k >= end) {
            lemma_fields_close(nodes, data, order, i, k + 1, p, acc.push(Event::Field(j as usize)) + e);
        }
    }
}

/// A record whose inner nodes each end on the last node of their own
/// subtree ends on the last node of its subtree.
pub proof fn lemma_record_closes_subtree(
    nodes: Seq<TypeTreeNode>,
    data: Seq<u8>,
    order: ByteOrder,
    i: nat,
    pos: nat,
)
    requires
        i < nodes.len(),
        tag_of(nodes[i as int].type_@) == Tag::Compound,
        !is_array_record(nodes, i),
        inner_nodes_close(nodes, data, order, i),
        dec(nodes, data, order, i, pos) is Ok,
    ensures
        i + dec(nodes, data, order, i, pos)->Ok_0.1 == i + subtree_len(nodes, i as int) - 1,
{
    lemma_subtree_len_bounds(nodes, i as int);
    let span = subtree_len(nodes, i as int);
    if span > 1 {
        lemma_fields_close(nodes, data, order, i, i + 1, pos, seq![Event::RecordStart]);
    }
}

/// The bits of an 8-bit signed value decode back to that value.
pub proof fn lemma_sint8_round_trip(node: TypeTreeNode, x: i8, order: ByteOrder)
    requires
        tag_of(node.type_@) == Tag::SInt8,
        !aligns(node.meta_flag),
    ensures
        dec(seq![node], encode(x as u8 as nat, 1, order), order, 0, 0) == Ok::<
            (Seq<Event>, nat, nat),
            ReadTypeTreeError,
        >((seq![Event::I8(x)], 0nat, 1nat)),
{
    reveal_with_fuel(pow256, 2);
    lemma_scalar_round_trip(node, x as u8 as u64, order);
    assert((x as u8 as u64) as u8 as i8 == x) by (bit_vector);
}

/// The bits of a 16-bit signed value decode back to that value.
pub proof fn lemma_sint16_round_trip(node: TypeTreeNode, x: i16, order: ByteOrder)
    requires
        tag_of(node.type_@) == Tag::SInt16,
        !aligns(node.meta_flag),
    ensures
        dec(seq![node], encode(x as u16 as nat, 2, order), order, 0, 0) == Ok::<
            (Seq<Event>, nat, nat),
            ReadTypeTreeError,
        >((seq![Event::I16(x)], 0nat, 2nat)),
{
    reveal_with_fuel(pow256, 3);
    lemma_scalar_round_trip(node, x as u16 as u64, order);
    assert((x as u16 as u64) as u16 as i16 == x) by (bit_vector);
}

/// The bits of a 64-bit signed value decode back to that value.
pub proof fn lemma_sint64_round_trip(node: TypeTreeNode, x: i64, order: ByteOrder)
    requires
        tag_of(node.type_@) == Tag::SInt64,
        !aligns(node.meta_flag),
    ensures
        dec(seq![node], encode(x as u64 as nat, 8, order), order, 0, 0) == Ok::<
            (Seq<Event>, nat, nat),
            ReadTypeTreeError,
        >((seq![Event::I64(x)], 0nat, 8nat)),
{
    reveal_with_fuel(pow256, 9);
    lemma_scalar_round_trip(node, x as u64, order);
    assert((x as u64) as i64 == x) by (bit_vector);
}

/// Bytes a node reads before anything else: a scalar's width, or the 4-byte
/// length or count of a string, blob, sequence or map.
pub open spec fn first_read(t: Tag) -> nat {
    if tag_width(t) > 0 {
        tag_width(t)
    } else {
        4
    }
}

/// Decoding a node that reads bytes itself (anything but a plain record)
/// moves the reader strictly forward, by at least its first read.
pub proof fn lemma_reading_node_advances(
    nodes: Seq<TypeTreeNode>,
    data: Seq<u8>,
    order: ByteOrder,
    i: nat,
    pos: nat,
)
    requires
        pos <= data.len(),
        i < nodes.len(),
        tag_of(nodes[i as int].type_@) != Tag::Compound || is_array_record(nodes, i),
        dec(nodes, data, order, i, pos) is Ok,
    ensures
        dec(nodes, data, order, i, pos)->Ok_0.2 >= pos + first_read(tag_of(nodes[i as int].type_@)),
        dec(nodes, data, order, i, pos)->Ok_0.2 > pos,
{
    let t = tag_of(nodes[i as int].type_@);
    let body = dec_body(nodes, data, order, i, pos);
    if t == Tag::Str {
        let l = uint_at(data, pos as int, 4, order);
        lemma_align4((pos + 4 + l) as int);
    } else if t == Tag::Dict {
        let c = uint_at(data, pos as int, 4, order);
        lemma_entries_forward(nodes, data, order, i + 4, subtree_len(nodes, (i + 4) as int), c, pos + 4, seq![Event::MapStart(c as usize)]);
    } else if tag_width(t) == 0 && t != Tag::TypelessData {
        let c = uint_at(data, pos as int, 4, order);
        lemma_elems_forward(nodes, data, order, i + 3, c, pos + 4, seq![Event::SeqStart(c as usize)]);
    }
    lemma_align4(body->Ok_0.2 as int);
}

/// The bytes up to `q`.
pub open spec fn cut(data: Seq<u8>, q: nat) -> Seq<u8> {
    data.subrange(0, q as int)
}

proof fn lemma_cut_reads(data: Seq<u8>, q: nat, pos: nat, n: nat, order: ByteOrder)
    requires
        pos + n <= q <= data.len(),
    ensures
        uint_at(cut(data, q), pos as int, n as int, order) == uint_at(data, pos as int, n as int, order),
        cut(data, q).subrange(pos as int, (pos + n) as int) == data.subrange(pos as int, (pos + n) as int),
{
    assert(cut(data, q).subrange(pos as int, (pos + n) as int) =~= data.subrange(pos as int, (pos + n) as int));
}

/// A decode that ends at `p` reads no byte at or past `p`: cutting the bytes
/// anywhere from `p` on leaves the result as it was.
pub proof fn lemma_dec_reads_within(
    nodes: Seq<TypeTreeNode>,
    data: Seq<u8>,
    order: ByteOrder,
    i: nat,
    pos: nat,
    q: nat,
)
    requires
        pos <= data.len(),
        q <= data.len(),
    ensures
        (dec(nodes, data, order, i, pos) matches Ok((_e, _a, p)) && p <= q) ==> dec(nodes, cut(data, q), order, i, pos)
            == dec(nodes, data, order, i, pos),
    decreases rem(nodes.len(), i), 0nat, 2nat,
{
    if i < nodes.len() {
        lemma_body_forward(nodes, data, order, i, pos);
        lemma_body_reads_within(nodes, data, order, i, pos, q);
        let body = dec_body(nodes, data, order, i, pos);
        if body is Ok {
            lemma_align4(body->Ok_0.2 as int);
        }
    }
}

proof fn lemma_body_reads_within(
    nodes: Seq<TypeTreeNode>,
    data: Seq<u8>,
    order: ByteOrder,
    i: nat,
    pos: nat,
    q: nat,
)
    requires
        pos <= data.len(),
        q <= data.len(),
    ensures
        (dec_body(nodes, data, order, i, pos) matches Ok((_e, _a, p)) && p <= q) ==> dec_body(nodes, cut(data, q), order, i, pos)
            == dec_body(nodes, data, order, i, pos),
    decreases rem(nodes.len(), i), 0nat, 1nat,
{
    if i < nodes.len() {
        let d2 = cut(data, q);
        let t = tag_of(nodes[i as int].type_@);
        lemma_body_forward(nodes, data, order, i, pos);
        if let Ok((_e, _a, p)) = dec_body(nodes, data, order, i, pos) {
            if p <= q {
                if tag_width(t) > 0 {
                    lemma_cut_reads(data, q, pos, tag_width(t), order);
                } else if t == Tag::Str {
                    lemma_cut_reads(data, q, pos, 4, order);
                    let l = uint_at(data, pos as int, 4, order);
                    lemma_align4((pos + 4 + l) as int);
                    assert(d2.subrange((pos + 4) as int, (pos + 4 + l) as int) =~= data.subrange(
                        (pos + 4) as int,
                        (pos + 4 + l) as int,
                    ));
                } else if t == Tag::TypelessData {
                    lemma_cut_reads(data, q, pos, 4, order);
                } else if t == Tag::Dict {
                    let c = uint_at(data, pos as int, 4, order);
                    lemma_entries_forward(nodes, data, order, i + 4, subtree_len(nodes, (i + 4) as int), c, pos + 4, seq![Event::MapStart(c as usize)]);
                    lemma_cut_reads(data, q, pos, 4, order);
                    lemma_entries_reads_within(nodes, data, order, i + 4, subtree_len(nodes, (i + 4) as int), c, pos + 4, seq![Event::MapStart(c as usize)], q);
                } else if is_array_record(nodes, i) {
                    let c = uint_at(data, pos as int, 4, order);
                    lemma_elems_forward(nodes, data, order, i + 3, c, pos + 4, seq![Event::SeqStart(c as usize)]);
                    lemma_cut_reads(data, q, pos, 4, order);
                    lemma_elems_reads_within(nodes, data, order, i + 3, c, pos + 4, seq![Event::SeqStart(c as usize)], q);
                } else {
                    let span = subtree_len(nodes, i as int);
                    if span > 1 {
                        lemma_fields_reads_within(nodes, data, order, i + 1, (i + span - 1) as nat, pos, seq![Event::RecordStart], q);
                    }
                }
            }
        }
    }
}

proof fn lemma_elems_reads_within(
    nodes: Seq<TypeTreeNode>,
    data: Seq<u8>,
    order: ByteOrder,
    tmpl: nat,
    n: nat,
    pos: nat,
    acc: Seq<Event>,
    q: nat,
)
    requires
        pos <= data.len(),
        q <= data.len(),
    ensures
        (dec_elems(nodes, data, order, tmpl, n, pos, acc) matches Ok((_e, p)) && p <= q) ==> dec_elems(
            nodes,
            cut(data, q),
            order,
            tmpl,
            n,
            pos,
            acc,
        ) == dec_elems(nodes, data, order, tmpl, n, pos, acc),
    decreases rem(nodes.len(), tmpl), 1nat, n,
{
    if n > 0 {
        lemma_dec_forward(nodes, data, order, tmpl, pos);
        if let Ok((e, _a, p)) = dec(nodes, data, order, tmpl, pos) {
            lemma_elems_forward(nodes, data, order, tmpl, (n - 1) as nat, p, acc + e);
            lemma_dec_reads_within(nodes, data, order, tmpl, pos, q);
            lemma_elems_reads_within(nodes, data, order, tmpl, (n - 1) as nat, p, acc + e, q);
        }
    }
}

proof fn lemma_entries_reads_within(
    nodes: Seq<TypeTreeNode>,
    data: Seq<u8>,
    order: ByteOrder,
    first: nat,
    klen: nat,
    n: nat,
    pos: nat,
    acc: Seq<Event>,
    q: nat,
)
    requires
        pos <= data.len(),
        q <= data.len(),
    ensures
        (dec_entries(nodes, data, order, first, klen, n, pos, acc) matches Ok((_e, p)) && p <= q) ==> dec_entries(
            nodes,
            cut(data, q),
            order,
            first,
            klen,
            n,
            pos,
            acc,
        ) == dec_entries(nodes, data, order, first, klen, n, pos, acc),
    decreases rem(nodes.len(), first), 1nat, n,
{
    if n > 0 {
        lemma_dec_forward(nodes, data, order, first, pos);
        if let Ok((k, _ka, p_key)) = dec(nodes, data, order, first, pos) {
            lemma_dec_forward(nodes, data, order, first + klen, p_key);
            if let Ok((v, _va, p_val)) = dec(nodes, data, order, first + klen, p_key) {
                lemma_entries_forward(nodes, data, order, first, klen, (n - 1) as nat, p_val, acc + k + v);
                lemma_dec_reads_within(nodes, data, order, first, pos, q);
                lemma_dec_reads_within(nodes, data, order, first + klen, p_key, q);
                lemma_entries_reads_within(nodes, data, order, first, klen, (n - 1) as nat, p_val, acc + k + v, q);
            }
        }
    }
}

proof fn lemma_fields_reads_within(
    nodes: Seq<TypeTreeNode>,
    data: Seq<u8>,
    order: ByteOrder,
    j: nat,
    end: nat,
    pos: nat,
    acc: Seq<Event>,
    q: nat,
)
    requires
        pos <= data.len(),
        q <= data.len(),
    ensures
        (dec_fields(nodes, data, order, j, end, pos, acc) matches Ok((_e, _l, p)) && p <= q) ==> dec_fields(
            nodes,
            cut(data, q),
            order,
            j,
            end,
            pos,
            acc,
        ) == dec_fields(nodes, data, order, j, end, pos, acc),
    decreases rem(nodes.len(), j), 1nat, 0nat,
{
    if j < nodes.len() {
        lemma_dec_forward(nodes, data, order, j, pos);
        if let Ok((e, adv, p)) = dec(nodes, data, order, j, pos) {
            lemma_dec_reads_within(nodes, data, order, j, pos, q);
            let k = j + adv;
            if !(k >= nodes.len() || k >= end) {
                lemma_fields_forward(nodes, data, order, k + 1, end, p, acc.push(Event::Field(j as usize)) + e);
                lemma_fields_reads_within(nodes, data, order, k + 1, end, p, acc.push(Event::Field(j as usize)) + e, q);
            }
        }
    }
}

} // verus!
