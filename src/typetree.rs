use vstd::prelude::*;

verus! {

/// One field descriptor of a flattened, pre-order type tree.
#[derive(Clone, Debug)]
pub struct TypeTreeNode {
    pub version: u16,
    pub level: u8,
    pub type_: String,
    pub name: String,
    pub byte_size: i32,
    pub index: i32,
    pub meta_flag: i32,
}

/// Bit of `meta_flag` that asks for 4-byte alignment after the node's payload.
pub const ALIGN_FLAG: i32 = 0x4000;

pub open spec fn aligns(meta_flag: i32) -> bool {
    meta_flag & 0x4000 != 0
}

/// First index at or after `j` whose node is not deeper than `lvl`.
pub open spec fn run_end(nodes: Seq<TypeTreeNode>, lvl: u8, j: int) -> int
    decreases nodes.len() - j,
{
    if 0 <= j < nodes.len() && nodes[j].level > lvl {
        run_end(nodes, lvl, j + 1)
    } else {
        j
    }
}

/// Number of nodes in the subtree rooted at `i` (the node itself included);
/// zero when `i` is out of range.
pub open spec fn subtree_len(nodes: Seq<TypeTreeNode>, i: int) -> nat {
    if 0 <= i < nodes.len() {
        (run_end(nodes, nodes[i].level, i + 1) - i) as nat
    } else {
        0
    }
}

pub proof fn lemma_run_end_bounds(nodes: Seq<TypeTreeNode>, lvl: u8, j: int)
    requires
        0 <= j,
    ensures
        j <= run_end(nodes, lvl, j),
        j <= nodes.len() ==> run_end(nodes, lvl, j) <= nodes.len(),
        forall|k: int| j <= k < run_end(nodes, lvl, j) ==> nodes[k].level > lvl,
    decreases nodes.len() - j,
{
    if 0 <= j < nodes.len() && nodes[j].level > lvl {
        lemma_run_end_bounds(nodes, lvl, j + 1);
    }
}

/// A subtree lies inside the node list and holds at least its root.
pub proof fn lemma_subtree_len_bounds(nodes: Seq<TypeTreeNode>, i: int)
    requires
        0 <= i < nodes.len(),
    ensures
        1 <= subtree_len(nodes, i),
        i + subtree_len(nodes, i) <= nodes.len(),
{
    lemma_run_end_bounds(nodes, nodes[i].level, i + 1);
}

/// Length of the subtree rooted at `idx`, or zero when `idx` is out of range.
pub fn get_level_length(nodes: &[TypeTreeNode], idx: usize) -> (r: usize)
    ensures
        r == subtree_len(nodes@, idx as int),
{
    if idx >= nodes.len() {
        return 0;
    }
    let lvl = nodes[idx].level;
    let mut j: usize = idx + 1;
    proof {
        lemma_run_end_bounds(nodes@, lvl, j as int);
    }
    while j < nodes.len() && nodes[j].level > lvl
        invariant
            idx < j <= nodes@.len(),
            lvl == nodes@[idx as int].level,
            run_end(nodes@, lvl, j as int) == run_end(nodes@, lvl, idx + 1),
        decreases nodes@.len() - j,
    {
        j = j + 1;
    }
    j - idx
}

/// What a node's type tag asks the decoder to do.
#[derive(Clone, Copy, Debug, PartialEq, Eq, Structural)]
pub enum Tag {
    SInt8,
    UInt8,
    SInt16,
    UInt16,
    SInt32,
    UInt32,
    SInt64,
    UInt64,
    Float,
    Double,
    Bool,
    Str,
    TypelessData,
    Dict,
    Compound,
}

pub open spec fn tag_of(t: Seq<char>) -> Tag {
    if t == "SInt8"@ {
        Tag::SInt8
    } else if t == "UInt8"@ || t == "char"@ {
        Tag::UInt8
    } else if t == "short"@ || t == "SInt16"@ {
        Tag::SInt16
    } else if t == "UInt16"@ || t == "unsigned short"@ {
        Tag::UInt16
    } else if t == "int"@ || t == "SInt32"@ {
        Tag::SInt32
    } else if t == "UInt32"@ || t == "unsigned int"@ || t == "Type*"@ {
        Tag::UInt32
    } else if t == "long long"@ || t == "SInt64"@ {
        Tag::SInt64
    } else if t == "UInt64"@ || t == "unsigned long long"@ || t == "FileSize"@ {
        Tag::UInt64
    } else if t == "float"@ {
        Tag::Float
    } else if t == "double"@ {
        Tag::Double
    } else if t == "bool"@ {
        Tag::Bool
    } else if t == "string"@ {
        Tag::Str
    } else if t == "TypelessData"@ {
        Tag::TypelessData
    } else if t == "map"@ {
        Tag::Dict
    } else {
        Tag::Compound
    }
}

/// Byte width of a scalar tag; zero for the others.
pub open spec fn tag_width(t: Tag) -> nat {
    match t {
        Tag::SInt8 | Tag::UInt8 | Tag::Bool => 1,
        Tag::SInt16 | Tag::UInt16 => 2,
        Tag::SInt32 | Tag::UInt32 | Tag::Float => 4,
        Tag::SInt64 | Tag::UInt64 | Tag::Double => 8,
        _ => 0,
    }
}

pub fn text_is(s: &String, lit: &str) -> (r: bool)
    ensures
        r == (s@ == lit@),
{
    let t = lit.to_owned();
    *s == t
}

pub fn tag_of_type(t: &String) -> (r: Tag)
    ensures
        r == tag_of(t@),
{
    if text_is(t, "SInt8") {
        Tag::SInt8
    } else if text_is(t, "UInt8") || text_is(t, "char") {
        Tag::UInt8
    } else if text_is(t, "short") || text_is(t, "SInt16") {
        Tag::SInt16
    } else if text_is(t, "UInt16") || text_is(t, "unsigned short") {
        Tag::UInt16
    } else if text_is(t, "int") || text_is(t, "SInt32") {
        Tag::SInt32
    } else if text_is(t, "UInt32") || text_is(t, "unsigned int") || text_is(t, "Type*") {
        Tag::UInt32
    } else if text_is(t, "long long") || text_is(t, "SInt64") {
        Tag::SInt64
    } else if text_is(t, "UInt64") || text_is(t, "unsigned long long") || text_is(t, "FileSize") {
        Tag::UInt64
    } else if text_is(t, "float") {
        Tag::Float
    } else if text_is(t, "double") {
        Tag::Double
    } else if text_is(t, "bool") {
        Tag::Bool
    } else if text_is(t, "string") {
        Tag::Str
    } else if text_is(t, "TypelessData") {
        Tag::TypelessData
    } else if text_is(t, "map") {
        Tag::Dict
    } else {
        Tag::Compound
    }
}

/// A subtree that starts inside another one ends inside it too.
pub proof fn lemma_subtree_nested(nodes: Seq<TypeTreeNode>, i: int, j: int)
    requires
        0 <= i < j < i + subtree_len(nodes, i),
    ensures
        j + subtree_len(nodes, j) <= i + subtree_len(nodes, i),
{
    lemma_subtree_len_bounds(nodes, i);
    let stop = i + subtree_len(nodes, i);
    lemma_run_end_bounds(nodes, nodes[i].level, i + 1);
    assert(nodes[j].level > nodes[i].level);
    lemma_run_end_stops(nodes, nodes[i].level, i + 1);
    assert(stop < nodes.len() ==> nodes[stop].level < nodes[j].level);
    lemma_run_end_before(nodes, nodes[j].level, j + 1, stop);
    lemma_run_end_bounds(nodes, nodes[j].level, j + 1);
}

proof fn lemma_run_end_stops(nodes: Seq<TypeTreeNode>, lvl: u8, j: int)
    requires
        0 <= j <= nodes.len(),
    ensures
        run_end(nodes, lvl, j) < nodes.len() ==> nodes[run_end(nodes, lvl, j)].level <= lvl,
    decreases nodes.len() - j,
{
    if 0 <= j < nodes.len() && nodes[j].level > lvl {
        lemma_run_end_stops(nodes, lvl, j + 1);
    }
}

/// A run of nodes deeper than `lvl` from `m` stops at `stop` at the latest,
/// when the node at `stop` is not deeper.
proof fn lemma_run_end_before(nodes: Seq<TypeTreeNode>, lvl: u8, m: int, stop: int)
    requires
        0 <= m <= stop <= nodes.len(),
        stop < nodes.len() ==> nodes[stop].level < lvl,
    ensures
        run_end(nodes, lvl, m) <= stop,
    decreases stop - m,
{
    if m < stop && nodes[m].level > lvl {
        lemma_run_end_before(nodes, lvl, m + 1, stop);
    }
}

} // verus!
