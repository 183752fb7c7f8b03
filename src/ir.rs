//! The tree IR, the flat instruction record, and the tree's mathematical model.

use vstd::prelude::*;

verus! {

/// Opcodes of the flat instruction stream.
#[derive(Debug, Clone, Copy, PartialEq, Eq, Structural)]
pub enum InstType {
    ShiftInc,
    Output,
    Input,
    Seek,
    Skip,
    SetCell,
    Mulzero,
    Mul,
    Open,
    Close,
}

/// One packed flat instruction: a primitive with a leading shift (`arg`, for most
/// opcodes) and a fused trailing increment and shift (`inc`, `delta`).
#[derive(Debug, Clone, Copy, PartialEq, Eq, Structural)]
pub struct Inst {
    pub cmd: InstType,
    pub inc: u8,
    pub delta: i16,
    pub arg: i32,
}

/// A node of the tree IR.
#[derive(Debug)]
pub enum BaseInst {
    Inc(u8),
    Shift(i32),
    Output,
    Input,
    Reset,
    Mul(i32, u8),
    Seek(i32),
    Skip(i32, u8, i16),
    Block(Vec<BaseInst>, bool),
}

/// The mathematical model of a tree IR node: children are sequences.
pub enum Node {
    Inc(u8),
    Shift(i32),
    Output,
    Input,
    Reset,
    Mul(i32, u8),
    Seek(i32),
    Skip(i32, u8, i16),
    Block(Seq<Node>, bool),
}

impl BaseInst {
    pub open spec fn node(self) -> Node
        decreases self, 0nat,
    {
        match self {
            BaseInst::Inc(v) => Node::Inc(v),
            BaseInst::Shift(n) => Node::Shift(n),
            BaseInst::Output => Node::Output,
            BaseInst::Input => Node::Input,
            BaseInst::Reset => Node::Reset,
            BaseInst::Mul(o, w) => Node::Mul(o, w),
            BaseInst::Seek(n) => Node::Seek(n),
            BaseInst::Skip(p, v, d) => Node::Skip(p, v, d),
            BaseInst::Block(b, st) => Node::Block(nodes(b@), st),
        }
    }
}

/// The model of a sequence of tree IR nodes.
pub open spec fn nodes(s: Seq<BaseInst>) -> Seq<Node>
    decreases s, 1nat,
{
    if s.len() == 0 {
        Seq::empty()
    } else {
        nodes(s.drop_last()).push(s.last().node())
    }
}

/// The model of a sequence has one node per element.
pub proof fn lemma_nodes_index(s: Seq<BaseInst>)
    ensures
        nodes(s).len() == s.len(),
        forall|k: int| 0 <= k < s.len() ==> #[trigger] nodes(s)[k] == s[k].node(),
    decreases s.len(),
{
    if s.len() > 0 {
        lemma_nodes_index(s.drop_last());
    }
}

/// Appending an element appends its model.
pub proof fn lemma_nodes_push(s: Seq<BaseInst>, x: BaseInst)
    ensures
        nodes(s.push(x)) == nodes(s).push(x.node()),
{
    assert(s.push(x).drop_last() =~= s);
}

} // verus!
