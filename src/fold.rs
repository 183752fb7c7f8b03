//! Run compression and the folding of simple and skip loops.

use vstd::prelude::*;
use crate::parse::shift_sum;
use crate::ir::{BaseInst, Node, nodes, lemma_nodes_index, lemma_nodes_push};

verus! {

/// A copy of a node that is not a block.
pub(crate) fn copy_leaf(x: &BaseInst) -> (r: BaseInst)
    requires
        !(x is Block),
    ensures
        r.node() == x.node(),
{
    match x {
        BaseInst::Inc(v) => BaseInst::Inc(*v),
        BaseInst::Shift(n) => BaseInst::Shift(*n),
        BaseInst::Output => BaseInst::Output,
        BaseInst::Input => BaseInst::Input,
        BaseInst::Reset => BaseInst::Reset,
        BaseInst::Mul(o, w) => BaseInst::Mul(*o, *w),
        BaseInst::Seek(n) => BaseInst::Seek(*n),
        BaseInst::Skip(p, v, d) => BaseInst::Skip(*p, *v, *d),
        BaseInst::Block(..) => BaseInst::Reset,
    }
}

pub(crate) proof fn lemma_take_last(t: Seq<Node>, k: int)
    requires
        0 <= k < t.len(),
    ensures
        t.take(k + 1).drop_last() == t.take(k),
        t.take(k + 1).last() == t[k],
{
    assert(t.take(k + 1).drop_last() =~= t.take(k));
}

// ---------------------------------------------------------------- compress

pub open spec fn fits32(x: int) -> bool {
    i32::MIN <= x <= i32::MAX
}

/// Two neighbours that compression merges: two `Inc`, or two `Shift` whose sum
/// fits 32 bits.
pub open spec fn fusable(a: Node, b: Node) -> bool {
    (a is Inc && b is Inc) || (a is Shift && b is Shift && fits32(a->Shift_0 + b->Shift_0))
}

/// No `Inc(0)` or `Shift(0)`, no two neighbours that fuse, at any depth.
pub open spec fn compressed(t: Seq<Node>) -> bool
    decreases t,
{
    t.len() == 0 || {
        &&& compressed(t.drop_last())
        &&& match t.last() {
            Node::Inc(v) => v != 0,
            Node::Shift(n) => n != 0,
            Node::Block(b, _) => compressed(b),
            _ => true,
        }
        &&& (t.len() >= 2 ==> !fusable(t[t.len() - 2], t.last()))
    }
}

/// Appends a node that is not a block to compressed output. An `Inc` is fused
/// into a last `Inc` (wrapping 8-bit sum); a `Shift` into a last `Shift` when the
/// sum fits 32 bits, and the sum is then appended in turn, as it may fuse with
/// the node before. A node with no effect, fused or not, is dropped.
pub open spec fn push_leaf(out: Seq<Node>, x: Node) -> Seq<Node>
    decreases out.len(),
{
    match x {
        Node::Inc(v) => if out.len() > 0 && out.last() is Inc {
            let s = out.last()->Inc_0.wrapping_add(v);
            if s == 0 { out.drop_last() } else { out.drop_last().push(Node::Inc(s)) }
        } else if v == 0 {
            out
        } else {
            out.push(x)
        },
        Node::Shift(n) => if out.len() > 0 && fusable(out.last(), x) {
            let s = out.last()->Shift_0 + n;
            if s == 0 { out.drop_last() } else { push_leaf(out.drop_last(), Node::Shift(s as i32)) }
        } else if n == 0 {
            out
        } else {
            out.push(x)
        },
        _ => out.push(x),
    }
}

/// Compression of `t`: nodes are appended in order with `push_leaf`; a block's
/// body is compressed and the block kept with its flag.
pub open spec fn compress_seq(t: Seq<Node>) -> Seq<Node>
    decreases t,
{
    if t.len() == 0 {
        Seq::empty()
    } else {
        let out = compress_seq(t.drop_last());
        match t.last() {
            Node::Block(b, st) => out.push(Node::Block(compress_seq(b), st)),
            x => push_leaf(out, x),
        }
    }
}

proof fn lemma_compressed_drop_last(t: Seq<Node>)
    requires
        compressed(t),
        t.len() > 0,
    ensures
        compressed(t.drop_last()),
{
}

/// Appending with `push_leaf` keeps output compressed.
proof fn lemma_push_leaf_compressed(out: Seq<Node>, x: Node)
    requires
        compressed(out),
        !(x is Block),
    ensures
        compressed(push_leaf(out, x)),
    decreases out.len(),
{
    let r = push_leaf(out, x);
    if out.len() > 0 {
        lemma_compressed_drop_last(out);
        let p = out.drop_last();
        assert(p.push(out.last()).drop_last() =~= p);
    }
    match x {
        Node::Inc(_) => {
            if out.len() > 0 && out.last() is Inc {
                let p = out.drop_last();
                if r.len() > 0 && r != p {
                    assert(r.drop_last() =~= p);
                    if p.len() > 0 {
                        assert(r[r.len() - 2] == out[out.len() - 2]);
                    }
                }
            } else if r != out {
                assert(r.drop_last() =~= out);
            }
        },
        Node::Shift(n) => {
            if out.len() > 0 && fusable(out.last(), x) {
                let p = out.drop_last();
                let s = out.last()->Shift_0 + n;
                if s != 0 {
                    lemma_push_leaf_compressed(p, Node::Shift(s as i32));
                }
            } else if r != out {
                assert(r.drop_last() =~= out);
            }
        },
        _ => {
            assert(r.drop_last() =~= out);
        },
    }
}

/// The shift amount of a node, 0 for all but `Shift`.
pub open spec fn shift_of(x: Node) -> int {
    match x {
        Node::Shift(n) => n as int,
        _ => 0,
    }
}

proof fn lemma_shift_sum_push(t: Seq<Node>, x: Node)
    ensures
        shift_sum(t.push(x)) == shift_sum(t) + shift_of(x),
{
    assert(t.push(x).drop_last() =~= t);
}

/// Appending with `push_leaf` adds the node's shift to the integer shift sum.
proof fn lemma_push_leaf_shift_sum(out: Seq<Node>, x: Node)
    requires
        !(x is Block),
    ensures
        shift_sum(push_leaf(out, x)) == shift_sum(out) + shift_of(x),
    decreases out.len(),
{
    if out.len() > 0 {
        let p = out.drop_last();
        assert(p.push(out.last()) =~= out);
        lemma_shift_sum_push(p, out.last());
    }
    match x {
        Node::Inc(v) => {
            if out.len() > 0 && out.last() is Inc {
                let s = out.last()->Inc_0.wrapping_add(v);
                lemma_shift_sum_push(out.drop_last(), Node::Inc(s));
            } else {
                lemma_shift_sum_push(out, x);
            }
        },
        Node::Shift(n) => {
            if out.len() > 0 && fusable(out.last(), x) {
                let s = out.last()->Shift_0 + n;
                if s != 0 {
                    lemma_push_leaf_shift_sum(out.drop_last(), Node::Shift(s as i32));
                }
            } else {
                lemma_shift_sum_push(out, x);
            }
        },
        _ => {
            lemma_shift_sum_push(out, x);
        },
    }
}

/// Compression keeps the integer sum of a sequence's shifts; since each block
/// becomes the block of its compressed body with the same flag, every block
/// keeps its displacement and its flag stays correct.
pub proof fn lemma_compress_shift_sum(t: Seq<Node>)
    ensures
        shift_sum(compress_seq(t)) == shift_sum(t),
    decreases t,
{
    if t.len() > 0 {
        lemma_compress_shift_sum(t.drop_last());
        let out = compress_seq(t.drop_last());
        assert(t.drop_last().push(t.last()) =~= t);
        lemma_shift_sum_push(t.drop_last(), t.last());
        match t.last() {
            Node::Block(b, st) => {
                lemma_shift_sum_push(out, Node::Block(compress_seq(b), st));
            },
            x => lemma_push_leaf_shift_sum(out, x),
        }
    }
}

/// Compression output is compressed.
pub proof fn lemma_compress_compressed(t: Seq<Node>)
    ensures
        compressed(compress_seq(t)),
    decreases t,
{
    if t.len() > 0 {
        lemma_compress_compressed(t.drop_last());
        let out = compress_seq(t.drop_last());
        match t.last() {
            Node::Block(b, st) => {
                lemma_compress_compressed(b);
                assert(out.push(Node::Block(compress_seq(b), st)).drop_last() =~= out);
            },
            x => lemma_push_leaf_compressed(out, x),
        }
    }
}

/// Compression leaves a compressed tree as it is.
pub proof fn lemma_compress_fixes_compressed(t: Seq<Node>)
    requires
        compressed(t),
    ensures
        compress_seq(t) == t,
    decreases t,
{
    if t.len() > 0 {
        let p = t.drop_last();
        lemma_compress_fixes_compressed(p);
        assert(p.push(t.last()) =~= t);
        match t.last() {
            Node::Block(b, st) => {
                lemma_compress_fixes_compressed(b);
            },
            _ => {
                if p.len() > 0 {
                    assert(p.last() == t[t.len() - 2]);
                }
            },
        }
    }
}

/// The last node of `out` when it is a `Shift`.
fn last_shift(out: &Vec<BaseInst>) -> (r: Option<i32>)
    ensures
        r is Some <==> (out@.len() > 0 && out@.last() is Shift),
        r is Some ==> r->0 == out@.last()->Shift_0,
{
    let n = out.len();
    if n == 0 {
        return None;
    }
    match &out[n - 1] {
        BaseInst::Shift(m) => Some(*m),
        _ => None,
    }
}

fn push_leaf_exec(out: &mut Vec<BaseInst>, x: &BaseInst)
    requires
        !(x is Block),
    ensures
        nodes(final(out)@) == push_leaf(nodes(old(out)@), x.node()),
{
    proof {
        lemma_nodes_index(out@);
    }
    let ghost before = out@;
    match x {
        BaseInst::Inc(v) => {
            let n = out.len();
            let last_inc = if n == 0 {
                false
            } else {
                match &out[n - 1] {
                    BaseInst::Inc(_) => true,
                    _ => false,
                }
            };
            if last_inc {
                if let Some(BaseInst::Inc(w)) = out.pop() {
                    proof {
                        assert(before == out@.push(BaseInst::Inc(w)));
                        lemma_nodes_push(out@, BaseInst::Inc(w));
                        assert(nodes(before).drop_last() =~= nodes(out@));
                    }
                    let s = w.wrapping_add(*v);
                    if s != 0 {
                        proof {
                            lemma_nodes_push(out@, BaseInst::Inc(s));
                        }
                        out.push(BaseInst::Inc(s));
                    }
                }
            } else if *v != 0 {
                proof {
                    lemma_nodes_push(out@, BaseInst::Inc(*v));
                }
                out.push(BaseInst::Inc(*v));
            }
        },
        BaseInst::Shift(m0) => {
            let ghost target = push_leaf(nodes(before), x.node());
            let mut n: i32 = *m0;
            loop
                invariant
                    push_leaf(nodes(out@), Node::Shift(n)) == target,
                    target == push_leaf(nodes(old(out)@), x.node()),
                decreases out@.len(),
            {
                proof {
                    lemma_nodes_index(out@);
                }
                let ghost cur = out@;
                proof {
                    if cur.len() > 0 {
                        assert(nodes(cur).last() == cur.last().node());
                    }
                }
                let fused: Option<i32> = match last_shift(out) {
                    Some(m) => {
                        let sum: i64 = m as i64 + n as i64;
                        if i32::MIN as i64 <= sum && sum <= i32::MAX as i64 {
                            Some(sum as i32)
                        } else {
                            None
                        }
                    },
                    None => None,
                };
                match fused {
                    Some(s) => {
                        let _ = out.pop();
                        proof {
                            assert(cur == out@.push(cur.last()));
                            lemma_nodes_push(out@, cur.last());
                            assert(nodes(cur).drop_last() =~= nodes(out@));
                        }
                        if s == 0 {
                            return;
                        }
                        n = s;
                    },
                    None => {
                        if n != 0 {
                            proof {
                                lemma_nodes_push(out@, BaseInst::Shift(n));
                            }
                            out.push(BaseInst::Shift(n));
                        }
                        return;
                    },
                }
            }
        },
        other => {
            let y = copy_leaf(other);
            proof {
                lemma_nodes_push(out@, y);
            }
            out.push(y);
        },
    }
}

fn compress_block(b: &Vec<BaseInst>) -> (r: Vec<BaseInst>)
    ensures
        nodes(r@) == compress_seq(nodes(b@)),
    decreases b@,
{
    let ghost t = nodes(b@);
    proof {
        lemma_nodes_index(b@);
    }
    let mut out: Vec<BaseInst> = Vec::new();
    let mut k: usize = 0;
    while k < b.len()
        invariant
            t == nodes(b@),
            t.len() == b@.len(),
            forall|j: int| 0 <= j < b@.len() ==> #[trigger] t[j] == b@[j].node(),
            k <= b.len(),
            nodes(out@) == compress_seq(t.take(k as int)),
        decreases b@.len() - k,
    {
        proof {
            lemma_take_last(t, k as int);
        }
        match &b[k] {
            BaseInst::Block(inner, st) => {
                let x = BaseInst::Block(compress_block(inner), *st);
                proof {
                    assert(t[k as int] == Node::Block(nodes(inner@), *st));
                    lemma_nodes_push(out@, x);
                }
                out.push(x);
            },
            other => {
                push_leaf_exec(&mut out, other);
            },
        }
        k = k + 1;
    }
    proof {
        assert(t.take(k as int) =~= t);
    }
    out
}

/// Fuses runs of `Inc` (wrapping 8-bit sum) and of `Shift` (integer sum, as far
/// as it fits 32 bits) into single nodes and drops a fused node with no effect,
/// at every depth; the neighbours of a dropped node fuse in turn, so the result
/// is compressed. Shift sums, of the whole and of every block, are kept.
pub fn compress(prog: Vec<BaseInst>) -> (r: Vec<BaseInst>)
    ensures
        nodes(r@) == compress_seq(nodes(prog@)),
        compressed(nodes(r@)),
        shift_sum(nodes(r@)) == shift_sum(nodes(prog@)),
{
    proof {
        lemma_compress_compressed(nodes(prog@));
        lemma_compress_shift_sum(nodes(prog@));
    }
    compress_block(&prog)
}

// ------------------------------------------------------------ simple loops

/// An 8-bit increment is coprime to 256, and so reaches zero from any value,
/// iff it is odd.
pub open spec fn coprime_256(x: u8) -> bool {
    x % 2 == 1
}

/// A block whose folded body is one `Inc` coprime to 256 becomes `Reset`; one
/// whose folded body is one `Shift(n)` becomes `Seek(n)`.
pub open spec fn fold_simple_node(n: Node) -> Node
    decreases n, 0nat,
{
    match n {
        Node::Block(b, st) => {
            let ib = fold_simple_seq(b);
            if ib.len() == 1 && ib[0] is Inc && coprime_256(ib[0]->Inc_0) {
                Node::Reset
            } else if ib.len() == 1 && ib[0] is Shift {
                Node::Seek(ib[0]->Shift_0)
            } else {
                Node::Block(ib, st)
            }
        },
        other => other,
    }
}

pub open spec fn fold_simple_seq(t: Seq<Node>) -> Seq<Node>
    decreases t, 1nat,
{
    if t.len() == 0 {
        Seq::empty()
    } else {
        fold_simple_seq(t.drop_last()).push(fold_simple_node(t.last()))
    }
}

proof fn lemma_fold_simple_len(t: Seq<Node>)
    ensures
        fold_simple_seq(t).len() == t.len(),
    decreases t.len(),
{
    if t.len() > 0 {
        lemma_fold_simple_len(t.drop_last());
    }
}

fn fold_simple_block(b: &Vec<BaseInst>) -> (r: Vec<BaseInst>)
    ensures
        nodes(r@) == fold_simple_seq(nodes(b@)),
    decreases b@,
{
    let ghost t = nodes(b@);
    proof {
        lemma_nodes_index(b@);
    }
    let mut out: Vec<BaseInst> = Vec::new();
    let mut k: usize = 0;
    while k < b.len()
        invariant
            t == nodes(b@),
            t.len() == b@.len(),
            forall|j: int| 0 <= j < b@.len() ==> #[trigger] t[j] == b@[j].node(),
            k <= b.len(),
            nodes(out@) == fold_simple_seq(t.take(k as int)),
        decreases b@.len() - k,
    {
        let x = match &b[k] {
            BaseInst::Block(inner, st) => {
                let ib = fold_simple_block(inner);
                proof {
                    assert(t[k as int] == Node::Block(nodes(inner@), *st));
                    lemma_nodes_index(ib@);
                    lemma_fold_simple_len(nodes(inner@));
                }
                let mut kind: u8 = 0;
                let mut amount: i32 = 0;
                if ib.len() == 1 {
                    match &ib[0] {
                        BaseInst::Inc(x) => {
                            if *x % 2 == 1 {
                                kind = 1;
                            }
                        },
                        BaseInst::Shift(n) => {
                            kind = 2;
                            amount = *n;
                        },
                        _ => {},
                    }
                }
                if kind == 1 {
                    BaseInst::Reset
                } else if kind == 2 {
                    BaseInst::Seek(amount)
                } else {
                    BaseInst::Block(ib, *st)
                }
            },
            other => copy_leaf(other),
        };
        proof {
            assert(x.node() == fold_simple_node(t[k as int]));
            lemma_nodes_push(out@, x);
            lemma_take_last(t, k as int);
        }
        out.push(x);
        k = k + 1;
    }
    proof {
        assert(t.take(k as int) =~= t);
    }
    out
}

/// Rewrites each block whose folded body is a single odd `Inc` to `Reset` and
/// each whose folded body is a single `Shift(n)` to `Seek(n)`, at every depth.
pub fn fold_simple_loops(prog: Vec<BaseInst>) -> (r: Vec<BaseInst>)
    ensures
        nodes(r@) == fold_simple_seq(nodes(prog@)),
{
    fold_simple_block(&prog)
}

// -------------------------------------------------------------- skip loops

/// The walk of a body made of `Shift` nodes and at most one `Inc`: whether it has
/// that shape, its total displacement, the increment (0 if none) and the offset
/// at which it applies (0 if none).
pub struct SkipWalk {
    pub ok: bool,
    pub total: int,
    pub seen: bool,
    pub inc: u8,
    pub at: int,
}

pub open spec fn skip_walk(t: Seq<Node>) -> SkipWalk
    decreases t.len(),
{
    if t.len() == 0 {
        SkipWalk { ok: true, total: 0, seen: false, inc: 0, at: 0 }
    } else {
        let w = skip_walk(t.drop_last());
        match t.last() {
            Node::Shift(n) => SkipWalk { total: w.total + n, ..w },
            Node::Inc(v) => if w.seen {
                SkipWalk { ok: false, ..w }
            } else {
                SkipWalk { seen: true, inc: v, at: w.total, ..w }
            },
            _ => SkipWalk { ok: false, ..w },
        }
    }
}

/// The body folds to `Skip`: it has the shape, and the displacement fits 32 bits
/// and the increment's offset 16 bits.
pub open spec fn skip_foldable(t: Seq<Node>) -> bool {
    let w = skip_walk(t);
    w.ok && i32::MIN <= w.total <= i32::MAX && i16::MIN <= w.at <= i16::MAX
}

pub open spec fn fold_skip_node(n: Node) -> Node
    decreases n, 0nat,
{
    match n {
        Node::Block(b, st) => {
            let ib = fold_skip_seq(b);
            let w = skip_walk(ib);
            if skip_foldable(ib) {
                Node::Skip(w.total as i32, w.inc, w.at as i16)
            } else {
                Node::Block(ib, st)
            }
        },
        other => other,
    }
}

pub open spec fn fold_skip_seq(t: Seq<Node>) -> Seq<Node>
    decreases t, 1nat,
{
    if t.len() == 0 {
        Seq::empty()
    } else {
        fold_skip_seq(t.drop_last()).push(fold_skip_node(t.last()))
    }
}

/// Walks a folded body as `skip_walk` does.
fn walk_skip(b: &Vec<BaseInst>) -> (r: (bool, i128, bool, u8, i128))
    ensures
        r.0 == skip_walk(nodes(b@)).ok,
        r.0 ==> r.1 == skip_walk(nodes(b@)).total && r.2 == skip_walk(nodes(b@)).seen
            && r.3 == skip_walk(nodes(b@)).inc && r.4 == skip_walk(nodes(b@)).at,
{
    let ghost t = nodes(b@);
    proof {
        lemma_nodes_index(b@);
    }
    let mut total: i128 = 0;
    let mut seen = false;
    let mut inc: u8 = 0;
    let mut at: i128 = 0;
    let mut k: usize = 0;
    while k < b.len()
        invariant
            t == nodes(b@),
            t.len() == b@.len(),
            forall|j: int| 0 <= j < b@.len() ==> #[trigger] t[j] == b@[j].node(),
            k <= b.len(),
            skip_walk(t.take(k as int)).ok,
            total == skip_walk(t.take(k as int)).total,
            seen == skip_walk(t.take(k as int)).seen,
            inc == skip_walk(t.take(k as int)).inc,
            at == skip_walk(t.take(k as int)).at,
            -(k as int) * 0x8000_0000 <= total <= (k as int) * 0x8000_0000,
            -(k as int) * 0x8000_0000 <= at <= (k as int) * 0x8000_0000,
        decreases b@.len() - k,
    {
        proof {
            lemma_take_last(t, k as int);
        }
        match &b[k] {
            BaseInst::Shift(n) => {
                total = total + *n as i128;
            },
            BaseInst::Inc(v) => {
                if seen {
                    proof {
                        lemma_skip_walk_prefix_fail(t, k as int + 1);
                    }
                    return (false, 0, false, 0, 0);
                }
                seen = true;
                inc = *v;
                at = total;
            },
            _ => {
                proof {
                    lemma_skip_walk_prefix_fail(t, k as int + 1);
                }
                return (false, 0, false, 0, 0);
            },
        }
        k = k + 1;
    }
    proof {
        assert(t.take(k as int) =~= t);
    }
    (true, total, seen, inc, at)
}

proof fn lemma_skip_walk_prefix_fail(t: Seq<Node>, k: int)
    requires
        0 <= k <= t.len(),
        !skip_walk(t.take(k)).ok,
    ensures
        !skip_walk(t).ok,
    decreases t.len() - k,
{
    if k < t.len() {
        lemma_take_last(t, k);
        lemma_skip_walk_prefix_fail(t, k + 1);
    } else {
        assert(t.take(k) =~= t);
    }
}

fn fold_skip_block(b: &Vec<BaseInst>) -> (r: Vec<BaseInst>)
    ensures
        nodes(r@) == fold_skip_seq(nodes(b@)),
    decreases b@,
{
    let ghost t = nodes(b@);
    proof {
        lemma_nodes_index(b@);
    }
    let mut out: Vec<BaseInst> = Vec::new();
    let mut k: usize = 0;
    while k < b.len()
        invariant
            t == nodes(b@),
            t.len() == b@.len(),
            forall|j: int| 0 <= j < b@.len() ==> #[trigger] t[j] == b@[j].node(),
            k <= b.len(),
            nodes(out@) == fold_skip_seq(t.take(k as int)),
        decreases b@.len() - k,
    {
        let x = match &b[k] {
            BaseInst::Block(inner, st) => {
                let ib = fold_skip_block(inner);
                proof {
                    assert(t[k as int] == Node::Block(nodes(inner@), *st));
                }
                let (ok, total, _seen, inc, at) = walk_skip(&ib);
                if ok && i32::MIN as i128 <= total && total <= i32::MAX as i128
                    && i16::MIN as i128 <= at && at <= i16::MAX as i128 {
                    BaseInst::Skip(total as i32, inc, at as i16)
                } else {
                    BaseInst::Block(ib, *st)
                }
            },
            other => copy_leaf(other),
        };
        proof {
            assert(x.node() == fold_skip_node(t[k as int]));
            lemma_nodes_push(out@, x);
            lemma_take_last(t, k as int);
        }
        out.push(x);
        k = k + 1;
    }
    proof {
        assert(t.take(k as int) =~= t);
    }
    out
}

/// Rewrites each block whose folded body is `Shift` nodes and at most one `Inc`
/// to `Skip(displacement, increment, offset of the increment)`, at every depth.
pub fn fold_skip_loops(prog: Vec<BaseInst>) -> (r: Vec<BaseInst>)
    ensures
        nodes(r@) == fold_skip_seq(nodes(prog@)),
{
    fold_skip_block(&prog)
}

} // verus!
