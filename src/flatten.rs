//! Lowering of the tree IR to flat instructions with fused prelude and
//! postlude and linked jumps.

use vstd::prelude::*;
use crate::ir::{BaseInst, Inst, InstType, Node, nodes, lemma_nodes_index, lemma_nodes_push};

verus! {

pub open spec fn fits16(n: i32) -> bool {
    i16::MIN <= n <= i16::MAX
}

/// The increment fused at `k`: the amount of an `Inc` there, else 0.
pub open spec fn inc_at(t: Seq<Node>, k: int) -> u8 {
    if 0 <= k < t.len() && t[k] is Inc { t[k]->Inc_0 } else { 0 }
}

/// Where the walk goes on after trying to fuse an `Inc` at `k`.
pub open spec fn past_inc(t: Seq<Node>, k: int) -> int {
    if 0 <= k < t.len() && t[k] is Inc { k + 1 } else { k }
}

/// The shift fused at `k`: the amount of a `Shift` there that fits 16 bits, else 0.
pub open spec fn shift_at(t: Seq<Node>, k: int) -> i16 {
    if 0 <= k < t.len() && t[k] is Shift && fits16(t[k]->Shift_0) { t[k]->Shift_0 as i16 } else { 0 }
}

pub open spec fn past_shift(t: Seq<Node>, k: int) -> int {
    if 0 <= k < t.len() && t[k] is Shift && fits16(t[k]->Shift_0) { k + 1 } else { k }
}

pub open spec fn mk(cmd: InstType, arg: i32, inc: u8, delta: i16) -> Inst {
    Inst { cmd, inc, delta, arg }
}

/// A primitive with a leading shift `arg`, fusing an `Inc` and then a `Shift` from `k`.
pub open spec fn fuse_after(cmd: InstType, arg: i32, t: Seq<Node>, k: int) -> (Inst, int) {
    (mk(cmd, arg, inc_at(t, k), shift_at(t, past_inc(t, k))), past_shift(t, past_inc(t, k)))
}

pub open spec fn is_io_or_reset(n: Node) -> bool {
    n is Reset || n is Output || n is Input
}

pub open spec fn io_cmd(n: Node) -> InstType {
    match n {
        Node::Reset => InstType::SetCell,
        Node::Output => InstType::Output,
        _ => InstType::Input,
    }
}

/// The instruction emitted for the non-block node at `k`, and the position after
/// the nodes it fused.
pub open spec fn emit(t: Seq<Node>, k: int) -> (Inst, int) {
    match t[k] {
        Node::Inc(v) => (mk(InstType::ShiftInc, 0, v, shift_at(t, k + 1)), past_shift(t, k + 1)),
        Node::Shift(n) => if k + 1 < t.len() && is_io_or_reset(t[k + 1]) {
            fuse_after(io_cmd(t[k + 1]), n, t, k + 2)
        } else {
            fuse_after(InstType::ShiftInc, n, t, k + 1)
        },
        Node::Output => fuse_after(InstType::Output, 0, t, k + 1),
        Node::Input => fuse_after(InstType::Input, 0, t, k + 1),
        Node::Reset => fuse_after(InstType::SetCell, 0, t, k + 1),
        Node::Mul(off, w) => if k + 1 < t.len() && t[k + 1] is Reset {
            (mk(InstType::Mulzero, off, w, shift_at(t, k + 2)), past_shift(t, k + 2))
        } else {
            (mk(InstType::Mul, off, w, 0), k + 1)
        },
        Node::Seek(n) => {
            let k1 = past_shift(t, k + 1);
            (mk(InstType::Seek, n, inc_at(t, k1), shift_at(t, k + 1)), past_inc(t, k1))
        },
        Node::Skip(p, v, d) => (mk(InstType::Skip, p, v, d), k + 1),
        _ => (mk(InstType::ShiftInc, 0, 0, 0), k + 1),
    }
}

/// The flat code of `t` from position `k`, laid out from absolute index `base`.
/// A block becomes `Open`, its body (less a leading `Inc` and `Shift`, fused into
/// both `Open` and `Close`), and `Close`; each of the two holds the other's index.
pub open spec fn flat_from(t: Seq<Node>, k: int, base: int) -> Seq<Inst>
    decreases t, t.len() - k,
{
    if k < 0 || k >= t.len() {
        Seq::empty()
    } else {
        match t[k] {
            Node::Block(b, _) => {
                let inc = inc_at(b, 0);
                let d = shift_at(b, past_inc(b, 0));
                let body = flat_from(b, past_shift(b, past_inc(b, 0)), base + 1);
                let close = base + 1 + body.len();
                seq![mk(InstType::Open, close as i32, inc, d)] + body + seq![
                    mk(InstType::Close, base as i32, inc, d),
                ] + flat_from(t, k + 1, close + 1)
            },
            _ => seq![emit(t, k).0] + flat_from(t, emit(t, k).1, base + 1),
        }
    }
}

/// An upper bound on the flat length: every node counts one, and every block
/// one more.
pub open spec fn size_from(t: Seq<Node>, k: int) -> int
    decreases t, t.len() - k,
{
    if k < 0 || k >= t.len() {
        0
    } else {
        match t[k] {
            Node::Block(b, _) => 2 + size_from(b, 0) + size_from(t, k + 1),
            _ => 1 + size_from(t, k + 1),
        }
    }
}

/// The instruction at `j` holds the absolute index of an instruction of kind
/// `want` that holds `j`'s absolute index, with `s` laid out from `base`.
#[verifier::opaque]
pub open spec fn pairs_with(s: Seq<Inst>, j: int, base: int, want: InstType) -> bool {
    let a = s[j].arg - base;
    0 <= a < s.len() && s[a].cmd == want && s[a].arg == j + base
}

/// In `s`, laid out from index `base`, each `Open` is paired with a `Close` and
/// each `Close` with an `Open`.
pub open spec fn linked_at(s: Seq<Inst>, base: int) -> bool {
    forall|j: int|
        0 <= j < s.len() ==> {
            &&& (#[trigger] s[j]).cmd == InstType::Open ==> pairs_with(s, j, base, InstType::Close)
            &&& s[j].cmd == InstType::Close ==> pairs_with(s, j, base, InstType::Open)
        }
}

/// Every `Open` and `Close` of a program is paired with its partner.
pub open spec fn linked(s: Seq<Inst>) -> bool {
    linked_at(s, 0)
}

proof fn lemma_pairs_left(a: Seq<Inst>, b: Seq<Inst>, j: int, base: int, want: InstType)
    requires
        0 <= j < a.len(),
        pairs_with(a, j, base, want),
    ensures
        pairs_with(a + b, j, base, want),
{
    reveal(pairs_with);
    let y = a[j].arg - base;
    assert((a + b)[y] == a[y]);
}

proof fn lemma_pairs_right(a: Seq<Inst>, b: Seq<Inst>, j: int, base: int, want: InstType)
    requires
        0 <= j < b.len(),
        pairs_with(b, j, base + a.len(), want),
    ensures
        pairs_with(a + b, j + a.len(), base, want),
{
    reveal(pairs_with);
    let y = b[j].arg - (base + a.len());
    assert((a + b)[y + a.len()] == b[y]);
    assert((a + b)[j + a.len()] == b[j]);
}

proof fn lemma_linked_concat(a: Seq<Inst>, b: Seq<Inst>, base: int)
    requires
        linked_at(a, base),
        linked_at(b, base + a.len()),
    ensures
        linked_at(a + b, base),
{
    let s = a + b;
    assert forall|j: int| 0 <= j < s.len() implies {
        &&& (#[trigger] s[j]).cmd == InstType::Open ==> pairs_with(s, j, base, InstType::Close)
        &&& s[j].cmd == InstType::Close ==> pairs_with(s, j, base, InstType::Open)
    } by {
        if j >= a.len() {
            let jj = j - a.len();
            assert(b[jj] == s[j]);
            if s[j].cmd == InstType::Open {
                lemma_pairs_right(a, b, jj, base, InstType::Close);
            }
            if s[j].cmd == InstType::Close {
                lemma_pairs_right(a, b, jj, base, InstType::Open);
            }
        } else {
            assert(a[j] == s[j]);
            if s[j].cmd == InstType::Open {
                lemma_pairs_left(a, b, j, base, InstType::Close);
            }
            if s[j].cmd == InstType::Close {
                lemma_pairs_left(a, b, j, base, InstType::Open);
            }
        }
    }
}

proof fn lemma_linked_block(body: Seq<Inst>, base: int, inc: u8, d: i16)
    requires
        linked_at(body, base + 1),
        0 <= base,
        base + 1 + body.len() <= i32::MAX,
    ensures
        linked_at(
            seq![mk(InstType::Open, (base + 1 + body.len()) as i32, inc, d)] + body + seq![
                mk(InstType::Close, base as i32, inc, d),
            ],
            base,
        ),
{
    let close = base + 1 + body.len();
    let o = seq![mk(InstType::Open, close as i32, inc, d)];
    let c = seq![mk(InstType::Close, base as i32, inc, d)];
    let ob = o + body;
    let s = ob + c;
    assert(s.len() == body.len() + 2);
    assert(s[0] == o[0]);
    assert(s[close - base] == c[0]);
    assert forall|j: int| 0 <= j < s.len() implies {
        &&& (#[trigger] s[j]).cmd == InstType::Open ==> pairs_with(s, j, base, InstType::Close)
        &&& s[j].cmd == InstType::Close ==> pairs_with(s, j, base, InstType::Open)
    } by {
        if j == 0 || j == close - base {
            reveal(pairs_with);
        } else {
            let jj = j - 1;
            assert(body[jj] == s[j]);
            assert(ob[j] == s[j]);
            if s[j].cmd == InstType::Open {
                lemma_pairs_right(o, body, jj, base, InstType::Close);
                lemma_pairs_left(ob, c, j, base, InstType::Close);
            }
            if s[j].cmd == InstType::Close {
                lemma_pairs_right(o, body, jj, base, InstType::Open);
                lemma_pairs_left(ob, c, j, base, InstType::Open);
            }
        }
    }
}

/// A non-block node emits a plain instruction and moves the walk on.
proof fn lemma_emit_plain(t: Seq<Node>, k: int)
    requires
        0 <= k < t.len(),
    ensures
        emit(t, k).0.cmd != InstType::Open,
        emit(t, k).0.cmd != InstType::Close,
        k < emit(t, k).1,
{
}

/// The flat code of any tree, laid out from `base`, is linked.
proof fn lemma_flat_linked(t: Seq<Node>, k: int, base: int)
    requires
        0 <= base,
        base + size_from(t, k) <= i32::MAX,
    ensures
        linked_at(flat_from(t, k, base), base),
    decreases t, t.len() - k,
{
    if 0 <= k < t.len() {
        match t[k] {
            Node::Block(b, _) => {
                let inc = inc_at(b, 0);
                let d = shift_at(b, past_inc(b, 0));
                let k2 = past_shift(b, past_inc(b, 0));
                let body = flat_from(b, k2, base + 1);
                lemma_size_mono(b, 0, k2);
                lemma_size_nonneg(t, k + 1);
                lemma_flat_len(b, k2, base + 1);
                lemma_flat_linked(b, k2, base + 1);
                let close = base + 1 + body.len();
                lemma_flat_linked(t, k + 1, close + 1);
                lemma_linked_block(body, base, inc, d);
                let head = seq![mk(InstType::Open, close as i32, inc, d)] + body + seq![
                    mk(InstType::Close, base as i32, inc, d),
                ];
                lemma_linked_concat(head, flat_from(t, k + 1, close + 1), base);
            },
            _ => {
                let k1 = emit(t, k).1;
                lemma_emit_plain(t, k);
                lemma_size_mono(t, k + 1, k1);
                lemma_flat_linked(t, k1, base + 1);
                let head = seq![emit(t, k).0];
                assert(linked_at(head, base));
                lemma_linked_concat(head, flat_from(t, k1, base + 1), base);
            },
        }
    }
}

/// Later positions bound no more.
proof fn lemma_size_mono(t: Seq<Node>, k: int, j: int)
    requires
        0 <= k <= j,
    ensures
        0 <= size_from(t, j) <= size_from(t, k),
    decreases j - k,
{
    lemma_size_nonneg(t, j);
    if k < j {
        lemma_size_mono(t, k + 1, j);
        lemma_size_nonneg(t, k + 1);
        if k < t.len() {
            if let Node::Block(b, _) = t[k] {
                lemma_size_nonneg(b, 0);
            }
        }
    }
}

pub(crate) proof fn lemma_size_nonneg(t: Seq<Node>, k: int)
    ensures
        size_from(t, k) >= 0,
    decreases t, t.len() - k,
{
    if 0 <= k < t.len() {
        lemma_size_nonneg(t, k + 1);
        if let Node::Block(b, _) = t[k] {
            lemma_size_nonneg(b, 0);
        }
    }
}

/// The flat code is no longer than the size bound.
proof fn lemma_flat_len(t: Seq<Node>, k: int, base: int)
    ensures
        flat_from(t, k, base).len() <= size_from(t, k),
    decreases t, t.len() - k,
{
    if 0 <= k < t.len() {
        match t[k] {
            Node::Block(b, _) => {
                let k2 = past_shift(b, past_inc(b, 0));
                lemma_flat_len(b, k2, base + 1);
                lemma_size_mono(b, 0, k2);
                let close = base + 1 + flat_from(b, k2, base + 1).len();
                lemma_flat_len(t, k + 1, close + 1);
            },
            _ => {
                let k1 = emit(t, k).1;
                lemma_emit_plain(t, k);
                lemma_flat_len(t, k1, base + 1);
                lemma_size_mono(t, k + 1, k1);
            },
        }
    }
}

/// Fuses an `Inc` at `k`: its amount (0 if none) and the position after it.
fn pick_inc(b: &Vec<BaseInst>, k: usize) -> (r: (u8, usize))
    ensures
        r.0 == inc_at(nodes(b@), k as int),
        r.1 == past_inc(nodes(b@), k as int),
{
    proof {
        lemma_nodes_index(b@);
    }
    if k < b.len() {
        if let BaseInst::Inc(v) = &b[k] {
            return (*v, k + 1);
        }
    }
    (0, k)
}

/// Fuses a `Shift` at `k` that fits 16 bits: its amount (0 if none) and the
/// position after it.
fn pick_shift(b: &Vec<BaseInst>, k: usize) -> (r: (i16, usize))
    ensures
        r.0 == shift_at(nodes(b@), k as int),
        r.1 == past_shift(nodes(b@), k as int),
{
    proof {
        lemma_nodes_index(b@);
    }
    if k < b.len() {
        if let BaseInst::Shift(n) = &b[k] {
            if i16::MIN as i32 <= *n && *n <= i16::MAX as i32 {
                return (*n as i16, k + 1);
            }
        }
    }
    (0, k)
}

fn fuse_after_exec(cmd: InstType, arg: i32, b: &Vec<BaseInst>, k: usize) -> (r: (Inst, usize))
    ensures
        r.0 == fuse_after(cmd, arg, nodes(b@), k as int).0,
        r.1 == fuse_after(cmd, arg, nodes(b@), k as int).1,
{
    let (inc, k1) = pick_inc(b, k);
    let (delta, k2) = pick_shift(b, k1);
    (Inst { cmd, inc, delta, arg }, k2)
}

/// Which of `Reset` (1), `Output` (2) and `Input` (3) follows position `k`; 0 for none.
fn next_kind(b: &Vec<BaseInst>, k: usize) -> (r: u8)
    requires
        k < b.len(),
    ensures
        r == (if k + 1 < b@.len() {
            match b@[k + 1] {
                BaseInst::Reset => 1u8,
                BaseInst::Output => 2u8,
                BaseInst::Input => 3u8,
                _ => 0u8,
            }
        } else {
            0u8
        }),
{
    if k + 1 < b.len() {
        match &b[k + 1] {
            BaseInst::Reset => 1,
            BaseInst::Output => 2,
            BaseInst::Input => 3,
            _ => 0,
        }
    } else {
        0
    }
}

/// The instruction for the non-block node at `k`.
fn emit_exec(b: &Vec<BaseInst>, k: usize) -> (r: (Inst, usize))
    requires
        k < b.len(),
        !(nodes(b@)[k as int] is Block),
    ensures
        r.0 == emit(nodes(b@), k as int).0,
        r.1 == emit(nodes(b@), k as int).1,
{
    proof {
        lemma_nodes_index(b@);
    }
    match &b[k] {
        BaseInst::Inc(v) => {
            let (delta, k1) = pick_shift(b, k + 1);
            (Inst { cmd: InstType::ShiftInc, inc: *v, delta, arg: 0 }, k1)
        },
        BaseInst::Shift(n) => {
            let nx = next_kind(b, k);
            if nx == 1 {
                fuse_after_exec(InstType::SetCell, *n, b, k + 2)
            } else if nx == 2 {
                fuse_after_exec(InstType::Output, *n, b, k + 2)
            } else if nx == 3 {
                fuse_after_exec(InstType::Input, *n, b, k + 2)
            } else {
                fuse_after_exec(InstType::ShiftInc, *n, b, k + 1)
            }
        },
        BaseInst::Output => fuse_after_exec(InstType::Output, 0, b, k + 1),
        BaseInst::Input => fuse_after_exec(InstType::Input, 0, b, k + 1),
        BaseInst::Reset => fuse_after_exec(InstType::SetCell, 0, b, k + 1),
        BaseInst::Mul(off, w) => {
            if next_kind(b, k) == 1 {
                let (delta, k1) = pick_shift(b, k + 2);
                (Inst { cmd: InstType::Mulzero, inc: *w, delta, arg: *off }, k1)
            } else {
                (Inst { cmd: InstType::Mul, inc: *w, delta: 0, arg: *off }, k + 1)
            }
        },
        BaseInst::Seek(n) => {
            let (delta, k1) = pick_shift(b, k + 1);
            let (inc, k2) = pick_inc(b, k1);
            (Inst { cmd: InstType::Seek, inc, delta, arg: *n }, k2)
        },
        BaseInst::Skip(p, v, d) => (Inst { cmd: InstType::Skip, inc: *v, delta: *d, arg: *p }, k + 1),
        BaseInst::Block(..) => (Inst { cmd: InstType::ShiftInc, inc: 0, delta: 0, arg: 0 }, k + 1),
    }
}

/// Flattens `b` from position `k0`, laying the code out from index `base`.
fn flatten_from(b: &Vec<BaseInst>, k0: usize, base: usize) -> (r: Vec<Inst>)
    requires
        base + size_from(nodes(b@), k0 as int) <= i32::MAX,
    ensures
        r@ == flat_from(nodes(b@), k0 as int, base as int),
    decreases b@,
{
    let ghost t = nodes(b@);
    proof {
        lemma_nodes_index(b@);
    }
    let mut out: Vec<Inst> = Vec::new();
    let mut k: usize = k0;
    proof {
        lemma_size_mono(t, k0 as int, k as int);
    }
    while k < b.len()
        invariant
            t == nodes(b@),
            t.len() == b@.len(),
            forall|j: int| 0 <= j < b@.len() ==> #[trigger] t[j] == b@[j].node(),
            k0 <= k,
            out@ + flat_from(t, k as int, base + out@.len()) == flat_from(t, k0 as int, base as int),
            base + out@.len() + size_from(t, k as int) <= i32::MAX,
        decreases b@.len() - k,
    {
        proof {
            lemma_size_nonneg(t, k as int);
        }
        match &b[k] {
            BaseInst::Block(inner, _) => {
                let ghost bt = nodes(inner@);
                let (inc, k1) = pick_inc(inner, 0);
                let (delta, k2) = pick_shift(inner, k1);
                let open = base + out.len();
                proof {
                    lemma_size_mono(bt, 0, k2 as int);
                    lemma_size_nonneg(t, k as int + 1);
                    assert(t[k as int] == Node::Block(bt, b@[k as int]->Block_1));
                }
                let mut body = flatten_from(inner, k2, open + 1);
                proof {
                    lemma_flat_len(bt, k2 as int, open + 1);
                }
                let close = open + 1 + body.len();
                let ghost body_s = body@;
                let ghost prev = out@;
                out.push(Inst { cmd: InstType::Open, inc, delta, arg: close as i32 });
                out.append(&mut body);
                out.push(Inst { cmd: InstType::Close, inc, delta, arg: open as i32 });
                proof {
                    assert(out@ =~= prev + seq![mk(InstType::Open, close as i32, inc, delta)] + body_s + seq![mk(InstType::Close, open as i32, inc, delta)]);
                }
                k = k + 1;
            },
            _ => {
                let (inst, k1) = emit_exec(b, k);
                proof {
                    lemma_emit_plain(t, k as int);
                    lemma_size_mono(t, k as int + 1, k1 as int);
                }
                out.push(inst);
                k = k1;
            },
        }
    }
    proof {
        assert(out@ + flat_from(t, k as int, base + out@.len()) =~= out@);
    }
    out
}

/// Lowers the tree IR to the flat instruction stream, with each `Open` and
/// `Close` holding the index of its partner.
pub fn flatten(prog: Vec<BaseInst>) -> (r: Vec<Inst>)
    requires
        size_from(nodes(prog@), 0) <= i32::MAX,
    ensures
        r@ == flat_from(nodes(prog@), 0, 0),
        linked(r@),
{
    let r = flatten_from(&prog, 0, 0);
    proof {
        lemma_flat_linked(nodes(prog@), 0, 0);
    }
    r
}

} // verus!
