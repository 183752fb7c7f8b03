//! Dead-write removal and the hoisting of repeated resets out of loops.

use vstd::prelude::*;
use std::collections::HashSet;
use crate::ir::{BaseInst, Node, nodes, lemma_nodes_index, lemma_nodes_push};
use crate::fold::{copy_leaf, lemma_take_last};
use crate::parse::shift_sum;

verus! {

broadcast use vstd::std_specs::hash::group_hash_axioms;

/// The executable set `h` holds exactly the offsets of `s`.
pub open spec fn holds(h: Set<i128>, s: Set<int>) -> bool {
    &&& forall|x: i128| #[trigger] h.contains(x) <==> s.contains(x as int)
    &&& forall|x: int| #[trigger] s.contains(x) ==> i128::MIN <= x <= i128::MAX
}

// ------------------------------------------------------------- dead writes

/// Dead-write removal of a block body: a stable body is walked backwards, an
/// unstable one only has its blocks processed.
pub open spec fn dead_block(t: Seq<Node>, stable: bool) -> Seq<Node>
    decreases t, 2nat, 0nat,
{
    if stable {
        dead_back(t, t.len() as int, Set::empty(), 0)
    } else {
        dead_map(t)
    }
}

pub open spec fn dead_map(t: Seq<Node>) -> Seq<Node>
    decreases t, 1nat, 0nat,
{
    if t.len() == 0 {
        Seq::empty()
    } else {
        let x = t.last();
        dead_map(t.drop_last()).push(
            match x {
                Node::Block(b, f) => Node::Block(dead_block(b, f), f),
                _ => x,
            },
        )
    }
}

/// The nodes of `t[..k]` that are kept, walking backwards from `k` with the set
/// `targets` of offsets (relative to the walk's pointer `ptr`) that are written
/// later before being read.
pub open spec fn dead_back(t: Seq<Node>, k: int, targets: Set<int>, ptr: int) -> Seq<Node>
    decreases t, 1nat, k,
{
    if k <= 0 || k > t.len() {
        Seq::empty()
    } else {
        let x = t[k - 1];
        match x {
            Node::Shift(n) => dead_back(t, k - 1, targets, ptr - n).push(x),
            Node::Reset => if targets.contains(ptr) {
                dead_back(t, k - 1, targets, ptr)
            } else {
                dead_back(t, k - 1, targets.insert(ptr), ptr).push(x)
            },
            Node::Input => dead_back(t, k - 1, targets.insert(ptr), ptr).push(x),
            Node::Output => dead_back(t, k - 1, targets.remove(ptr), ptr).push(x),
            Node::Mul(off, _) => {
                let rest = targets.remove(ptr);
                if rest.contains(ptr + off) {
                    dead_back(t, k - 1, rest, ptr)
                } else {
                    dead_back(t, k - 1, rest, ptr).push(x)
                }
            },
            Node::Inc(_) => if targets.contains(ptr) {
                dead_back(t, k - 1, targets, ptr)
            } else {
                dead_back(t, k - 1, targets, ptr).push(x)
            },
            Node::Block(b, f) => dead_back(t, k - 1, Set::empty(), ptr).push(
                Node::Block(dead_block(b, f), f),
            ),
            _ => dead_back(t, k - 1, Set::empty(), ptr).push(x),
        }
    }
}

proof fn lemma_reverse_push(s: Seq<Node>, x: Node)
    ensures
        s.push(x).reverse() == seq![x] + s.reverse(),
{
    assert(s.push(x).reverse() =~= seq![x] + s.reverse());
}

/// Turns the reversed list of kept nodes into forward order.
fn unreverse(rev: Vec<BaseInst>) -> (r: Vec<BaseInst>)
    ensures
        nodes(r@) == nodes(rev@).reverse(),
{
    let mut rev = rev;
    let ghost all = nodes(rev@).reverse();
    let mut out: Vec<BaseInst> = Vec::new();
    proof {
        assert(nodes(out@) + nodes(rev@).reverse() =~= all);
    }
    while rev.len() > 0
        invariant
            nodes(out@) + nodes(rev@).reverse() == all,
        decreases rev.len(),
    {
        let ghost before = rev@;
        match rev.pop() {
            Some(x) => {
                proof {
                    assert(before == rev@.push(x));
                    lemma_nodes_push(rev@, x);
                    lemma_reverse_push(nodes(rev@), x.node());
                    lemma_nodes_push(out@, x);
                }
                out.push(x);
                proof {
                    assert(nodes(out@) + nodes(rev@).reverse() =~= all);
                }
            },
            None => {},
        }
    }
    proof {
        assert(nodes(out@) =~= all);
    }
    out
}

fn dead_block_exec(b: &Vec<BaseInst>, stable: bool) -> (r: Vec<BaseInst>)
    ensures
        nodes(r@) == dead_block(nodes(b@), stable),
    decreases b@,
{
    let ghost t = nodes(b@);
    proof {
        lemma_nodes_index(b@);
    }
    if !stable {
        let mut out: Vec<BaseInst> = Vec::new();
        let mut k: usize = 0;
        while k < b.len()
            invariant
                t == nodes(b@),
                t.len() == b@.len(),
                forall|j: int| 0 <= j < b@.len() ==> #[trigger] t[j] == b@[j].node(),
                k <= b.len(),
                nodes(out@) == dead_map(t.take(k as int)),
            decreases b@.len() - k,
        {
            proof {
                lemma_take_last(t, k as int);
            }
            let x = match &b[k] {
                BaseInst::Block(inner, f) => BaseInst::Block(dead_block_exec(inner, *f), *f),
                other => copy_leaf(other),
            };
            proof {
                lemma_nodes_push(out@, x);
            }
            out.push(x);
            k = k + 1;
        }
        proof {
            assert(t.take(k as int) =~= t);
        }
        return out;
    }
    let mut targets: HashSet<i128> = HashSet::new();
    let ghost mut tset: Set<int> = Set::empty();
    let mut ptr: i128 = 0;
    let mut rev: Vec<BaseInst> = Vec::new();
    let ghost mut tail: Seq<Node> = Seq::empty();
    let mut k: usize = b.len();
    proof {
        assert(holds(targets@, tset));
        assert(dead_back(t, t.len() as int, Set::empty(), 0) == dead_back(t, k as int, tset, ptr as int) + tail);
    }
    while k > 0
        invariant
            t == nodes(b@),
            t.len() == b@.len(),
            forall|j: int| 0 <= j < b@.len() ==> #[trigger] t[j] == b@[j].node(),
            k <= b.len(),
            holds(targets@, tset),
            forall|x: int| #[trigger] tset.contains(x) ==> -((b@.len() - k + 1) as int) * 0x8000_0000
                <= x <= ((b@.len() - k + 1) as int) * 0x8000_0000,
            -((b@.len() - k) as int) * 0x8000_0000 <= ptr <= ((b@.len() - k) as int) * 0x8000_0000,
            dead_back(t, t.len() as int, Set::empty(), 0) == dead_back(t, k as int, tset, ptr as int)
                + tail,
            nodes(rev@) == tail.reverse(),
        decreases k,
    {
        let ghost old_tail = tail;
        let ghost old_set = tset;
        let ghost old_ptr = ptr as int;
        let kept: Option<BaseInst> = match &b[k - 1] {
            BaseInst::Shift(n) => {
                ptr = ptr - *n as i128;
                Some(BaseInst::Shift(*n))
            },
            BaseInst::Reset => {
                if targets.insert(ptr) {
                    proof {
                        tset = tset.insert(ptr as int);
                    }
                    Some(BaseInst::Reset)
                } else {
                    None
                }
            },
            BaseInst::Input => {
                targets.insert(ptr);
                proof {
                    tset = tset.insert(ptr as int);
                }
                Some(BaseInst::Input)
            },
            BaseInst::Output => {
                targets.remove(&ptr);
                proof {
                    tset = tset.remove(ptr as int);
                }
                Some(BaseInst::Output)
            },
            BaseInst::Mul(off, w) => {
                let target = ptr + *off as i128;
                targets.remove(&ptr);
                proof {
                    tset = tset.remove(ptr as int);
                }
                if !targets.contains(&target) {
                    Some(BaseInst::Mul(*off, *w))
                } else {
                    None
                }
            },
            BaseInst::Inc(n) => {
                if !targets.contains(&ptr) {
                    Some(BaseInst::Inc(*n))
                } else {
                    None
                }
            },
            BaseInst::Block(inner, f) => {
                targets.clear();
                proof {
                    tset = Set::empty();
                }
                Some(BaseInst::Block(dead_block_exec(inner, *f), *f))
            },
            other => {
                targets.clear();
                proof {
                    tset = Set::empty();
                }
                Some(copy_leaf(other))
            },
        };
        proof {
            assert(holds(targets@, tset));
        }
        match kept {
            Some(x) => {
                proof {
                    lemma_nodes_push(rev@, x);
                    lemma_reverse_push(tail, x.node());
                    tail = seq![x.node()] + tail;
                    assert(dead_back(t, k as int, old_set, old_ptr) == dead_back(t, k - 1, tset, ptr as int).push(x.node()));
                    assert(dead_back(t, k - 1, tset, ptr as int).push(x.node()) + old_tail =~= dead_back(t, k - 1, tset, ptr as int) + tail);
                }
                rev.push(x);
            },
            None => {
                proof {
                    assert(dead_back(t, k as int, old_set, old_ptr) == dead_back(t, k - 1, tset, ptr as int));
                }
            },
        }
        k = k - 1;
    }
    proof {
        assert(dead_back(t, 0, tset, ptr as int) =~= Seq::<Node>::empty());
        assert(dead_back(t, t.len() as int, Set::empty(), 0) =~= tail);
    }
    unreverse(rev)
}

/// Removes writes that are overwritten before being read: in each stable block,
/// walking backwards, an `Inc`, `Reset` or `Mul` whose cell is known to be reset
/// or read from input later is dropped. The top level is not walked.
pub fn remove_dead_writes(prog: Vec<BaseInst>) -> (r: Vec<BaseInst>)
    ensures
        nodes(r@) == dead_block(nodes(prog@), false),
{
    dead_block_exec(&prog, false)
}

// ---------------------------------------------------------- reset hoisting

/// Offsets that a body reads (by `Output` or as the source of a `Mul`), and the
/// entry cell.
pub open spec fn unremovable(t: Seq<Node>) -> Set<int>
    decreases t.len(),
{
    if t.len() == 0 {
        set![0int]
    } else {
        let u = unremovable(t.drop_last());
        match t.last() {
            Node::Output => u.insert(shift_sum(t.drop_last())),
            Node::Mul(..) => u.insert(shift_sum(t.drop_last())),
            _ => u,
        }
    }
}

/// Walking `t[..k]` backwards from pointer offset `ptr`: the kept nodes, in order,
/// and the offsets of the dropped resets, latest first. A reset is dropped when
/// its offset is not in `u`; an `Inc` or `Mul` adds the cell it writes to `u`.
pub open spec fn hoist_back(t: Seq<Node>, k: int, u: Set<int>, ptr: int) -> (Seq<Node>, Seq<int>)
    decreases k,
{
    if k <= 0 || k > t.len() {
        (Seq::empty(), Seq::empty())
    } else {
        let x = t[k - 1];
        match x {
            Node::Shift(n) => {
                let r = hoist_back(t, k - 1, u, ptr - n);
                (r.0.push(x), r.1)
            },
            Node::Reset => {
                let r = hoist_back(t, k - 1, u, ptr);
                if u.contains(ptr) {
                    (r.0.push(x), r.1)
                } else {
                    (r.0, seq![ptr] + r.1)
                }
            },
            Node::Inc(_) => {
                let r = hoist_back(t, k - 1, u.insert(ptr), ptr);
                (r.0.push(x), r.1)
            },
            Node::Mul(off, _) => {
                let r = hoist_back(t, k - 1, u.insert(ptr + off), ptr);
                (r.0.push(x), r.1)
            },
            _ => {
                let r = hoist_back(t, k - 1, u, ptr);
                (r.0.push(x), r.1)
            },
        }
    }
}

pub open spec fn hoisted(t: Seq<Node>) -> (Seq<Node>, Seq<int>) {
    hoist_back(t, t.len() as int, unremovable(t), 0)
}

/// `Shift(o), Reset, Shift(-o)` for each offset, in order.
pub open spec fn resets(r: Seq<int>) -> Seq<Node>
    decreases r.len(),
{
    if r.len() == 0 {
        Seq::empty()
    } else {
        let o = r.last();
        resets(r.drop_last()) + seq![Node::Shift(o as i32), Node::Reset, Node::Shift((-o) as i32)]
    }
}

/// A body is walked when it holds no block, `Seek` or `Skip`, and each dropped
/// reset's offset and its negation fit 32 bits.
pub open spec fn hoistable(t: Seq<Node>) -> bool {
    &&& forall|k: int| 0 <= k < t.len() ==> !(#[trigger] t[k] is Block || t[k] is Seek || t[k] is Skip)
    &&& forall|k: int| 0 <= k < hoisted(t).1.len() ==> -i32::MAX <= #[trigger] hoisted(t).1[k] <= i32::MAX
}

pub open spec fn hoist_node(n: Node) -> Node
    decreases n, 0nat,
{
    match n {
        Node::Block(b, flag) => {
            let mb = hoist_seq(b);
            if flag && hoistable(mb) {
                let h = hoisted(mb);
                if h.1.len() == 0 {
                    Node::Block(h.0, flag)
                } else {
                    Node::Block(seq![Node::Block(h.0, flag)] + resets(h.1), true)
                }
            } else {
                Node::Block(mb, flag)
            }
        },
        other => other,
    }
}

pub open spec fn hoist_seq(t: Seq<Node>) -> Seq<Node>
    decreases t, 1nat,
{
    if t.len() == 0 {
        Seq::empty()
    } else {
        hoist_seq(t.drop_last()).push(hoist_node(t.last()))
    }
}

/// The unremovable offsets of a body, or `None` if it holds a block, `Seek` or
/// `Skip`.
fn unremovable_exec(b: &Vec<BaseInst>) -> (r: Option<HashSet<i128>>)
    ensures
        r is Some <==> (forall|k: int| 0 <= k < b@.len() ==> !(#[trigger] nodes(b@)[k] is Block || nodes(b@)[k] is Seek || nodes(b@)[k] is Skip)),
        r is Some ==> holds(r->0@, unremovable(nodes(b@))),
        r is Some ==> forall|x: int| #[trigger] unremovable(nodes(b@)).contains(x) ==> -(b@.len() as int) * 0x8000_0000 <= x <= (b@.len() as int) * 0x8000_0000,
{
    let ghost t = nodes(b@);
    proof {
        lemma_nodes_index(b@);
    }
    let mut u: HashSet<i128> = HashSet::new();
    u.insert(0);
    proof {
        assert(holds(u@, unremovable(t.take(0))));
    }
    let mut ptr: i128 = 0;
    let mut k: usize = 0;
    while k < b.len()
        invariant
            t == nodes(b@),
            t.len() == b@.len(),
            forall|j: int| 0 <= j < b@.len() ==> #[trigger] t[j] == b@[j].node(),
            k <= b.len(),
            forall|j: int| 0 <= j < k ==> !(#[trigger] t[j] is Block || t[j] is Seek || t[j] is Skip),
            holds(u@, unremovable(t.take(k as int))),
            forall|x: int| #[trigger] unremovable(t.take(k as int)).contains(x) ==> -(k as int) * 0x8000_0000 <= x <= (k as int) * 0x8000_0000,
            ptr as int == shift_sum(t.take(k as int)),
            -(k as int) * 0x8000_0000 <= ptr <= (k as int) * 0x8000_0000,
        decreases b@.len() - k,
    {
        proof {
            lemma_take_last(t, k as int);
        }
        match &b[k] {
            BaseInst::Shift(n) => {
                ptr = ptr + *n as i128;
            },
            BaseInst::Output => {
                u.insert(ptr);
            },
            BaseInst::Mul(..) => {
                u.insert(ptr);
            },
            BaseInst::Block(..) | BaseInst::Seek(..) | BaseInst::Skip(..) => {
                return None;
            },
            _ => {},
        }
        k = k + 1;
    }
    proof {
        assert(t.take(k as int) =~= t);
    }
    Some(u)
}

fn hoist_walk(b: &Vec<BaseInst>, u0: HashSet<i128>) -> (r: (Vec<BaseInst>, Vec<i128>))
    requires
        forall|k: int| 0 <= k < b@.len() ==> !(#[trigger] nodes(b@)[k] is Block || nodes(b@)[k] is Seek || nodes(b@)[k] is Skip),
        holds(u0@, unremovable(nodes(b@))),
        forall|x: int| #[trigger] unremovable(nodes(b@)).contains(x) ==> -(b@.len() as int) * 0x8000_0000 <= x <= (b@.len() as int) * 0x8000_0000,
    ensures
        nodes(r.0@) == hoisted(nodes(b@)).0,
        r.1@.map_values(|x: i128| x as int) == hoisted(nodes(b@)).1,
{
    let ghost t = nodes(b@);
    proof {
        lemma_nodes_index(b@);
    }
    let mut u = u0;
    let ghost mut uset: Set<int> = unremovable(t);
    let mut ptr: i128 = 0;
    let mut rev: Vec<BaseInst> = Vec::new();
    let mut removed: Vec<i128> = Vec::new();
    let ghost mut tail: Seq<Node> = Seq::empty();
    let mut k: usize = b.len();
    proof {
        assert(hoisted(t).0 == hoist_back(t, k as int, uset, ptr as int).0 + tail);
        assert(hoisted(t).1 =~= removed@.map_values(|x: i128| x as int) + hoist_back(t, k as int, uset, ptr as int).1);
    }
    while k > 0
        invariant
            t == nodes(b@),
            t.len() == b@.len(),
            forall|j: int| 0 <= j < b@.len() ==> #[trigger] t[j] == b@[j].node(),
            forall|j: int| 0 <= j < b@.len() ==> !(#[trigger] t[j] is Block || t[j] is Seek || t[j] is Skip),
            k <= b.len(),
            holds(u@, uset),
            forall|x: int| #[trigger] uset.contains(x) ==> -((2 * b@.len() - k + 1) as int) * 0x8000_0000
                <= x <= ((2 * b@.len() - k + 1) as int) * 0x8000_0000,
            -((b@.len() - k) as int) * 0x8000_0000 <= ptr <= ((b@.len() - k) as int) * 0x8000_0000,
            hoisted(t).0 == hoist_back(t, k as int, uset, ptr as int).0 + tail,
            hoisted(t).1 == removed@.map_values(|x: i128| x as int) + hoist_back(t, k as int, uset, ptr as int).1,
            nodes(rev@) == tail.reverse(),
        decreases k,
    {
        let ghost old_u = uset;
        let ghost old_ptr = ptr as int;
        let ghost old_removed = removed@;
        let kept: Option<BaseInst> = match &b[k - 1] {
            BaseInst::Shift(n) => {
                ptr = ptr - *n as i128;
                Some(BaseInst::Shift(*n))
            },
            BaseInst::Reset => {
                if u.contains(&ptr) {
                    Some(BaseInst::Reset)
                } else {
                    removed.push(ptr);
                    None
                }
            },
            BaseInst::Inc(v) => {
                u.insert(ptr);
                proof {
                    uset = uset.insert(ptr as int);
                }
                Some(BaseInst::Inc(*v))
            },
            BaseInst::Mul(off, w) => {
                u.insert(ptr + *off as i128);
                proof {
                    uset = uset.insert(ptr + *off);
                }
                Some(BaseInst::Mul(*off, *w))
            },
            other => Some(copy_leaf(other)),
        };
        proof {
            assert(holds(u@, uset));
        }
        match kept {
            Some(x) => {
                proof {
                    lemma_nodes_push(rev@, x);
                    lemma_reverse_push(tail, x.node());
                    let old_tail = tail;
                    tail = seq![x.node()] + tail;
                    let r = hoist_back(t, k - 1, uset, ptr as int);
                    assert(hoist_back(t, k as int, old_u, old_ptr) == (r.0.push(x.node()), r.1));
                    assert(r.0.push(x.node()) + old_tail =~= r.0 + tail);
                }
                rev.push(x);
            },
            None => {
                proof {
                    let r = hoist_back(t, k - 1, uset, ptr as int);
                    assert(hoist_back(t, k as int, old_u, old_ptr) == (r.0, seq![old_ptr] + r.1));
                    assert(removed@.map_values(|x: i128| x as int) =~= old_removed.map_values(|x: i128| x as int).push(old_ptr));
                    assert(removed@.map_values(|x: i128| x as int) + r.1 =~= old_removed.map_values(|x: i128| x as int) + (seq![old_ptr] + r.1));
                }
            },
        }
        k = k - 1;
    }
    proof {
        assert(hoist_back(t, 0, uset, ptr as int).0 =~= Seq::<Node>::empty());
        assert(hoist_back(t, 0, uset, ptr as int).1 =~= Seq::<int>::empty());
        assert(hoisted(t).0 =~= tail);
        assert(hoisted(t).1 =~= removed@.map_values(|x: i128| x as int));
    }
    (unreverse(rev), removed)
}

fn hoist_block(b: &Vec<BaseInst>) -> (r: Vec<BaseInst>)
    ensures
        nodes(r@) == hoist_seq(nodes(b@)),
    decreases b@,
{
    let ghost t = nodes(b@);
    proof {
        lemma_nodes_index(b@);
    }
    let mut out: Vec<BaseInst> = Vec::new();
    let mut k: usize = 0;
    while k < b.len()
        invariant
            t == nodes(b@),
            t.len() == b@.len(),
            forall|j: int| 0 <= j < b@.len() ==> #[trigger] t[j] == b@[j].node(),
            k <= b.len(),
            nodes(out@) == hoist_seq(t.take(k as int)),
        decreases b@.len() - k,
    {
        proof {
            lemma_take_last(t, k as int);
        }
        let x = match &b[k] {
            BaseInst::Block(inner, flag) => {
                let mb = hoist_block(inner);
                proof {
                    assert(t[k as int] == Node::Block(nodes(inner@), *flag));
                }
                hoist_one(mb, *flag)
            },
            other => copy_leaf(other),
        };
        proof {
            assert(x.node() == hoist_node(t[k as int]));
            lemma_nodes_push(out@, x);
        }
        out.push(x);
        k = k + 1;
    }
    proof {
        assert(t.take(k as int) =~= t);
    }
    out
}

/// The block of the already processed body `mb`, with its resets hoisted when
/// it qualifies.
fn hoist_one(mb: Vec<BaseInst>, flag: bool) -> (r: BaseInst)
    ensures
        r.node() == ({
            let m = nodes(mb@);
            if flag && hoistable(m) {
                let h = hoisted(m);
                if h.1.len() == 0 {
                    Node::Block(h.0, flag)
                } else {
                    Node::Block(seq![Node::Block(h.0, flag)] + resets(h.1), true)
                }
            } else {
                Node::Block(m, flag)
            }
        }),
{
    let ghost m = nodes(mb@);
    proof {
        lemma_nodes_index(mb@);
    }
    if !flag {
        return BaseInst::Block(mb, flag);
    }
    let u = match unremovable_exec(&mb) {
        Some(u) => u,
        None => {
            proof {
                let k = choose|k: int| 0 <= k < mb@.len() && (#[trigger] m[k] is Block || m[k] is Seek || m[k] is Skip);
                assert(!hoistable(m));
            }
            return BaseInst::Block(mb, flag);
        },
    };
    let (seq, removed) = hoist_walk(&mb, u);
    let ghost rv = removed@.map_values(|x: i128| x as int);
    let mut i: usize = 0;
    while i < removed.len()
        invariant
            i <= removed@.len(),
            rv == removed@.map_values(|x: i128| x as int),
            m == nodes(mb@),
            rv == hoisted(m).1,
            forall|j: int| 0 <= j < i ==> -i32::MAX <= #[trigger] rv[j] <= i32::MAX,
        decreases removed@.len() - i,
    {
        let o = removed[i];
        if o < -(i32::MAX as i128) || o > i32::MAX as i128 {
            proof {
                assert(rv[i as int] == o);
                assert(!hoistable(m));
            }
            return BaseInst::Block(mb, flag);
        }
        i = i + 1;
    }
    if removed.len() == 0 {
        proof {
            assert(rv.len() == 0);
        }
        return BaseInst::Block(seq, flag);
    }
    let mut body: Vec<BaseInst> = Vec::new();
    body.push(BaseInst::Block(seq, flag));
    proof {
        assert(nodes(body@) =~= seq![Node::Block(hoisted(m).0, flag)]) by {
            lemma_nodes_push(Seq::empty(), body@[0]);
            assert(body@ =~= Seq::<BaseInst>::empty().push(body@[0]));
        }
    }
    let mut j: usize = 0;
    while j < removed.len()
        invariant
            j <= removed@.len(),
            rv == removed@.map_values(|x: i128| x as int),
            forall|q: int| 0 <= q < removed@.len() ==> -i32::MAX <= #[trigger] rv[q] <= i32::MAX,
            nodes(body@) == seq![Node::Block(hoisted(m).0, flag)] + resets(rv.take(j as int)),
        decreases removed@.len() - j,
    {
        proof {
            assert(rv[j as int] == removed@[j as int]);
        }
        let o = removed[j] as i32;
        proof {
            assert(rv.take(j + 1).drop_last() =~= rv.take(j as int));
            let b0 = body@;
            lemma_nodes_push(b0, BaseInst::Shift(o));
            lemma_nodes_push(b0.push(BaseInst::Shift(o)), BaseInst::Reset);
            lemma_nodes_push(b0.push(BaseInst::Shift(o)).push(BaseInst::Reset), BaseInst::Shift((-o) as i32));
        }
        body.push(BaseInst::Shift(o));
        body.push(BaseInst::Reset);
        body.push(BaseInst::Shift(-o));
        proof {
            assert(nodes(body@) =~= seq![Node::Block(hoisted(m).0, flag)] + resets(rv.take(j + 1)));
        }
        j = j + 1;
    }
    proof {
        assert(rv.take(j as int) =~= rv);
    }
    BaseInst::Block(body, true)
}

/// Moves resets that a stable, block-free loop body repeats on every pass, at
/// offsets it never reads, to after the loop: the block becomes a stable block
/// holding the trimmed loop and `Shift(o), Reset, Shift(-o)` per moved offset.
pub fn move_repeating_resets(prog: Vec<BaseInst>) -> (r: Vec<BaseInst>)
    ensures
        nodes(r@) == hoist_seq(nodes(prog@)),
{
    hoist_block(&prog)
}

} // verus!
