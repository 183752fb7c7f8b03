//! The folding of multiplication loops into `Mul` nodes.

use vstd::prelude::*;
use crate::ir::{BaseInst, Node, nodes, lemma_nodes_index, lemma_nodes_push};
use crate::parse::shift_sum;
use crate::fold::{copy_leaf, lemma_take_last};

verus! {

/// The first index of key `o` in `l`, or -1.
pub open spec fn find(l: Seq<(int, u8)>, o: int) -> int
    decreases l.len(),
{
    if l.len() == 0 {
        -1
    } else {
        let f = find(l.drop_last(), o);
        if f >= 0 {
            f
        } else if l.last().0 == o {
            l.len() - 1
        } else {
            -1
        }
    }
}

/// The number of keys of `l` below `o`.
pub open spec fn below(l: Seq<(int, u8)>, o: int) -> int
    decreases l.len(),
{
    if l.len() == 0 {
        0
    } else {
        below(l.drop_last(), o) + if l.last().0 < o { 1int } else { 0 }
    }
}

/// Adds `v` (wrapping) to the weight of key `o`, inserting the key in key order
/// when it is new.
pub open spec fn accumulate(l: Seq<(int, u8)>, o: int, v: u8) -> Seq<(int, u8)> {
    let j = find(l, o);
    if j >= 0 {
        l.update(j, (o, l[j].1.wrapping_add(v)))
    } else {
        l.insert(below(l, o), (o, v))
    }
}

/// The net change of each cell, by offset from the entry cell, over one pass of
/// a body of `Inc` and `Shift` nodes, in key order; offset 0 is always present.
pub open spec fn changes(t: Seq<Node>) -> Seq<(int, u8)>
    decreases t.len(),
{
    if t.len() == 0 {
        seq![(0int, 0u8)]
    } else {
        let c = changes(t.drop_last());
        match t.last() {
            Node::Inc(v) => accumulate(c, shift_sum(t.drop_last()), v),
            _ => c,
        }
    }
}

/// `Mul(offset, weight)` for each entry with nonzero offset and weight, in order.
pub open spec fn mul_targets(l: Seq<(int, u8)>) -> Seq<Node>
    decreases l.len(),
{
    if l.len() == 0 {
        Seq::empty()
    } else {
        let e = l.last();
        mul_targets(l.drop_last()) + if e.0 != 0 && e.1 != 0 {
            seq![Node::Mul(e.0 as i32, e.1)]
        } else {
            Seq::empty()
        }
    }
}

pub open spec fn only_inc_shift(t: Seq<Node>) -> bool {
    forall|k: int| 0 <= k < t.len() ==> (#[trigger] t[k] is Inc || t[k] is Shift)
}

pub open spec fn keys_fit(l: Seq<(int, u8)>) -> bool {
    forall|k: int| 0 <= k < l.len() ==> i32::MIN <= (#[trigger] l[k]).0 <= i32::MAX
}

/// A stable block whose folded body is only `Inc` and `Shift`, and which takes 1
/// from its entry cell per pass, becomes its multiplications and a `Reset`.
pub open spec fn mul_foldable(st: bool, ib: Seq<Node>) -> bool {
    let c = changes(ib);
    &&& st
    &&& only_inc_shift(ib)
    &&& find(c, 0) >= 0
    &&& c[find(c, 0)].1 == 255
    &&& keys_fit(c)
}

pub open spec fn fold_mul_node(n: Node) -> Seq<Node>
    decreases n, 0nat,
{
    match n {
        Node::Block(b, st) => {
            let ib = fold_mul_seq(b);
            if mul_foldable(st, ib) {
                mul_targets(changes(ib)).push(Node::Reset)
            } else {
                seq![Node::Block(ib, st)]
            }
        },
        other => seq![other],
    }
}

pub open spec fn fold_mul_seq(t: Seq<Node>) -> Seq<Node>
    decreases t, 1nat,
{
    if t.len() == 0 {
        Seq::empty()
    } else {
        fold_mul_seq(t.drop_last()) + fold_mul_node(t.last())
    }
}

pub open spec fn view_changes(l: Seq<(i128, u8)>) -> Seq<(int, u8)> {
    l.map_values(|e: (i128, u8)| (e.0 as int, e.1))
}

// The changes are kept as a list sorted by offset rather than in a `BTreeMap`:
// vstd specifies neither `BTreeMap::entry` nor its `into_iter`, and its `iter`
// gives the pairs only as some increasing sequence with the map's contents, from
// which the emitted order would have to be re-derived.

/// Adds `v` at key `o` as `accumulate` does.
fn accumulate_exec(l: &mut Vec<(i128, u8)>, o: i128, v: u8)
    ensures
        view_changes(final(l)@) == accumulate(view_changes(old(l)@), o as int, v),
{
    let ghost c = view_changes(l@);
    let mut found: usize = l.len();
    let mut count: usize = 0;
    let mut i: usize = 0;
    while i < l.len()
        invariant
            c == view_changes(l@),
            i <= l.len(),
            count <= i,
            found < i ==> found as int == find(c.take(i as int), o as int),
            found >= i ==> found == l.len() && find(c.take(i as int), o as int) == -1,
            count as int == below(c.take(i as int), o as int),
        decreases l.len() - i,
    {
        proof {
            assert(c.take(i + 1).drop_last() =~= c.take(i as int));
            assert(c[i as int] == (l@[i as int].0 as int, l@[i as int].1));
        }
        if l[i].0 < o {
            count = count + 1;
        }
        if found == l.len() && l[i].0 == o {
            found = i;
        }
        i = i + 1;
    }
    proof {
        assert(c.take(i as int) =~= c);
    }
    if found < l.len() {
        let w = l[found].1;
        l.set(found, (o, w.wrapping_add(v)));
        proof {
            assert(view_changes(l@) =~= accumulate(c, o as int, v));
        }
    } else {
        l.insert(count, (o, v));
        proof {
            assert(view_changes(l@) =~= accumulate(c, o as int, v));
        }
    }
}

/// The changes of a body of `Inc` and `Shift` nodes, or `None` when another node
/// occurs.
fn changes_exec(b: &Vec<BaseInst>) -> (r: Option<Vec<(i128, u8)>>)
    ensures
        r is Some <==> only_inc_shift(nodes(b@)),
        r is Some ==> view_changes(r->0@) == changes(nodes(b@)),
{
    let ghost t = nodes(b@);
    proof {
        lemma_nodes_index(b@);
    }
    let mut l: Vec<(i128, u8)> = Vec::new();
    l.push((0, 0));
    proof {
        assert(view_changes(l@) =~= changes(t.take(0)));
    }
    let mut ptr: i128 = 0;
    let mut k: usize = 0;
    while k < b.len()
        invariant
            t == nodes(b@),
            t.len() == b@.len(),
            forall|j: int| 0 <= j < b@.len() ==> #[trigger] t[j] == b@[j].node(),
            k <= b.len(),
            only_inc_shift(t.take(k as int)),
            view_changes(l@) == changes(t.take(k as int)),
            ptr as int == shift_sum(t.take(k as int)),
            -(k as int) * 0x8000_0000 <= ptr <= (k as int) * 0x8000_0000,
        decreases b@.len() - k,
    {
        proof {
            lemma_take_last(t, k as int);
        }
        match &b[k] {
            BaseInst::Inc(v) => {
                accumulate_exec(&mut l, ptr, *v);
            },
            BaseInst::Shift(n) => {
                ptr = ptr + *n as i128;
            },
            _ => {
                proof {
                    assert(!(t.take(k as int + 1)[k as int] is Inc || t.take(k as int + 1)[k as int] is Shift));
                    if only_inc_shift(t) {
                        assert(t[k as int] is Inc || t[k as int] is Shift);
                    }
                }
                return None;
            },
        }
        proof {
            assert forall|q: int| 0 <= q < k + 1 implies (#[trigger] t.take(k as int + 1)[q] is Inc
                || t.take(k as int + 1)[q] is Shift) by {
                if q < k {
                    assert(t.take(k as int + 1)[q] == t.take(k as int)[q]);
                }
            }
        }
        k = k + 1;
    }
    proof {
        assert(t.take(k as int) =~= t);
    }
    Some(l)
}

/// The multiplications of the changes, or `None` unless offset 0 changes by 255
/// and every offset fits 32 bits.
fn muls_exec(l: &Vec<(i128, u8)>) -> (r: Option<Vec<BaseInst>>)
    ensures
        ({
            let c = view_changes(l@);
            r is Some <==> (find(c, 0) >= 0 && c[find(c, 0)].1 == 255 && keys_fit(c))
        }),
        r is Some ==> nodes(r->0@) == mul_targets(view_changes(l@)).push(Node::Reset),
{
    let ghost c = view_changes(l@);
    let mut out: Vec<BaseInst> = Vec::new();
    let mut zero_ok = false;
    let mut found_zero = false;
    let mut i: usize = 0;
    while i < l.len()
        invariant
            c == view_changes(l@),
            i <= l.len(),
            keys_fit(c.take(i as int)),
            nodes(out@) == mul_targets(c.take(i as int)),
            found_zero == (find(c.take(i as int), 0) >= 0),
            found_zero ==> zero_ok == (c[find(c.take(i as int), 0)].1 == 255),
        decreases l.len() - i,
    {
        proof {
            assert(c.take(i + 1).drop_last() =~= c.take(i as int));
            assert(c[i as int] == (l@[i as int].0 as int, l@[i as int].1));
        }
        let (o, w) = l[i];
        if o < i32::MIN as i128 || o > i32::MAX as i128 {
            proof {
                assert(!keys_fit(c) ) by {
                    assert(c[i as int].0 == o);
                }
            }
            return None;
        }
        if !found_zero && o == 0 {
            found_zero = true;
            zero_ok = w == 255;
        }
        if o != 0 && w != 0 {
            let x = BaseInst::Mul(o as i32, w);
            proof {
                lemma_nodes_push(out@, x);
            }
            out.push(x);
        }
        proof {
            assert(nodes(out@) =~= mul_targets(c.take(i + 1)));
            assert forall|q: int| 0 <= q < i + 1 implies i32::MIN <= (#[trigger] c.take(i + 1)[q]).0 <= i32::MAX by {
                if q < i {
                    assert(c.take(i + 1)[q] == c.take(i as int)[q]);
                }
            }
        }
        i = i + 1;
    }
    proof {
        assert(c.take(i as int) =~= c);
    }
    if !found_zero || !zero_ok {
        return None;
    }
    proof {
        lemma_nodes_push(out@, BaseInst::Reset);
    }
    out.push(BaseInst::Reset);
    Some(out)
}

fn fold_mul_block(b: &Vec<BaseInst>) -> (r: Vec<BaseInst>)
    ensures
        nodes(r@) == fold_mul_seq(nodes(b@)),
    decreases b@,
{
    let ghost t = nodes(b@);
    proof {
        lemma_nodes_index(b@);
    }
    let mut out: Vec<BaseInst> = Vec::new();
    let mut k: usize = 0;
    while k < b.len()
        invariant
            t == nodes(b@),
            t.len() == b@.len(),
            forall|j: int| 0 <= j < b@.len() ==> #[trigger] t[j] == b@[j].node(),
            k <= b.len(),
            nodes(out@) == fold_mul_seq(t.take(k as int)),
        decreases b@.len() - k,
    {
        let ghost prev = out@;
        proof {
            lemma_take_last(t, k as int);
        }
        match &b[k] {
            BaseInst::Block(inner, st) => {
                let ib = fold_mul_block(inner);
                proof {
                    assert(t[k as int] == Node::Block(nodes(inner@), *st));
                }
                let folded = if *st {
                    match changes_exec(&ib) {
                        Some(l) => muls_exec(&l),
                        None => None,
                    }
                } else {
                    None
                };
                match folded {
                    Some(mut m) => {
                        proof {
                            assert(nodes(prev + m@) == nodes(prev) + nodes(m@)) by {
                                lemma_nodes_append(prev, m@);
                            }
                        }
                        out.append(&mut m);
                        proof {
                            assert(mul_foldable(*st, nodes(ib@)));
                            assert(nodes(out@) == nodes(prev) + fold_mul_node(t[k as int]));
                        }
                    },
                    None => {
                        let x = BaseInst::Block(ib, *st);
                        proof {
                            lemma_nodes_push(out@, x);
                            assert(nodes(out@.push(x)) =~= nodes(prev) + seq![x.node()]);
                        }
                        out.push(x);
                        proof {
                            assert(!mul_foldable(*st, nodes(ib@)));
                            assert(nodes(out@) == nodes(prev) + fold_mul_node(t[k as int]));
                        }
                    },
                }
            },
            other => {
                let x = copy_leaf(other);
                proof {
                    lemma_nodes_push(out@, x);
                    assert(nodes(out@.push(x)) =~= nodes(prev) + seq![x.node()]);
                }
                out.push(x);
            },
        }
        proof {
            assert(fold_mul_seq(t.take(k as int + 1)) == fold_mul_seq(t.take(k as int)) + fold_mul_node(t[k as int]));
        }
        k = k + 1;
    }
    proof {
        assert(t.take(k as int) =~= t);
    }
    out
}

proof fn lemma_nodes_append(a: Seq<BaseInst>, b: Seq<BaseInst>)
    ensures
        nodes(a + b) == nodes(a) + nodes(b),
    decreases b.len(),
{
    if b.len() == 0 {
        assert(a + b =~= a);
        assert(nodes(a) + nodes(b) =~= nodes(a));
    } else {
        lemma_nodes_append(a, b.drop_last());
        assert((a + b).drop_last() =~= a + b.drop_last());
        assert(nodes(a) + nodes(b) =~= (nodes(a) + nodes(b.drop_last())).push(b.last().node()));
    }
}

/// Rewrites each stable block whose folded body is only `Inc` and `Shift`, and
/// decrements its entry cell once per pass, to one `Mul(offset, weight)` per
/// other changed cell in ascending offset order, then `Reset`; at every depth.
pub fn fold_mul_loops(prog: Vec<BaseInst>) -> (r: Vec<BaseInst>)
    ensures
        nodes(r@) == fold_mul_seq(nodes(prog@)),
{
    fold_mul_block(&prog)
}

} // verus!
