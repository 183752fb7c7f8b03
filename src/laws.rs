//! Properties of the passes: compression idempotence, balance of repeated empty
//! loops, and the meaning of folded multiplication loops.

use vstd::prelude::*;
use crate::ir::Node;
use crate::parse::{balanced, depth, has_unmatched_close};
use crate::fold::{compress_seq, lemma_compress_compressed, lemma_compress_fixes_compressed};
use crate::parse::shift_sum;
use crate::mul::{changes, accumulate, find, below, mul_targets, only_inc_shift, keys_fit};

verus! {

/// Compressing twice is compressing once.
pub proof fn lemma_compress_idempotent(t: Seq<Node>)
    ensures
        compress_seq(compress_seq(t)) == compress_seq(t),
{
    lemma_compress_compressed(t);
    lemma_compress_fixes_compressed(compress_seq(t));
}

/// `k` copies of `[]`.
pub open spec fn empty_loops(k: nat) -> Seq<char>
    decreases k,
{
    if k == 0 {
        Seq::empty()
    } else {
        empty_loops((k - 1) as nat) + seq!['[', ']']
    }
}

proof fn lemma_empty_loops_depth(k: nat)
    ensures
        depth(empty_loops(k)) == 0,
        forall|i: int| 0 <= i <= empty_loops(k).len() ==> #[trigger] depth(empty_loops(k).take(i)) >= 0,
        empty_loops(k).len() == 2 * k,
    decreases k,
{
    if k > 0 {
        let p = empty_loops((k - 1) as nat);
        lemma_empty_loops_depth((k - 1) as nat);
        let s = empty_loops(k);
        assert(s.drop_last() =~= p.push('['));
        assert(p.push('[').drop_last() =~= p);
        assert(s.last() == ']');
        assert(p.push('[').last() == '[');
        assert(depth(p.push('[')) == depth(p) + 1);
        assert(depth(s) == depth(p.push('[')) - 1);
        assert forall|i: int| 0 <= i <= s.len() implies #[trigger] depth(s.take(i)) >= 0 by {
            if i <= p.len() {
                assert(s.take(i) =~= p.take(i));
                assert(depth(p.take(i)) >= 0);
            } else if i == p.len() + 1 {
                assert(s.take(i) =~= p.push('['));
            } else {
                assert(s.take(i) =~= s);
            }
        }
    }
}

/// Any number of empty loops is balanced, so it compiles.
pub proof fn lemma_empty_loops_balanced(k: nat)
    ensures
        balanced(empty_loops(k)),
{
    lemma_empty_loops_depth(k);
    if has_unmatched_close(empty_loops(k)) {
        let i = choose|i: int| 0 <= i <= empty_loops(k).len() && #[trigger] depth(empty_loops(k).take(i)) < 0;
    }
}

// ----------------------------------------------------- multiplication loops

/// A tape around the entry cell (offset 0); cells hold integers, read modulo 256.
pub type Tape = spec_fn(int) -> int;

pub open spec fn add_at(tape: Tape, p: int, v: int) -> Tape {
    |o: int| if o == p { tape(o) + v } else { tape(o) }
}

/// One pass of a body of `Inc` and `Shift` nodes from the entry cell.
pub open spec fn run_body(t: Seq<Node>, tape: Tape) -> Tape
    decreases t.len(),
{
    if t.len() == 0 {
        tape
    } else {
        let tp = run_body(t.drop_last(), tape);
        match t.last() {
            Node::Inc(v) => add_at(tp, shift_sum(t.drop_last()), v as int),
            _ => tp,
        }
    }
}

/// The loop `[t]`, for at most `fuel` passes.
pub open spec fn run_loop(t: Seq<Node>, tape: Tape, fuel: nat) -> Tape
    decreases fuel,
{
    if fuel == 0 || tape(0) % 256 == 0 {
        tape
    } else {
        run_loop(t, run_body(t, tape), (fuel - 1) as nat)
    }
}

/// A sequence of `Mul` and `Reset` nodes at the entry cell.
pub open spec fn run_folded(s: Seq<Node>, tape: Tape) -> Tape
    decreases s.len(),
{
    if s.len() == 0 {
        tape
    } else {
        let tp = run_folded(s.drop_last(), tape);
        match s.last() {
            Node::Mul(o, w) => add_at(tp, o as int, (tp(0) % 256) * (w as int)),
            Node::Reset => |q: int| if q == 0 { 0 } else { tp(q) },
            _ => tp,
        }
    }
}

/// The integer sum of the `Inc` amounts applied at offset `o` in one pass.
pub open spec fn net_change(t: Seq<Node>, o: int) -> int
    decreases t.len(),
{
    if t.len() == 0 {
        0
    } else {
        net_change(t.drop_last(), o) + match t.last() {
            Node::Inc(v) => if shift_sum(t.drop_last()) == o { v as int } else { 0 },
            _ => 0,
        }
    }
}

/// The sum of the weights of the entries of `l` with key `o`.
pub open spec fn key_sum(l: Seq<(int, u8)>, o: int) -> int
    decreases l.len(),
{
    if l.len() == 0 {
        0
    } else {
        key_sum(l.drop_last(), o) + if l.last().0 == o { l.last().1 as int } else { 0 }
    }
}

proof fn lemma_run_body(t: Seq<Node>, tape: Tape, o: int)
    ensures
        run_body(t, tape)(o) == tape(o) + net_change(t, o),
    decreases t.len(),
{
    if t.len() > 0 {
        lemma_run_body(t.drop_last(), tape, o);
    }
}

proof fn lemma_key_sum_append(a: Seq<(int, u8)>, b: Seq<(int, u8)>, o: int)
    ensures
        key_sum(a + b, o) == key_sum(a, o) + key_sum(b, o),
    decreases b.len(),
{
    if b.len() == 0 {
        assert(a + b =~= a);
    } else {
        lemma_key_sum_append(a, b.drop_last(), o);
        assert((a + b).drop_last() =~= a + b.drop_last());
    }
}

proof fn lemma_key_sum_single(e: (int, u8), o: int)
    ensures
        key_sum(seq![e], o) == if e.0 == o { e.1 as int } else { 0 },
{
    assert(seq![e].drop_last() =~= Seq::<(int, u8)>::empty());
    assert(key_sum(Seq::<(int, u8)>::empty(), o) == 0);
    assert(seq![e].last() == e);
}

proof fn lemma_find_key(l: Seq<(int, u8)>, o: int)
    ensures
        find(l, o) < l.len(),
        find(l, o) >= 0 ==> l[find(l, o)].0 == o,
        find(l, o) < 0 ==> find(l, o) == -1,
    decreases l.len(),
{
    if l.len() > 0 {
        lemma_find_key(l.drop_last(), o);
    }
}

/// Accumulating adds the amount to the key's sum, modulo 256.
proof fn lemma_accumulate(l: Seq<(int, u8)>, p: int, v: u8, o: int)
    ensures
        key_sum(accumulate(l, p, v), o) % 256 == (key_sum(l, o) + if o == p { v as int } else { 0 }) % 256,
{
    let j = find(l, p);
    lemma_find_key(l, p);
    if j >= 0 {
        let e = (p, l[j].1.wrapping_add(v));
        let n = l.update(j, e);
        assert(l =~= l.take(j) + seq![l[j]] + l.skip(j + 1));
        assert(n =~= l.take(j) + seq![e] + l.skip(j + 1));
        lemma_key_sum_append(l.take(j) + seq![l[j]], l.skip(j + 1), o);
        lemma_key_sum_append(l.take(j), seq![l[j]], o);
        lemma_key_sum_append(l.take(j) + seq![e], l.skip(j + 1), o);
        lemma_key_sum_append(l.take(j), seq![e], o);
        lemma_key_sum_single(l[j], o);
        lemma_key_sum_single(e, o);
        let a = key_sum(l.take(j), o) + key_sum(l.skip(j + 1), o);
        if o == p {
            let w = l[j].1 as int;
            assert(e.1 as int == (w + v as int) % 256);
            assert((a + (w + v as int) % 256) % 256 == (a + w + v as int) % 256) by (nonlinear_arith);
        }
    } else {
        let b = below(l, p);
        assert(0 <= b <= l.len()) by {
            lemma_below_range(l, p);
        }
        let n = l.insert(b, (p, v));
        assert(l =~= l.take(b) + l.skip(b));
        assert(n =~= l.take(b) + seq![(p, v)] + l.skip(b));
        lemma_key_sum_append(l.take(b), l.skip(b), o);
        lemma_key_sum_append(l.take(b) + seq![(p, v)], l.skip(b), o);
        lemma_key_sum_append(l.take(b), seq![(p, v)], o);
        lemma_key_sum_single((p, v), o);
    }
}

proof fn lemma_below_range(l: Seq<(int, u8)>, p: int)
    ensures
        0 <= below(l, p) <= l.len(),
    decreases l.len(),
{
    if l.len() > 0 {
        lemma_below_range(l.drop_last(), p);
    }
}

/// The multiplications of the changes weigh each offset by its net change per
/// pass, modulo 256.
proof fn lemma_changes(t: Seq<Node>, o: int)
    ensures
        key_sum(changes(t), o) % 256 == net_change(t, o) % 256,
    decreases t.len(),
{
    if t.len() == 0 {
        lemma_key_sum_single((0int, 0u8), o);
    } else {
        lemma_changes(t.drop_last(), o);
        let c = changes(t.drop_last());
        match t.last() {
            Node::Inc(v) => {
                lemma_accumulate(c, shift_sum(t.drop_last()), v, o);
                let x = key_sum(c, o);
                let y = net_change(t.drop_last(), o);
                let d: int = if shift_sum(t.drop_last()) == o { v as int } else { 0 };
                assert((x + d) % 256 == (y + d) % 256) by {
                    assert(x % 256 == y % 256);
                    vstd::arithmetic::div_mod::lemma_add_mod_noop(x, d, 256);
                    vstd::arithmetic::div_mod::lemma_add_mod_noop(y, d, 256);
                }
            },
            _ => {},
        }
    }
}

/// Running the multiplications of `l` adds, at every offset but 0, the entry
/// cell's value times the offset's weight sum.
proof fn lemma_run_muls(l: Seq<(int, u8)>, tape: Tape, o: int)
    requires
        keys_fit(l),
    ensures
        run_folded(mul_targets(l), tape)(0) == tape(0),
        o != 0 ==> run_folded(mul_targets(l), tape)(o) == tape(o) + (tape(0) % 256) * key_sum(l, o),
    decreases l.len(),
{
    if l.len() > 0 {
        let p = l.drop_last();
        assert(keys_fit(p)) by {
            assert forall|k: int| 0 <= k < p.len() implies i32::MIN <= (#[trigger] p[k]).0 <= i32::MAX by {
                assert(p[k] == l[k]);
            }
        }
        lemma_run_muls(p, tape, o);
        lemma_run_muls(p, tape, 0);
        let e = l.last();
        assert(i32::MIN <= l[l.len() - 1].0 <= i32::MAX);
        let m: Seq<Node> = if e.0 != 0 && e.1 != 0 { seq![Node::Mul(e.0 as i32, e.1)] } else { Seq::empty() };
        assert(mul_targets(l) == mul_targets(p) + m);
        if e.0 != 0 && e.1 != 0 {
            assert((mul_targets(p) + m).drop_last() =~= mul_targets(p));
            assert(tape(0) % 256 * key_sum(p, o) + tape(0) % 256 * (if e.0 == o { e.1 as int } else { 0 })
                == tape(0) % 256 * key_sum(l, o)) by (nonlinear_arith)
                requires key_sum(l, o) == key_sum(p, o) + if e.0 == o { e.1 as int } else { 0 };
        } else {
            assert(mul_targets(p) + m =~= mul_targets(p));
            if o != 0 {
                assert(key_sum(l, o) == key_sum(p, o));
            }
        }
    }
}

/// The tape after `i` passes of a body with per-offset changes `net_change`.
pub open spec fn after_passes(t: Seq<Node>, tape: Tape, i: int) -> Tape {
    |o: int| tape(o) + i * net_change(t, o)
}

proof fn lemma_entry_after(c: int, w: int, i: int)
    requires
        0 <= i <= c < 256,
        w % 256 == 255,
    ensures
        (c + i * w) % 256 == c - i,
{
    let q = w / 256;
    assert(w == 256 * q + 255) by {
        vstd::arithmetic::div_mod::lemma_fundamental_div_mod(w, 256);
    }
    assert(c + i * w == (c - i) + 256 * (i * q + i)) by (nonlinear_arith)
        requires w == 256 * q + 255;
    vstd::arithmetic::div_mod::lemma_mod_multiples_vanish(i * q + i, c - i, 256);
    vstd::arithmetic::div_mod::lemma_small_mod((c - i) as nat, 256);
}

proof fn lemma_loop_runs(t: Seq<Node>, tape: Tape, i: int, fuel: nat)
    requires
        0 <= tape(0) < 256,
        net_change(t, 0) % 256 == 255,
        0 <= i <= tape(0),
        fuel >= tape(0) - i,
    ensures
        run_loop(t, after_passes(t, tape, i), fuel) == after_passes(t, tape, tape(0)),
    decreases tape(0) - i,
{
    let c = tape(0);
    lemma_entry_after(c, net_change(t, 0), i);
    if i < c {
        assert(run_body(t, after_passes(t, tape, i)) =~= after_passes(t, tape, i + 1)) by {
            assert forall|o: int| #[trigger] run_body(t, after_passes(t, tape, i))(o) == after_passes(t, tape, i + 1)(o) by {
                lemma_run_body(t, after_passes(t, tape, i), o);
                assert(tape(o) + i * net_change(t, o) + net_change(t, o) == tape(o) + (i + 1) * net_change(t, o)) by (nonlinear_arith);
            }
        }
        lemma_loop_runs(t, tape, i + 1, (fuel - 1) as nat);
    }
}

/// Folding a multiplication loop keeps its meaning: for a stable body of `Inc`
/// and `Shift` nodes that takes 1 from the entry cell per pass (and whose offsets
/// fit 32 bits), the loop run on any tape whose entry cell holds 0 to 255 leaves
/// every cell, modulo 256, as the folded `Mul` nodes and `Reset` do.
pub proof fn lemma_mul_fold_correct(t: Seq<Node>, tape: Tape, o: int)
    requires
        only_inc_shift(t),
        shift_sum(t) == 0,
        net_change(t, 0) % 256 == 255,
        keys_fit(changes(t)),
        0 <= tape(0) < 256,
    ensures
        run_loop(t, tape, 256)(o) % 256 == run_folded(mul_targets(changes(t)).push(Node::Reset), tape)(o) % 256,
        run_loop(t, tape, 256)(0) % 256 == 0,
{
    let c = tape(0);
    assert(after_passes(t, tape, 0) =~= tape);
    lemma_loop_runs(t, tape, 0, 256);
    lemma_entry_after(c, net_change(t, 0), c);
    let m = mul_targets(changes(t));
    assert(m.push(Node::Reset).drop_last() =~= m);
    lemma_run_muls(changes(t), tape, o);
    if o != 0 {
        lemma_changes(t, o);
        let k = key_sum(changes(t), o);
        let n = net_change(t, o);
        assert((tape(o) + c * k) % 256 == (tape(o) + c * n) % 256) by {
            vstd::arithmetic::div_mod::lemma_mul_mod_noop_right(c, k, 256);
            vstd::arithmetic::div_mod::lemma_mul_mod_noop_right(c, n, 256);
            vstd::arithmetic::div_mod::lemma_add_mod_noop(tape(o), c * k, 256);
            vstd::arithmetic::div_mod::lemma_add_mod_noop(tape(o), c * n, 256);
        }
        vstd::arithmetic::div_mod::lemma_small_mod(c as nat, 256);
    }
}

} // verus!
