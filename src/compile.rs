//! The compile driver: parse, the fixed optimization pipeline, flatten.

use vstd::prelude::*;
use crate::ir::{BaseInst, Inst, Node, nodes, lemma_nodes_index};
use crate::parse::{parse, balanced, has_unmatched_close, parsed_form, unparse, cmds, flags_ok};
use crate::fold::{compress, compress_seq, fold_simple_loops, fold_simple_seq, fold_skip_loops, fold_skip_seq};
use crate::mul::{fold_mul_loops, fold_mul_seq};
use crate::dead::{remove_dead_writes, dead_block, move_repeating_resets, hoist_seq};
use crate::flatten::{flatten, flat_from, size_from, linked, lemma_size_nonneg};
use crate::unique::lemma_parse_unique;

verus! {

/// `t` is the tree that the parser makes of `code`.
pub open spec fn parses_to(code: Seq<char>, t: Seq<Node>) -> bool {
    parsed_form(t) && unparse(t) == cmds(code) && flags_ok(t)
}

/// One round: compress, fold simple and multiplication loops, remove dead writes
/// twice, hoist resets.
pub open spec fn round(t: Seq<Node>) -> Seq<Node> {
    hoist_seq(
        dead_block(dead_block(fold_mul_seq(fold_simple_seq(compress_seq(t))), false), false),
    )
}

/// The optimizer: three rounds, the last ending with the skip-loop fold in place
/// of dead-write removal and reset hoisting.
pub open spec fn optimized(t: Seq<Node>) -> Seq<Node> {
    fold_skip_seq(fold_mul_seq(fold_simple_seq(compress_seq(round(round(t))))))
}

const SIZE_CAP: u64 = 0x8000_0000;

/// `size_from(nodes(b@), 0)`, or `SIZE_CAP` when it is at least that.
fn flat_size(b: &Vec<BaseInst>) -> (r: u64)
    ensures
        r <= SIZE_CAP,
        r < SIZE_CAP ==> r == size_from(nodes(b@), 0),
        r == SIZE_CAP ==> size_from(nodes(b@), 0) >= SIZE_CAP,
    decreases b@,
{
    let ghost t = nodes(b@);
    proof {
        lemma_nodes_index(b@);
    }
    let mut total: u64 = 0;
    let mut k: usize = 0;
    while k < b.len()
        invariant
            t == nodes(b@),
            t.len() == b@.len(),
            forall|j: int| 0 <= j < b@.len() ==> #[trigger] t[j] == b@[j].node(),
            k <= b.len(),
            total < SIZE_CAP,
            total + size_from(t, k as int) == size_from(t, 0),
        decreases b@.len() - k,
    {
        proof {
            lemma_size_nonneg(t, k as int + 1);
        }
        let add: u64 = match &b[k] {
            BaseInst::Block(inner, st) => {
                proof {
                    assert(t[k as int] == Node::Block(nodes(inner@), *st));
                }
                let s = flat_size(inner);
                if s >= SIZE_CAP {
                    proof {
                        lemma_size_nonneg(t, 0);
                    }
                    return SIZE_CAP;
                }
                2 + s
            },
            _ => 1,
        };
        if total + add >= SIZE_CAP {
            return SIZE_CAP;
        }
        total = total + add;
        k = k + 1;
    }
    total
}

/// Compiles Brainfuck source: parse, optimize, flatten. Fails on an unmatched
/// bracket, and when the optimized tree's size bound (one instruction per node
/// and one more per block, at least the flat length) exceeds what a jump target
/// can address.
pub fn compile(code: &str) -> (r: Result<Vec<Inst>, String>)
    ensures
        !balanced(code@) ==> r is Err && r->Err_0@ == (if has_unmatched_close(code@) {
            "Unmatched ]"@
        } else {
            "Unmatched ["@
        }),
        balanced(code@) ==> exists|t: Seq<Node>| #[trigger] parses_to(code@, t),
        balanced(code@) ==> forall|t: Seq<Node>|
            #[trigger] parses_to(code@, t) ==> if size_from(optimized(t), 0) <= i32::MAX {
                r is Ok && r->Ok_0@ == flat_from(optimized(t), 0, 0)
            } else {
                r is Err && r->Err_0@ == "Program too large"@
            },
        r is Ok ==> linked(r->Ok_0@),
{
    let mut prog = match parse(code) {
        Ok(p) => p,
        Err(e) => return Err(e),
    };
    let ghost t = nodes(prog@);
    prog = compress(prog);
    prog = fold_simple_loops(prog);
    prog = fold_mul_loops(prog);
    prog = remove_dead_writes(prog);
    prog = remove_dead_writes(prog);
    prog = move_repeating_resets(prog);
    prog = compress(prog);
    prog = fold_simple_loops(prog);
    prog = fold_mul_loops(prog);
    prog = remove_dead_writes(prog);
    prog = remove_dead_writes(prog);
    prog = move_repeating_resets(prog);
    prog = compress(prog);
    prog = fold_simple_loops(prog);
    prog = fold_mul_loops(prog);
    prog = fold_skip_loops(prog);
    proof {
        assert(nodes(prog@) == optimized(t));
        assert(parses_to(code@, t));
        assert forall|t2: Seq<Node>| #[trigger] parses_to(code@, t2) implies t2 == t by {
            lemma_parse_unique(t2, t);
        }
    }
    if flat_size(&prog) >= SIZE_CAP {
        return Err("Program too large".to_owned());
    }
    Ok(flatten(prog))
}

} // verus!
