//! The parser from source text to the tree IR, with bracket checking and
//! stability flags.

use vstd::prelude::*;
use crate::ir::{BaseInst, Node, nodes};
use vstd::std_specs::iter::IteratorSpec;

verus! {

pub open spec fn is_cmd(c: char) -> bool {
    c == '+' || c == '-' || c == '>' || c == '<' || c == '.' || c == ',' || c == '[' || c == ']'
}

/// The command characters of `s`, in order; everything else is a comment.
pub open spec fn cmds(s: Seq<char>) -> Seq<char>
    decreases s.len(),
{
    if s.len() == 0 {
        Seq::empty()
    } else if is_cmd(s.last()) {
        cmds(s.drop_last()).push(s.last())
    } else {
        cmds(s.drop_last())
    }
}

/// The number of `[` minus the number of `]` in `s`.
pub open spec fn depth(s: Seq<char>) -> int
    decreases s.len(),
{
    if s.len() == 0 {
        0
    } else if s.last() == '[' {
        depth(s.drop_last()) + 1
    } else if s.last() == ']' {
        depth(s.drop_last()) - 1
    } else {
        depth(s.drop_last())
    }
}

/// Some prefix of `s` closes more brackets than it opens.
pub open spec fn has_unmatched_close(s: Seq<char>) -> bool {
    exists|k: int| 0 <= k <= s.len() && #[trigger] depth(s.take(k)) < 0
}

/// Every prefix of `s` opens at least as many brackets as it closes, and `s` as
/// many as it closes.
pub open spec fn balanced(s: Seq<char>) -> bool {
    !has_unmatched_close(s) && depth(s) == 0
}

/// The source text of one node as the parser produces it.
pub open spec fn unparse_node(n: Node) -> Seq<char>
    decreases n, 0nat,
{
    match n {
        Node::Inc(v) => if v == 1 { seq!['+'] } else { seq!['-'] },
        Node::Shift(d) => if d == 1 { seq!['>'] } else { seq!['<'] },
        Node::Output => seq!['.'],
        Node::Input => seq![','],
        Node::Block(b, _) => seq!['['] + unparse(b) + seq![']'],
        _ => Seq::empty(),
    }
}

/// The source text of a tree made of parser nodes.
pub open spec fn unparse(t: Seq<Node>) -> Seq<char>
    decreases t, 1nat,
{
    if t.len() == 0 {
        Seq::empty()
    } else {
        unparse(t.drop_last()) + unparse_node(t.last())
    }
}

/// Each node is one the parser emits: `Inc(1)`, `Inc(255)`, `Shift(1)`, `Shift(-1)`,
/// `Output`, `Input` or a block of such nodes.
pub open spec fn parsed_form(t: Seq<Node>) -> bool
    decreases t,
{
    t.len() == 0 || (parsed_form(t.drop_last()) && match t.last() {
        Node::Inc(v) => v == 1 || v == 255,
        Node::Shift(d) => d == 1 || d == -1,
        Node::Output => true,
        Node::Input => true,
        Node::Block(b, _) => parsed_form(b),
        _ => false,
    })
}

/// The sum of the immediate `Shift` amounts of `t`.
pub open spec fn shift_sum(t: Seq<Node>) -> int
    decreases t.len(),
{
    if t.len() == 0 {
        0
    } else {
        shift_sum(t.drop_last()) + match t.last() {
            Node::Shift(d) => d as int,
            _ => 0,
        }
    }
}

/// Every immediate block of `t` is flagged stable.
pub open spec fn nested_stable(t: Seq<Node>) -> bool
    decreases t.len(),
{
    t.len() == 0 || (nested_stable(t.drop_last()) && match t.last() {
        Node::Block(_, st) => st,
        _ => true,
    })
}

/// The stability flag of every block in `t`, at any depth, is true iff the block's
/// immediate shifts sum to zero and its immediate blocks are all stable.
pub open spec fn flags_ok(t: Seq<Node>) -> bool
    decreases t,
{
    t.len() == 0 || (flags_ok(t.drop_last()) && match t.last() {
        Node::Block(b, st) => st == (shift_sum(b) == 0 && nested_stable(b)) && flags_ok(b),
        _ => true,
    })
}

/// A block under construction.
struct Frame {
    prog: Vec<BaseInst>,
    delta: i128,
    stable: bool,
}

spec fn frame_ok(f: Frame) -> bool {
    &&& parsed_form(nodes(f.prog@))
    &&& flags_ok(nodes(f.prog@))
    &&& f.delta == shift_sum(nodes(f.prog@))
    &&& f.stable == nested_stable(nodes(f.prog@))
    &&& -(f.prog@.len() as int) <= f.delta <= f.prog@.len()
}

/// The source text of the enclosing frames, each followed by the `[` that opened
/// the next one.
spec fn frames_src(fs: Seq<Frame>) -> Seq<char>
    decreases fs.len(),
{
    if fs.len() == 0 {
        Seq::empty()
    } else {
        frames_src(fs.drop_last()) + unparse(nodes(fs.last().prog@)) + seq!['[']
    }
}

proof fn lemma_push_last<A>(s: Seq<A>, x: A)
    ensures
        s.push(x).drop_last() == s,
        s.push(x).last() == x,
{
    assert(s.push(x).drop_last() =~= s);
}

/// Appends `x` to the frame's block.
fn frame_push(f: &mut Frame, x: BaseInst)
    requires
        frame_ok(*old(f)),
        match x.node() {
            Node::Inc(v) => v == 1 || v == 255,
            Node::Shift(d) => d == 1 || d == -1,
            Node::Output => true,
            Node::Input => true,
            _ => false,
        },
    ensures
        frame_ok(*final(f)),
        unparse(nodes(final(f).prog@)) == unparse(nodes(old(f).prog@)) + unparse_node(x.node()),
{
    let d: i128 = match x {
        BaseInst::Shift(n) => n as i128,
        _ => 0,
    };
    proof {
        lemma_push_last(f.prog@, x);
        lemma_push_last(nodes(f.prog@), x.node());
    }
    let len = f.prog.len();
    f.prog.push(x);
    f.delta = f.delta + d;
    proof {
        let t = nodes(f.prog@);
        assert(t == nodes(old(f).prog@).push(x.node()));
        lemma_push_last(nodes(old(f).prog@), x.node());
    }
}

/// Parses Brainfuck source into the tree IR. Characters other than the eight
/// commands are comments. Fails on an unmatched bracket.
pub fn parse(code: &str) -> (r: Result<Vec<BaseInst>, String>)
    ensures
        r is Ok <==> balanced(code@),
        r is Ok ==> parsed_form(nodes(r->Ok_0@)) && unparse(nodes(r->Ok_0@)) == cmds(code@)
            && flags_ok(nodes(r->Ok_0@)),
        r is Err ==> r->Err_0@ == (if has_unmatched_close(code@) {
            "Unmatched ]"@
        } else {
            "Unmatched ["@
        }),
{
    let mut it = code.chars();
    let ghost n: int = code@.len() as int;
    let ghost mut i: int = 0;
    let mut stack: Vec<Frame> = Vec::new();
    let mut cur = Frame { prog: Vec::new(), delta: 0, stable: true };
    proof {
        assert(code@.take(0) =~= Seq::<char>::empty());
        assert(frames_src(stack@) + unparse(nodes(cur.prog@)) =~= Seq::<char>::empty());
    }
    loop
        invariant
            0 <= i <= n,
            n == code@.len(),
            it.remaining() == code@.subrange(i, n),
            frame_ok(cur),
            forall|k: int| 0 <= k < stack@.len() ==> frame_ok(#[trigger] stack@[k]),
            cmds(code@.take(i)) == frames_src(stack@) + unparse(nodes(cur.prog@)),
            stack@.len() == depth(code@.take(i)),
            forall|k: int| 0 <= k <= i ==> #[trigger] depth(code@.take(k)) >= 0,
        ensures
            i == n,
            frame_ok(cur),
            cmds(code@.take(i)) == frames_src(stack@) + unparse(nodes(cur.prog@)),
            stack@.len() == depth(code@.take(i)),
            forall|k: int| 0 <= k <= i ==> #[trigger] depth(code@.take(k)) >= 0,
        decreases n - i,
    {
        let c = match it.next() {
            Some(c) => c,
            None => {
                proof {
                    assert(code@.subrange(i, n).len() == 0);
                    assert(i == n);
                }
                break;
            },
        };
        proof {
            assert(code@.take(i + 1).drop_last() =~= code@.take(i));
            assert(code@.take(i + 1).last() == c);
        }
        if c == '+' || c == '-' || c == '>' || c == '<' || c == '.' || c == ',' {
            let x = if c == '+' {
                BaseInst::Inc(1)
            } else if c == '-' {
                BaseInst::Inc(255)
            } else if c == '>' {
                BaseInst::Shift(1)
            } else if c == '<' {
                BaseInst::Shift(-1)
            } else if c == '.' {
                BaseInst::Output
            } else {
                BaseInst::Input
            };
            frame_push(&mut cur, x);
            proof {
                assert(unparse_node(x.node()) =~= seq![c]);
                assert(cmds(code@.take(i + 1)) =~= frames_src(stack@) + unparse(nodes(cur.prog@)));
            }
        } else if c == '[' {
            let ghost old_stack = stack@;
            let ghost old_cur = cur;
            stack.push(cur);
            cur = Frame { prog: Vec::new(), delta: 0, stable: true };
            proof {
                lemma_push_last(old_stack, old_cur);
                assert(nodes(cur.prog@) =~= Seq::<Node>::empty());
                assert(cmds(code@.take(i + 1)) =~= frames_src(stack@) + unparse(nodes(cur.prog@)));
            }
        } else if c == ']' {
            if stack.len() == 0 {
                proof {
                    assert(depth(code@.take(i + 1)) < 0);
                    assert(code@.take(n).take(i + 1) =~= code@.take(i + 1));
                    assert(code@.take(n) =~= code@);
                }
                return Err("Unmatched ]".to_owned());
            }
            let ghost old_stack = stack@;
            let ghost inner = cur;
            let mut parent = match stack.pop() {
                Some(p) => p,
                None => return Err("Unmatched ]".to_owned()),
            };
            let st = cur.stable && cur.delta == 0;
            let x = BaseInst::Block(cur.prog, st);
            let ghost pold = parent;
            proof {
                lemma_push_last(parent.prog@, x);
                lemma_push_last(nodes(parent.prog@), x.node());
                assert(old_stack == stack@.push(pold));
                lemma_push_last(stack@, pold);
            }
            parent.prog.push(x);
            parent.stable = parent.stable && st;
            proof {
                assert(nodes(parent.prog@) == nodes(pold.prog@).push(x.node()));
                assert(unparse(nodes(parent.prog@)) == unparse(nodes(pold.prog@)) + unparse_node(x.node()));
                assert(cmds(code@.take(i + 1)) =~= frames_src(stack@) + unparse(nodes(parent.prog@)));
            }
            cur = parent;
        } else {
            proof {
                assert(cmds(code@.take(i + 1)) == cmds(code@.take(i)));
            }
        }
        proof {
            i = i + 1;
            assert(code@.subrange(i, n) =~= code@.subrange(i - 1, n).drop_first());
        }
    }
    proof {
        assert(code@.take(i) =~= code@);
    }
    if stack.len() > 0 {
        return Err("Unmatched [".to_owned());
    }
    proof {
        assert(frames_src(stack@) =~= Seq::<char>::empty());
        assert(unparse(nodes(cur.prog@)) =~= cmds(code@));
    }
    Ok(cur.prog)
}

} // verus!
