//! Uniqueness of the parse tree of a source text.

use vstd::prelude::*;
use crate::ir::Node;
use crate::parse::{depth, unparse, unparse_node, parsed_form, flags_ok, shift_sum, nested_stable};

verus! {

proof fn lemma_depth_concat(a: Seq<char>, b: Seq<char>)
    ensures
        depth(a + b) == depth(a) + depth(b),
    decreases b.len(),
{
    if b.len() == 0 {
        assert(a + b =~= a);
    } else {
        lemma_depth_concat(a, b.drop_last());
        assert((a + b).drop_last() =~= a + b.drop_last());
        assert((a + b).last() == b.last());
    }
}

/// The source of a parser-shaped tree is balanced, and a block's source is
/// positive strictly inside.
proof fn lemma_unparse_balanced(t: Seq<Node>)
    requires
        parsed_form(t),
    ensures
        depth(unparse(t)) == 0,
        forall|i: int| 0 <= i <= unparse(t).len() ==> #[trigger] depth(unparse(t).take(i)) >= 0,
        t.len() > 0 ==> unparse(t).len() > 0,
    decreases t,
{
    if t.len() > 0 {
        let p = t.drop_last();
        lemma_unparse_balanced(p);
        let u = unparse(p);
        let w = unparse_node(t.last());
        let s = unparse(t);
        assert(s == u + w);
        match t.last() {
            Node::Block(b, _) => {
                lemma_unparse_balanced(b);
                lemma_block_depths(u, unparse(b));
            },
            _ => {
                assert(w.len() == 1 && w[0] != '[' && w[0] != ']');
                assert(w.drop_last() =~= Seq::<char>::empty());
                assert(w.last() == w[0]);
                assert(depth(Seq::<char>::empty()) == 0);
                assert(depth(w) == 0);
                lemma_depth_concat(u, w);
                assert forall|i: int| 0 <= i <= s.len() implies #[trigger] depth(s.take(i)) >= 0 by {
                    if i <= u.len() {
                        assert(s.take(i) =~= u.take(i));
                    } else {
                        assert(s.take(i) =~= s);
                    }
                }
            },
        }
    }
}

/// For `s = u + [v]` with `u` and `v` balanced: `s` is balanced, and every prefix
/// longer than `u` and shorter than `s` is positive.
proof fn lemma_block_depths(u: Seq<char>, v: Seq<char>)
    requires
        depth(u) == 0,
        forall|i: int| 0 <= i <= u.len() ==> #[trigger] depth(u.take(i)) >= 0,
        depth(v) == 0,
        forall|i: int| 0 <= i <= v.len() ==> #[trigger] depth(v.take(i)) >= 0,
    ensures
        ({
            let s = u + (seq!['['] + v + seq![']']);
            &&& depth(s) == 0
            &&& forall|i: int| 0 <= i <= s.len() ==> #[trigger] depth(s.take(i)) >= 0
            &&& forall|i: int| u.len() < i < s.len() ==> #[trigger] depth(s.take(i)) >= 1
        }),
{
    let o = seq!['['];
    let c = seq![']'];
    let s = u + (o + v + c);
    assert(depth(Seq::<char>::empty()) == 0);
    assert(depth(o) == 1) by {
        assert(o.drop_last() =~= Seq::<char>::empty());
        assert(o.last() == '[');
    }
    assert(depth(c) == -1) by {
        assert(c.drop_last() =~= Seq::<char>::empty());
        assert(c.last() == ']');
    }
    lemma_depth_concat(o, v);
    lemma_depth_concat(o + v, c);
    lemma_depth_concat(u, o + v + c);
    assert forall|i: int| u.len() < i < s.len() implies #[trigger] depth(s.take(i)) >= 1 by {
        let j = i - u.len() - 1;
        assert(s.take(i) =~= u + (o + v.take(j)));
        lemma_depth_concat(o, v.take(j));
        lemma_depth_concat(u, o + v.take(j));
    }
    assert forall|i: int| 0 <= i <= s.len() implies #[trigger] depth(s.take(i)) >= 0 by {
        if i <= u.len() {
            assert(s.take(i) =~= u.take(i));
        } else if i == s.len() {
            assert(s.take(i) =~= s);
        } else {
            assert(depth(s.take(i)) >= 1);
        }
    }
}

/// A parser node's source is one character, or, for a block, ends in `]`.
proof fn lemma_unparse_node_shape(n: Node)
    requires
        parsed_form(seq![n]),
    ensures
        unparse_node(n).len() >= 1,
        unparse_node(n).last() == ']' <==> n is Block,
        !(n is Block) ==> unparse_node(n).len() == 1,
{
    assert(seq![n].drop_last() =~= Seq::<Node>::empty());
    assert(seq![n].last() == n);
    if let Node::Block(b, _) = n {
        assert(unparse_node(n).last() == ']');
    }
}

proof fn lemma_parsed_parts(t: Seq<Node>)
    requires
        parsed_form(t),
        flags_ok(t),
        t.len() > 0,
    ensures
        parsed_form(t.drop_last()),
        flags_ok(t.drop_last()),
        parsed_form(seq![t.last()]),
        t.last() is Block ==> parsed_form(t.last()->Block_0) && flags_ok(t.last()->Block_0)
            && t.last()->Block_1 == (shift_sum(t.last()->Block_0) == 0 && nested_stable(t.last()->Block_0)),
{
    assert(seq![t.last()].drop_last() =~= Seq::<Node>::empty());
    assert(seq![t.last()].last() == t.last());
    assert(parsed_form(Seq::<Node>::empty()));
}

/// The parser's tree is determined by the source: two parser-shaped trees with
/// correct stability flags and the same source are equal.
pub proof fn lemma_parse_unique(t1: Seq<Node>, t2: Seq<Node>)
    requires
        parsed_form(t1),
        flags_ok(t1),
        parsed_form(t2),
        flags_ok(t2),
        unparse(t1) == unparse(t2),
    ensures
        t1 == t2,
    decreases unparse(t1).len(),
{
    lemma_unparse_balanced(t1);
    lemma_unparse_balanced(t2);
    let s = unparse(t1);
    if t1.len() == 0 || t2.len() == 0 {
        assert(t1 =~= t2);
    } else {
        lemma_parsed_parts(t1);
        lemma_parsed_parts(t2);
        let (pre1, n1) = (t1.drop_last(), t1.last());
        let (pre2, n2) = (t2.drop_last(), t2.last());
        lemma_unparse_node_shape(n1);
        lemma_unparse_node_shape(n2);
        let (u1, w1) = (unparse(pre1), unparse_node(n1));
        let (u2, w2) = (unparse(pre2), unparse_node(n2));
        assert(s == u1 + w1);
        assert(s == u2 + w2);
        assert(s.last() == w1.last() && s.last() == w2.last());
        if n1 is Block {
            let (b1, b2) = (n1->Block_0, n2->Block_0);
            lemma_unparse_balanced(pre1);
            lemma_unparse_balanced(pre2);
            lemma_unparse_balanced(b1);
            lemma_unparse_balanced(b2);
            lemma_block_depths(u1, unparse(b1));
            lemma_block_depths(u2, unparse(b2));
            assert(w1 == seq!['['] + unparse(b1) + seq![']']);
            assert(w2 == seq!['['] + unparse(b2) + seq![']']);
            if u1.len() < u2.len() {
                assert(s.take(u2.len() as int) =~= u2);
                assert(depth(s.take(u2.len() as int)) >= 1);
            }
            if u2.len() < u1.len() {
                assert(s.take(u1.len() as int) =~= u1);
                assert(depth(s.take(u1.len() as int)) >= 1);
            }
            assert(u1 =~= s.take(u1.len() as int));
            assert(u2 =~= s.take(u2.len() as int));
            assert(unparse(b1) =~= s.subrange(u1.len() as int + 1, s.len() as int - 1));
            assert(unparse(b2) =~= s.subrange(u2.len() as int + 1, s.len() as int - 1));
            lemma_parse_unique(pre1, pre2);
            lemma_parse_unique(b1, b2);
        } else {
            assert(u1 =~= s.drop_last());
            assert(u2 =~= s.drop_last());
            lemma_parse_unique(pre1, pre2);
            assert(w1 =~= w2);
            assert(n1 == n2);
        }
        assert(t1 =~= pre1.push(n1));
        assert(t2 =~= pre2.push(n2));
    }
}

} // verus!
