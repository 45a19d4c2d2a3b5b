use vstd::prelude::*;
use crate::model::{
    is_op, is_digit, is_numeric_char, is_number, depth, balanced, Scan, flushed,
    scan_step, scan_from, tokens_of, Conv, conv_step, conv_from,
    pop_to_open, pop_while_ge, rpn_of, Tree, post_step, post_from, tree_of, expression_of,
};

verus! {

/// An expression that can be written fully bracketed: its leaves are number
/// literals and its operators are the five of the table. A `-` whose left
/// operand is itself bracketed is left out: the tokenizer reads a minus that
/// follows a closing bracket as a leading minus (`0 -`).
pub open spec fn well_formed(e: Tree) -> bool
    decreases e,
{
    match e {
        Tree::Leaf(t) => is_number(t),
        Tree::Node(c, l, r) => is_op(c) && well_formed(*l) && well_formed(*r) && !(c == '-'
            && (*l is Node)),
    }
}

/// The fully bracketed text of an expression: `(left op right)` for each operator.
pub open spec fn render(e: Tree) -> Seq<char>
    decreases e,
{
    match e {
        Tree::Leaf(t) => t,
        Tree::Node(c, l, r) => seq!['('] + render(*l) + seq![c] + render(*r) + seq![')'],
    }
}

/// The tokens of the fully bracketed text.
pub open spec fn infix(e: Tree) -> Seq<Seq<char>>
    decreases e,
{
    match e {
        Tree::Leaf(t) => seq![t],
        Tree::Node(c, l, r) => seq![seq!['(']] + infix(*l) + seq![seq![c]] + infix(*r) + seq![
            seq![')'],
        ],
    }
}

/// The postfix tokens of an expression: left operand, right operand, operator.
pub open spec fn postfix(e: Tree) -> Seq<Seq<char>>
    decreases e,
{
    match e {
        Tree::Leaf(t) => seq![t],
        Tree::Node(c, l, r) => postfix(*l) + postfix(*r) + seq![seq![c]],
    }
}

pub open spec fn nonneg_prefixes(s: Seq<char>) -> bool {
    forall|k: int| 0 <= k <= s.len() ==> depth(#[trigger] s.take(k)) >= 0
}

pub proof fn lemma_depth_concat(a: Seq<char>, b: Seq<char>)
    ensures
        depth(a + b) == depth(a) + depth(b),
    decreases b.len(),
{
    if b.len() == 0 {
        assert(a + b =~= a);
    } else {
        assert((a + b).drop_last() =~= a + b.drop_last());
        lemma_depth_concat(a, b.drop_last());
    }
}

pub proof fn lemma_nonneg_concat(a: Seq<char>, b: Seq<char>)
    requires
        nonneg_prefixes(a),
        nonneg_prefixes(b),
        depth(a) >= 0,
    ensures
        nonneg_prefixes(a + b),
{
    assert forall|k: int| 0 <= k <= (a + b).len() implies depth(#[trigger] (a + b).take(k))
        >= 0 by {
        if k <= a.len() {
            assert((a + b).take(k) =~= a.take(k));
        } else {
            assert((a + b).take(k) =~= a + b.take(k - a.len()));
            lemma_depth_concat(a, b.take(k - a.len()));
            assert(depth(b.take(k - a.len())) >= 0);
        }
    }
}

pub proof fn lemma_numeric_depth(t: Seq<char>)
    requires
        forall|i: int| 0 <= i < t.len() ==> is_numeric_char(#[trigger] t[i]),
    ensures
        depth(t) == 0,
        nonneg_prefixes(t),
    decreases t.len(),
{
    if t.len() > 0 {
        assert(is_numeric_char(t[t.len() - 1]));
        lemma_numeric_depth(t.drop_last());
    }
    assert forall|k: int| 0 <= k <= t.len() implies depth(#[trigger] t.take(k)) >= 0 by {
        if k < t.len() {
            let p = t.take(k);
            assert forall|i: int| 0 <= i < p.len() implies is_numeric_char(#[trigger] p[i]) by {
                assert(p[i] == t[i]);
            }
            lemma_numeric_depth(p);
        } else {
            assert(t.take(k) =~= t);
        }
    }
}

pub proof fn lemma_render_brackets(e: Tree)
    requires
        well_formed(e),
    ensures
        depth(render(e)) == 0,
        nonneg_prefixes(render(e)),
    decreases e,
{
    match e {
        Tree::Leaf(t) => {
            lemma_numeric_depth(t);
        },
        Tree::Node(c, l, r) => {
            lemma_render_brackets(*l);
            lemma_render_brackets(*r);
            let open = seq!['('];
            let op = seq![c];
            assert(depth(open) == 1) by {
                assert(open.drop_last() =~= Seq::<char>::empty());
                assert(depth(open.drop_last()) == 0);
            }
            assert(depth(op) == 0) by {
                assert(op.drop_last() =~= Seq::<char>::empty());
                assert(depth(op.drop_last()) == 0);
            }
            assert(nonneg_prefixes(open)) by {
                assert(open.take(0) =~= Seq::<char>::empty());
                assert(open.take(1) =~= open);
            }
            assert(nonneg_prefixes(op)) by {
                assert(op.take(0) =~= Seq::<char>::empty());
                assert(op.take(1) =~= op);
            }
            let s1 = open + render(*l);
            lemma_depth_concat(open, render(*l));
            lemma_nonneg_concat(open, render(*l));
            let s2 = s1 + op;
            lemma_depth_concat(s1, op);
            lemma_nonneg_concat(s1, op);
            let s3 = s2 + render(*r);
            lemma_depth_concat(s2, render(*r));
            lemma_nonneg_concat(s2, render(*r));
            let s4 = s3 + seq![')'];
            assert(s4.drop_last() =~= s3);
            assert(render(e) == s4);
            assert forall|k: int| 0 <= k <= s4.len() implies depth(#[trigger] s4.take(k)) >= 0 by {
                if k <= s3.len() {
                    assert(s4.take(k) =~= s3.take(k));
                } else {
                    assert(s4.take(k) =~= s4);
                }
            }
        },
    }
}

pub proof fn lemma_scan_concat(st: Option<Scan>, a: Seq<char>, b: Seq<char>)
    ensures
        scan_from(st, a + b) == scan_from(scan_from(st, a), b),
    decreases b.len(),
{
    if b.len() == 0 {
        assert(a + b =~= a);
    } else {
        assert((a + b).drop_last() =~= a + b.drop_last());
        lemma_scan_concat(st, a, b.drop_last());
    }
}

pub proof fn lemma_scan_single(st: Option<Scan>, c: char)
    ensures
        scan_from(st, seq![c]) == scan_step(st, c),
{
    assert(seq![c].drop_last() =~= Seq::<char>::empty());
    assert(scan_from(st, seq![c].drop_last()) == st);
}

pub proof fn lemma_scan_number(st: Scan, t: Seq<char>)
    requires
        forall|i: int| 0 <= i < t.len() ==> is_numeric_char(#[trigger] t[i]),
    ensures
        scan_from(Some(st), t) == Some(
            Scan {
                toks: st.toks,
                buf: st.buf + t,
                prev: if t.len() == 0 {
                    st.prev
                } else {
                    t.last()
                },
            },
        ),
    decreases t.len(),
{
    if t.len() == 0 {
        assert(st.buf + t =~= st.buf);
    } else {
        assert(is_numeric_char(t[t.len() - 1]));
        lemma_scan_number(st, t.drop_last());
        assert(st.buf + t.drop_last() + seq![t.last()] =~= st.buf + t);
        assert((st.buf + t.drop_last()).push(t.last()) =~= st.buf + t);
    }
}

/// Tokenizing the bracketed text of `e` from an empty number buffer: a leaf
/// stays pending in the buffer, an operator node yields its tokens.
pub proof fn lemma_scan_tree(e: Tree, toks: Seq<Seq<char>>, prev: char)
    requires
        well_formed(e),
    ensures
        scan_from(Some(Scan { toks, buf: seq![], prev }), render(e)) == (match e {
            Tree::Leaf(t) => Some(Scan { toks, buf: t, prev: t.last() }),
            Tree::Node(_, _, _) => Some(Scan { toks: toks + infix(e), buf: seq![], prev: ')' }),
        }),
    decreases e,
{
    match e {
        Tree::Leaf(t) => {
            lemma_scan_number(Scan { toks, buf: seq![], prev }, t);
            assert(seq![] + t =~= t);
            assert(is_digit(t[choose|i: int| 0 <= i < t.len() && is_digit(t[i])]));
        },
        Tree::Node(c, l, r) => {
            let st0 = Some(Scan { toks, buf: seq![], prev });
            let open = seq!['('];
            lemma_scan_single(st0, '(');
            let t1 = toks.push(seq!['(']);
            let st1 = Some(Scan { toks: t1, buf: seq![], prev: '(' });
            assert(scan_from(st0, open) == st1);
            lemma_scan_concat(st0, open, render(*l));
            lemma_scan_tree(*l, t1, '(');
            let st2 = scan_from(st1, render(*l));
            let t2 = t1 + infix(*l);
            assert(st2 matches Some(s) && !is_op(s.prev) && flushed(s.toks, s.buf) == t2 && (s.buf.len() == 0 ==> (*l is Node))) by {
                match *l {
                    Tree::Leaf(u) => {
                        assert(well_formed(Tree::Leaf(u)));
                        assert(is_number(u));
                        assert(is_digit(u[choose|i: int| 0 <= i < u.len() && is_digit(u[i])]));
                        assert(is_numeric_char(u[u.len() - 1]));
                        assert(t1.push(u) =~= t1 + seq![u]);
                    },
                    Tree::Node(_, _, _) => {},
                }
            }
            lemma_scan_concat(st0, open + render(*l), seq![c]);
            lemma_scan_single(st2, c);
            let t3 = t2.push(seq![c]);
            let st3 = Some(Scan { toks: t3, buf: seq![], prev: c });
            assert(scan_step(st2, c) == st3);
            lemma_scan_concat(st0, open + render(*l) + seq![c], render(*r));
            lemma_scan_tree(*r, t3, c);
            let st4 = scan_from(st3, render(*r));
            let t4 = t3 + infix(*r);
            assert(st4 matches Some(s) && flushed(s.toks, s.buf) == t4) by {
                match *r {
                    Tree::Leaf(u) => {
                        assert(well_formed(Tree::Leaf(u)));
                        assert(is_number(u));
                        assert(is_digit(u[choose|i: int| 0 <= i < u.len() && is_digit(u[i])]));
                        assert(t3.push(u) =~= t3 + seq![u]);
                    },
                    Tree::Node(_, _, _) => {},
                }
            }
            lemma_scan_concat(st0, open + render(*l) + seq![c] + render(*r), seq![')']);
            lemma_scan_single(st4, ')');
            assert(toks + infix(e) =~= t4.push(seq![')']));
        },
    }
}

pub proof fn lemma_conv_concat(c: Conv, a: Seq<Seq<char>>, b: Seq<Seq<char>>)
    ensures
        conv_from(c, a + b) == conv_from(conv_from(c, a), b),
    decreases b.len(),
{
    if b.len() == 0 {
        assert(a + b =~= a);
    } else {
        assert((a + b).drop_last() =~= a + b.drop_last());
        lemma_conv_concat(c, a, b.drop_last());
    }
}

pub proof fn lemma_conv_single(c: Conv, t: Seq<char>)
    ensures
        conv_from(c, seq![t]) == conv_step(c, t),
{
    assert(seq![t].drop_last() =~= Seq::<Seq<char>>::empty());
    assert(conv_from(c, seq![t].drop_last()) == c);
}

/// Converting the tokens of a bracketed expression appends its postfix
/// tokens to the output and leaves the operator stack as it was.
pub proof fn lemma_conv_tree(e: Tree, out: Seq<Seq<char>>, stack: Seq<Seq<char>>)
    requires
        well_formed(e),
    ensures
        conv_from(Conv { out, stack }, infix(e)) == (Conv { out: out + postfix(e), stack }),
    decreases e,
{
    let c0 = Conv { out, stack };
    match e {
        Tree::Leaf(t) => {
            lemma_conv_single(c0, t);
            assert(out.push(t) =~= out + seq![t]);
        },
        Tree::Node(c, l, r) => {
            let open: Seq<char> = seq!['('];
            let close: Seq<char> = seq![')'];
            let op: Seq<char> = seq![c];
            assert(!is_number(open) && !is_number(close) && !is_number(op)) by {
                if is_number(open) {
                    let i = choose|i: int| 0 <= i < open.len() && is_digit(open[i]);
                }
                if is_number(close) {
                    let i = choose|i: int| 0 <= i < close.len() && is_digit(close[i]);
                }
                if is_number(op) {
                    let i = choose|i: int| 0 <= i < op.len() && is_digit(op[i]);
                }
            }
            lemma_conv_single(c0, open);
            let s1 = stack.push(open);
            let c1 = Conv { out, stack: s1 };
            assert(conv_from(c0, seq![open]) == c1);
            lemma_conv_concat(c0, seq![open], infix(*l));
            lemma_conv_tree(*l, out, s1);
            let o2 = out + postfix(*l);
            let c2 = Conv { out: o2, stack: s1 };
            lemma_conv_concat(c0, seq![open] + infix(*l), seq![op]);
            lemma_conv_single(c2, op);
            assert(pop_while_ge(o2, s1, crate::model::priority(c)) == (Conv { out: o2, stack: s1 }));
            let s3 = s1.push(op);
            let c3 = Conv { out: o2, stack: s3 };
            assert(conv_step(c2, op) == c3);
            lemma_conv_concat(c0, seq![open] + infix(*l) + seq![op], infix(*r));
            lemma_conv_tree(*r, o2, s3);
            let o4 = o2 + postfix(*r);
            let c4 = Conv { out: o4, stack: s3 };
            lemma_conv_concat(c0, seq![open] + infix(*l) + seq![op] + infix(*r), seq![close]);
            lemma_conv_single(c4, close);
            assert(s3.drop_last() =~= s1);
            assert(pop_to_open(o4.push(op), s1) == (Conv { out: o4.push(op), stack: s1 }));
            assert(pop_to_open(o4, s3) == (Conv { out: o4.push(op), stack: s1 }));
            assert(s1.drop_last() =~= stack);
            assert(out + postfix(e) =~= o4.push(op));
        },
    }
}

pub proof fn lemma_post_concat(st: Option<Seq<Tree>>, a: Seq<Seq<char>>, b: Seq<Seq<char>>)
    ensures
        post_from(st, a + b) == post_from(post_from(st, a), b),
    decreases b.len(),
{
    if b.len() == 0 {
        assert(a + b =~= a);
    } else {
        assert((a + b).drop_last() =~= a + b.drop_last());
        lemma_post_concat(st, a, b.drop_last());
    }
}

pub proof fn lemma_post_single(st: Option<Seq<Tree>>, t: Seq<char>)
    ensures
        post_from(st, seq![t]) == post_step(st, t),
{
    assert(seq![t].drop_last() =~= Seq::<Seq<char>>::empty());
    assert(post_from(st, seq![t].drop_last()) == st);
}

/// The postfix stack machine pushes the expression that its postfix tokens denote.
pub proof fn lemma_post_tree(e: Tree, s: Seq<Tree>)
    requires
        well_formed(e),
    ensures
        post_from(Some(s), postfix(e)) == Some(s.push(e)),
    decreases e,
{
    match e {
        Tree::Leaf(t) => {
            lemma_post_single(Some(s), t);
            assert(is_numeric_char(t[0]));
        },
        Tree::Node(c, l, r) => {
            lemma_post_concat(Some(s), postfix(*l) + postfix(*r), seq![seq![c]]);
            lemma_post_concat(Some(s), postfix(*l), postfix(*r));
            lemma_post_tree(*l, s);
            lemma_post_tree(*r, s.push(*l));
            lemma_post_single(Some(s.push(*l).push(*r)), seq![c]);
            assert(s.push(*l).push(*r).drop_last().drop_last() =~= s);
        },
    }
}

/// Every well-formed expression, written fully bracketed, reads back as
/// itself: left-associative grouping included, the text yields exactly the
/// tree it was written from, so its value is that of the tree.
pub proof fn lemma_bracketed_reads_back(e: Tree)
    requires
        well_formed(e),
    ensures
        expression_of(render(e)) == Some(e),
{
    lemma_render_brackets(e);
    assert(render(e).take(render(e).len() as int) =~= render(e));
    assert(balanced(render(e)));
    lemma_scan_tree(e, seq![], '\0');
    match e {
        Tree::Leaf(t) => {
            assert(is_digit(t[choose|i: int| 0 <= i < t.len() && is_digit(t[i])]));
            assert(seq![].push(t) =~= infix(e));
        },
        Tree::Node(_, _, _) => {
            assert(Seq::<Seq<char>>::empty() + infix(e) =~= infix(e));
        },
    }
    assert(tokens_of(render(e)) == Some(infix(e)));
    lemma_conv_tree(e, seq![], seq![]);
    assert(Seq::<Seq<char>>::empty() + postfix(e) =~= postfix(e));
    assert(rpn_of(infix(e)) == postfix(e));
    lemma_post_tree(e, seq![]);
    assert(tree_of(postfix(e)) == Some(e));
}

} // verus!
