use vstd::prelude::*;

verus! {

// ---------------------------------------------------------------------------
// Characters and operators
// ---------------------------------------------------------------------------

/// Precedence of an operator symbol; 0 for anything that is not an operator.
pub open spec fn priority(c: char) -> int {
    if c == '^' {
        3
    } else if c == '*' || c == '/' {
        2
    } else if c == '+' || c == '-' {
        1
    } else {
        0
    }
}

pub open spec fn is_op(c: char) -> bool {
    priority(c) > 0
}

/// The operator table, in the order in which it is built.
pub open spec fn priority_table() -> Seq<(char, i32)> {
    seq![('^', 3i32), ('+', 1i32), ('-', 1i32), ('*', 2i32), ('/', 2i32)]
}

pub open spec fn is_digit(c: char) -> bool {
    '0' <= c && c <= '9'
}

/// A character that belongs to a number literal.
pub open spec fn is_numeric_char(c: char) -> bool {
    is_digit(c) || c == '.'
}

/// A token made of the single character `c`.
pub open spec fn is_char_token(t: Seq<char>, c: char) -> bool {
    t.len() == 1 && t[0] == c
}

pub open spec fn is_operator_token(t: Seq<char>) -> bool {
    t.len() == 1 && is_op(t[0])
}

/// Precedence of a token: that of its operator, or 0.
pub open spec fn token_priority(t: Seq<char>) -> int {
    if t.len() == 1 {
        priority(t[0])
    } else {
        0
    }
}

/// A decimal literal: digits with at most one point, and at least one digit.
pub open spec fn is_number(t: Seq<char>) -> bool {
    &&& forall|i: int| 0 <= i < t.len() ==> is_numeric_char(#[trigger] t[i])
    &&& exists|i: int| 0 <= i < t.len() && is_digit(#[trigger] t[i])
    &&& forall|i: int, j: int|
        0 <= i < t.len() && 0 <= j < t.len() && #[trigger] t[i] == '.' && #[trigger] t[j] == '.'
            ==> i == j
}

// ---------------------------------------------------------------------------
// Brackets
// ---------------------------------------------------------------------------

pub open spec fn bracket_delta(c: char) -> int {
    if c == '(' {
        1
    } else if c == ')' {
        -1
    } else {
        0
    }
}

/// Nesting depth after reading all of `s`.
pub open spec fn depth(s: Seq<char>) -> int
    decreases s.len(),
{
    if s.len() == 0 {
        0
    } else {
        depth(s.drop_last()) + bracket_delta(s.last())
    }
}

/// The depth never goes below zero and ends at zero.
pub open spec fn balanced(s: Seq<char>) -> bool {
    &&& forall|i: int| 0 <= i <= s.len() ==> depth(#[trigger] s.take(i)) >= 0
    &&& depth(s) == 0
}

// ---------------------------------------------------------------------------
// Tokenizer
// ---------------------------------------------------------------------------

/// Tokenizer state: tokens so far, the pending number text, the previous character.
pub struct Scan {
    pub toks: Seq<Seq<char>>,
    pub buf: Seq<char>,
    pub prev: char,
}

pub open spec fn flushed(toks: Seq<Seq<char>>, buf: Seq<char>) -> Seq<Seq<char>> {
    if buf.len() == 0 {
        toks
    } else {
        toks.push(buf)
    }
}

pub open spec fn scan_start() -> Scan {
    Scan { toks: seq![], buf: seq![], prev: '\0' }
}

/// One character of the tokenizer; `None` once two operators stood side by side.
pub open spec fn scan_step(st: Option<Scan>, c: char) -> Option<Scan> {
    match st {
        None => None,
        Some(s) => if is_numeric_char(c) {
            Some(Scan { toks: s.toks, buf: s.buf.push(c), prev: c })
        } else if c == '(' || c == ')' {
            Some(Scan { toks: flushed(s.toks, s.buf).push(seq![c]), buf: seq![], prev: c })
        } else if is_op(c) {
            if is_op(s.prev) {
                None
            } else if c == '-' && s.buf.len() == 0 {
                Some(Scan { toks: s.toks.push(seq!['0']).push(seq!['-']), buf: s.buf, prev: c })
            } else {
                Some(Scan { toks: flushed(s.toks, s.buf).push(seq![c]), buf: seq![], prev: c })
            }
        } else {
            Some(Scan { toks: s.toks, buf: s.buf, prev: c })
        },
    }
}

pub open spec fn scan_from(st: Option<Scan>, s: Seq<char>) -> Option<Scan>
    decreases s.len(),
{
    if s.len() == 0 {
        st
    } else {
        scan_step(scan_from(st, s.drop_last()), s.last())
    }
}

/// The token sequence of a text, or `None` where two operators are adjacent.
pub open spec fn tokens_of(s: Seq<char>) -> Option<Seq<Seq<char>>> {
    match scan_from(Some(scan_start()), s) {
        None => None,
        Some(st) => Some(flushed(st.toks, st.buf)),
    }
}

/// Two operator characters stand side by side somewhere in the text.
pub open spec fn adjacent_ops(s: Seq<char>) -> bool {
    exists|i: int| 1 <= i < s.len() && is_op(s[i - 1]) && is_op(#[trigger] s[i])
}

/// The tokenizer fails exactly on texts with two adjacent operator characters,
/// and otherwise remembers the last character it read.
pub proof fn lemma_scan_fails_iff_adjacent(s: Seq<char>)
    ensures
        scan_from(Some(scan_start()), s) is None <==> adjacent_ops(s),
        scan_from(Some(scan_start()), s) matches Some(st) ==> st.prev == (if s.len() == 0 {
            '\0'
        } else {
            s.last()
        }),
    decreases s.len(),
{
    if s.len() > 0 {
        let p = s.drop_last();
        lemma_scan_fails_iff_adjacent(p);
        if adjacent_ops(p) {
            let i = choose|i: int| 1 <= i < p.len() && is_op(p[i - 1]) && is_op(#[trigger] p[i]);
            assert(s[i - 1] == p[i - 1] && s[i] == p[i]);
        }
        if adjacent_ops(s) {
            let i = choose|i: int| 1 <= i < s.len() && is_op(s[i - 1]) && is_op(#[trigger] s[i]);
            if i < s.len() - 1 {
                assert(p[i - 1] == s[i - 1] && p[i] == s[i]);
            }
        }
        if p.len() > 0 && is_op(p.last()) && is_op(s.last()) {
            assert(s[s.len() - 2] == p.last());
        }
    }
}

// ---------------------------------------------------------------------------
// Infix to postfix
// ---------------------------------------------------------------------------

/// Converter state: the output so far and the operator stack (top last).
pub struct Conv {
    pub out: Seq<Seq<char>>,
    pub stack: Seq<Seq<char>>,
}

/// Moves operators to the output until an open bracket is on top.
pub open spec fn pop_to_open(out: Seq<Seq<char>>, stack: Seq<Seq<char>>) -> Conv
    decreases stack.len(),
{
    if stack.len() == 0 || is_char_token(stack.last(), '(') {
        Conv { out, stack }
    } else {
        pop_to_open(out.push(stack.last()), stack.drop_last())
    }
}

/// Moves operators to the output while the top binds at least as tightly as `p`.
pub open spec fn pop_while_ge(out: Seq<Seq<char>>, stack: Seq<Seq<char>>, p: int) -> Conv
    decreases stack.len(),
{
    if stack.len() == 0 || token_priority(stack.last()) < p {
        Conv { out, stack }
    } else {
        pop_while_ge(out.push(stack.last()), stack.drop_last(), p)
    }
}

pub open spec fn conv_step(c: Conv, t: Seq<char>) -> Conv {
    if is_number(t) {
        Conv { out: c.out.push(t), stack: c.stack }
    } else if is_char_token(t, '(') {
        Conv { out: c.out, stack: c.stack.push(t) }
    } else if is_char_token(t, ')') {
        let d = pop_to_open(c.out, c.stack);
        Conv {
            out: d.out,
            stack: if d.stack.len() == 0 {
                d.stack
            } else {
                d.stack.drop_last()
            },
        }
    } else if is_operator_token(t) {
        let d = pop_while_ge(c.out, c.stack, priority(t[0]));
        Conv { out: d.out, stack: d.stack.push(t) }
    } else {
        c
    }
}

pub open spec fn conv_from(c: Conv, ts: Seq<Seq<char>>) -> Conv
    decreases ts.len(),
{
    if ts.len() == 0 {
        c
    } else {
        conv_step(conv_from(c, ts.drop_last()), ts.last())
    }
}

/// Appends the stack to the output, top first.
pub open spec fn drain(out: Seq<Seq<char>>, stack: Seq<Seq<char>>) -> Seq<Seq<char>>
    decreases stack.len(),
{
    if stack.len() == 0 {
        out
    } else {
        drain(out.push(stack.last()), stack.drop_last())
    }
}

pub open spec fn conv_start() -> Conv {
    Conv { out: seq![], stack: seq![] }
}

/// The postfix order of an infix token sequence.
pub open spec fn rpn_of(ts: Seq<Seq<char>>) -> Seq<Seq<char>> {
    let c = conv_from(conv_start(), ts);
    drain(c.out, c.stack)
}

// ---------------------------------------------------------------------------
// Postfix evaluation
// ---------------------------------------------------------------------------

/// An arithmetic expression: a number literal, or an operator on a left and a right operand.
pub enum Tree {
    Leaf(Seq<char>),
    Node(char, Box<Tree>, Box<Tree>),
}

/// One token of the postfix stack machine; `None` on a missing operand or a stray token.
pub open spec fn post_step(st: Option<Seq<Tree>>, t: Seq<char>) -> Option<Seq<Tree>> {
    match st {
        None => None,
        Some(s) => if is_operator_token(t) {
            if s.len() < 2 {
                None
            } else {
                let a = s.last();
                let rest = s.drop_last();
                let b = rest.last();
                Some(rest.drop_last().push(Tree::Node(t[0], Box::new(b), Box::new(a))))
            }
        } else if is_number(t) {
            Some(s.push(Tree::Leaf(t)))
        } else {
            None
        },
    }
}

pub open spec fn post_from(st: Option<Seq<Tree>>, ts: Seq<Seq<char>>) -> Option<Seq<Tree>>
    decreases ts.len(),
{
    if ts.len() == 0 {
        st
    } else {
        post_step(post_from(st, ts.drop_last()), ts.last())
    }
}

/// The expression a postfix sequence denotes: exactly one value must remain.
pub open spec fn tree_of(ts: Seq<Seq<char>>) -> Option<Tree> {
    match post_from(Some(seq![]), ts) {
        Some(s) => if s.len() == 1 {
            Some(s[0])
        } else {
            None
        },
        None => None,
    }
}

/// The whole pipeline on a text.
pub open spec fn expression_of(s: Seq<char>) -> Option<Tree> {
    if !balanced(s) {
        None
    } else {
        match tokens_of(s) {
            None => None,
            Some(ts) => tree_of(rpn_of(ts)),
        }
    }
}

/// The texts of a sequence of strings.
pub open spec fn texts(v: Seq<String>) -> Seq<Seq<char>> {
    v.map_values(|t: String| t@)
}

/// Once the tokenizer has failed on a prefix, it fails on the whole text.
pub proof fn lemma_scan_none(st: Option<Scan>, s: Seq<char>, k: int)
    requires
        0 <= k <= s.len(),
        scan_from(st, s.take(k)) is None,
    ensures
        scan_from(st, s) is None,
    decreases s.len() - k,
{
    if k < s.len() {
        assert(s.take(k + 1).drop_last() =~= s.take(k));
        lemma_scan_none(st, s, k + 1);
    } else {
        assert(s.take(k) =~= s);
    }
}

/// Once the postfix stack machine has failed on a prefix, it fails on the whole sequence.
pub proof fn lemma_post_none(st: Option<Seq<Tree>>, s: Seq<Seq<char>>, k: int)
    requires
        0 <= k <= s.len(),
        post_from(st, s.take(k)) is None,
    ensures
        post_from(st, s) is None,
    decreases s.len() - k,
{
    if k < s.len() {
        assert(s.take(k + 1).drop_last() =~= s.take(k));
        lemma_post_none(st, s, k + 1);
    } else {
        assert(s.take(k) =~= s);
    }
}

} // verus!
