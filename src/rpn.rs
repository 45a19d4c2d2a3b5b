use vstd::prelude::*;
use vstd::string::*;
use crate::model::{
    priority, priority_table, token_priority, depth, balanced, Scan, flushed, scan_start,
    scan_step, scan_from, tokens_of, texts, is_char_token, Conv,
    conv_start, conv_from, pop_to_open, pop_while_ge, drain, rpn_of, Tree, post_step,
    post_from, tree_of, expression_of,
};
use crate::expr::{Expr, trees};
use crate::text::{single_char, char_token, push_char, is_numeric, is_number_token};
use crate::model::{lemma_scan_none, lemma_post_none, adjacent_ops, lemma_scan_fails_iff_adjacent};

verus! {

/// The expression evaluator. It holds the operator table, built once and
/// never changed.
pub struct Rpn {
    priority: Vec<(char, i32)>,
}

impl Rpn {
    #[verifier::type_invariant]
    spec fn inv(&self) -> bool {
        self.priority@ == priority_table()
    }

    /// The operator table.
    pub closed spec fn table(&self) -> Seq<(char, i32)> {
        self.priority@
    }

    pub fn new() -> (r: Rpn)
        ensures
            r.table() == priority_table(),
    {
        let mut priority: Vec<(char, i32)> = Vec::new();
        priority.push(('^', 3));
        priority.push(('+', 1));
        priority.push(('-', 1));
        priority.push(('*', 2));
        priority.push(('/', 2));
        assert(priority@ =~= priority_table());
        Rpn { priority }
    }

    /// Precedence of an operator character, looked up in the table; 0 when absent.
    fn lookup(&self, c: char) -> (r: i32)
        ensures
            r == priority(c),
    {
        proof {
            use_type_invariant(self);
        }
        let n = self.priority.len();
        let mut i: usize = 0;
        while i < n
            invariant
                n == self.priority@.len(),
                self.priority@ == priority_table(),
                i <= n,
                forall|j: int| 0 <= j < i ==> (#[trigger] self.priority@[j]).0 != c,
            decreases n - i,
        {
            let (k, p) = self.priority[i];
            if k == c {
                return p;
            }
            i += 1;
        }
        assert(self.priority@[0].0 != c);
        assert(self.priority@[1].0 != c);
        assert(self.priority@[2].0 != c);
        assert(self.priority@[3].0 != c);
        assert(self.priority@[4].0 != c);
        0
    }

    /// Precedence of a token: that of its operator, or 0 for any other token.
    pub fn get_priority(&self, key: &str) -> (r: i32)
        ensures
            r == token_priority(key@),
    {
        match single_char(key) {
            Some(c) => self.lookup(c),
            None => 0,
        }
    }

    /// Whether the brackets of the text are balanced: the nesting depth never
    /// goes below zero and ends at zero.
    pub fn check_brackets(equation: &String) -> (r: bool)
        ensures
            r == balanced(equation@),
    {
        let s = equation.as_str();
        let n = s.unicode_len();
        let mut count: usize = 0;
        let mut i: usize = 0;
        while i < n
            invariant
                n == s@.len(),
                s@ == equation@,
                i <= n,
                count <= i,
                count == depth(s@.take(i as int)),
                forall|k: int| 0 <= k <= i ==> depth(#[trigger] s@.take(k)) >= 0,
            decreases n - i,
        {
            let c = s.get_char(i);
            assert(s@.take(i + 1).drop_last() =~= s@.take(i as int));
            if c == '(' {
                count += 1;
            } else if c == ')' {
                if count == 0 {
                    assert(depth(s@.take(i + 1)) < 0);
                    return false;
                }
                count -= 1;
            }
            i += 1;
        }
        assert(s@.take(n as int) =~= s@);
        count == 0
    }

    /// Moves the pending number text, if any, to the end of the token list.
    pub fn flush_buffer(buffer: &mut String, result: &mut Vec<String>)
        ensures
            texts(final(result)@) == flushed(texts(old(result)@), old(buffer)@),
            final(buffer)@ == Seq::<char>::empty(),
    {
        if !buffer.as_str().is_empty() {
            let t = buffer.clone();
            result.push(t);
            assert(texts(result@) =~= texts(old(result)@).push(old(buffer)@));
            *buffer = String::new();
        } else {
            *buffer = String::new();
        }
    }

    /// Splits a text into tokens: number literals, operators and brackets.
    /// Other characters are dropped; a minus with no pending number before it
    /// becomes the two tokens `0` and `-`. Fails when an operator character
    /// directly follows another.
    pub fn split(&self, equation: String) -> (r: Option<Vec<String>>)
        ensures
            match r {
                None => tokens_of(equation@) is None,
                Some(v) => tokens_of(equation@) == Some(texts(v@)),
            },
            r is None <==> adjacent_ops(equation@),
    {
        proof {
            lemma_scan_fails_iff_adjacent(equation@);
        }
        let s = equation.as_str();
        let n = s.unicode_len();
        let mut buffer = String::new();
        let mut result: Vec<String> = Vec::new();
        let mut prev_char: char = '\0';
        let mut i: usize = 0;
        assert(s@.take(0) =~= Seq::<char>::empty());
        assert(texts(result@) =~= Seq::<Seq<char>>::empty());
        while i < n
            invariant
                n == s@.len(),
                s@ == equation@,
                i <= n,
                scan_from(Some(scan_start()), s@.take(i as int)) == Some(
                    Scan { toks: texts(result@), buf: buffer@, prev: prev_char },
                ),
            decreases n - i,
        {
            let c = s.get_char(i);
            assert(s@.take(i + 1).drop_last() =~= s@.take(i as int));
            assert(s@.take(i + 1).last() == c);
            let ghost before = Scan { toks: texts(result@), buf: buffer@, prev: prev_char };
            if is_numeric(c) {
                push_char(&mut buffer, c);
            } else if c == '(' || c == ')' {
                Self::flush_buffer(&mut buffer, &mut result);
                let t = char_token(c);
                let ghost mid = result@;
                result.push(t);
                assert(texts(result@) =~= texts(mid).push(seq![c]));
            } else if self.lookup(c) > 0 {
                if self.lookup(prev_char) > 0 {
                    assert(scan_step(Some(before), c) is None);
                    proof {
                        lemma_scan_none(Some(scan_start()), s@, i + 1);
                    }
                    return None;
                }
                if c == '-' && buffer.as_str().is_empty() {
                    let ghost mid = result@;
                    result.push(char_token('0'));
                    result.push(char_token('-'));
                    assert(texts(result@) =~= texts(mid).push(seq!['0']).push(seq!['-']));
                } else {
                    Self::flush_buffer(&mut buffer, &mut result);
                    let t = char_token(c);
                    let ghost mid = result@;
                    result.push(t);
                    assert(texts(result@) =~= texts(mid).push(seq![c]));
                }
            }
            prev_char = c;
            i += 1;
        }
        assert(s@.take(n as int) =~= s@);
        Self::flush_buffer(&mut buffer, &mut result);
        Some(result)
    }

    /// Whether the token is the one character `c`.
    fn is_char(t: &String, c: char) -> (r: bool)
        ensures
            r == is_char_token(t@, c),
    {
        match single_char(t.as_str()) {
            Some(d) => d == c,
            None => false,
        }
    }

    /// Pops the top of `stack` onto the end of `output`.
    fn move_top(output: &mut Vec<String>, stack: &mut Vec<String>)
        requires
            old(stack)@.len() > 0,
        ensures
            texts(final(output)@) == texts(old(output)@).push(texts(old(stack)@).last()),
            texts(final(stack)@) == texts(old(stack)@).drop_last(),
            final(stack)@.len() == old(stack)@.len() - 1,
    {
        let ghost s0 = stack@;
        match stack.pop() {
            Some(t) => {
                output.push(t);
            },
            None => {},
        }
        assert(texts(stack@) =~= texts(s0).drop_last());
        assert(texts(output@) =~= texts(old(output)@).push(texts(s0).last()));
    }

    /// Reorders infix tokens into postfix order by operator precedence
    /// (shunting-yard). Operators of equal precedence associate to the left,
    /// `^` included. Tokens that are neither number literals, brackets nor
    /// operators are dropped.
    pub fn convert_to_rpn(&self, tokens: Vec<String>) -> (r: Vec<String>)
        ensures
            texts(r@) == rpn_of(texts(tokens@)),
    {
        let ghost ts = texts(tokens@);
        let mut output: Vec<String> = Vec::new();
        let mut stack: Vec<String> = Vec::new();
        let n = tokens.len();
        let mut i: usize = 0;
        assert(ts.take(0) =~= Seq::<Seq<char>>::empty());
        assert(texts(output@) =~= Seq::<Seq<char>>::empty());
        assert(texts(stack@) =~= Seq::<Seq<char>>::empty());
        while i < n
            invariant
                n == tokens@.len(),
                ts == texts(tokens@),
                i <= n,
                conv_from(conv_start(), ts.take(i as int)) == (Conv {
                    out: texts(output@),
                    stack: texts(stack@),
                }),
            decreases n - i,
        {
            let token = tokens[i].clone();
            assert(ts.take(i + 1).drop_last() =~= ts.take(i as int));
            assert(ts.take(i + 1).last() == token@);
            let ghost before = Conv { out: texts(output@), stack: texts(stack@) };
            if is_number_token(token.as_str()) {
                let ghost o = output@;
                output.push(token);
                assert(texts(output@) =~= texts(o).push(ts[i as int]));
            } else if Self::is_char(&token, '(') {
                let ghost st = stack@;
                stack.push(token);
                assert(texts(stack@) =~= texts(st).push(ts[i as int]));
            } else if Self::is_char(&token, ')') {
                while stack.len() > 0 && !Self::is_char(&stack[stack.len() - 1], '(')
                    invariant
                        pop_to_open(texts(output@), texts(stack@)) == pop_to_open(
                            before.out,
                            before.stack,
                        ),
                    decreases stack.len(),
                {
                    Self::move_top(&mut output, &mut stack);
                }
                let ghost st = stack@;
                stack.pop();
                assert(st.len() > 0 ==> texts(stack@) =~= texts(st).drop_last());
                assert(st.len() == 0 ==> texts(stack@) =~= texts(st));
            } else {
                match single_char(token.as_str()) {
                    Some(c) => {
                        let p = self.lookup(c);
                        if p > 0 {
                            while stack.len() > 0 && self.get_priority(
                                stack[stack.len() - 1].as_str(),
                            ) >= p
                                invariant
                                    p == priority(c),
                                    pop_while_ge(texts(output@), texts(stack@), p as int)
                                        == pop_while_ge(before.out, before.stack, p as int),
                                decreases stack.len(),
                            {
                                Self::move_top(&mut output, &mut stack);
                            }
                            let ghost st = stack@;
                            stack.push(token);
                            assert(texts(stack@) =~= texts(st).push(ts[i as int]));
                        }
                    },
                    None => {},
                }
            }
            i += 1;
        }
        assert(ts.take(n as int) =~= ts);
        let ghost c = Conv { out: texts(output@), stack: texts(stack@) };
        while stack.len() > 0
            invariant
                drain(texts(output@), texts(stack@)) == drain(c.out, c.stack),
            decreases stack.len(),
        {
            Self::move_top(&mut output, &mut stack);
        }
        output
    }

    /// Runs the postfix stack machine: a number literal pushes a leaf, an
    /// operator pops its right operand, then its left one, and pushes the
    /// operator applied to them. Fails on a missing operand, on a token that
    /// is neither an operator nor a number literal, and when the stack does
    /// not end with exactly one expression.
    pub fn evaluate_rpn(&self, rpn: &Vec<String>) -> (r: Option<Expr>)
        ensures
            match r {
                None => tree_of(texts(rpn@)) is None,
                Some(e) => tree_of(texts(rpn@)) == Some(e.tree()),
            },
    {
        let ghost ts = texts(rpn@);
        let mut stack: Vec<Expr> = Vec::new();
        let n = rpn.len();
        let mut i: usize = 0;
        assert(ts.take(0) =~= Seq::<Seq<char>>::empty());
        assert(trees(stack@) =~= Seq::<Tree>::empty());
        while i < n
            invariant
                n == rpn@.len(),
                ts == texts(rpn@),
                i <= n,
                post_from(Some(seq![]), ts.take(i as int)) == Some(trees(stack@)),
            decreases n - i,
        {
            let token = &rpn[i];
            assert(ts.take(i + 1).drop_last() =~= ts.take(i as int));
            assert(ts.take(i + 1).last() == token@);
            let ghost before = trees(stack@);
            let op = match single_char(token.as_str()) {
                Some(c) => if self.lookup(c) > 0 {
                    Some(c)
                } else {
                    None
                },
                None => None,
            };
            match op {
                Some(c) => {
                    if stack.len() < 2 {
                        assert(post_step(Some(before), token@) is None);
                        proof {
                            lemma_post_none(Some(seq![]), ts, i + 1);
                        }
                        return None;
                    }
                    let ghost s0 = stack@;
                    let a = stack.pop().unwrap();
                    let b = stack.pop().unwrap();
                    let e = Expr::Bin(c, Box::new(b), Box::new(a));
                    assert(stack@ =~= s0.drop_last().drop_last());
                    stack.push(e);
                    assert(trees(stack@) =~= trees(s0).drop_last().drop_last().push(
                        Tree::Node(c, Box::new(trees(s0).drop_last().last()), Box::new(trees(s0).last())),
                    ));
                },
                None => {
                    if is_number_token(token.as_str()) {
                        let ghost s0 = stack@;
                        stack.push(Expr::Num(token.clone()));
                        assert(trees(stack@) =~= trees(s0).push(Tree::Leaf(token@)));
                    } else {
                        assert(post_step(Some(before), token@) is None);
                        proof {
                            lemma_post_none(Some(seq![]), ts, i + 1);
                        }
                        return None;
                    }
                },
            }
            i += 1;
        }
        assert(ts.take(n as int) =~= ts);
        if stack.len() == 1 {
            stack.pop()
        } else {
            None
        }
    }

    /// Reads a text into the expression it denotes: the brackets are checked
    /// first, then the text is split into tokens, put in postfix order and run
    /// through the postfix stack machine. `None` when any stage fails.
    pub fn parse_expression(&self, equation: String) -> (r: Option<Expr>)
        ensures
            match r {
                None => expression_of(equation@) is None,
                Some(e) => expression_of(equation@) == Some(e.tree()),
            },
    {
        if !Self::check_brackets(&equation) {
            return None;
        }
        match self.split(equation) {
            Some(tokens) => {
                let postfix = self.convert_to_rpn(tokens);
                self.evaluate_rpn(&postfix)
            },
            None => None,
        }
    }
}

} // verus!
