use vstd::prelude::*;
use vstd::string::*;
use crate::number::{Number, literal_spec};
use crate::text::{push_char, copy_text};
use crate::equations::{Equation, Operator, Root, Tree, leaf_tree, trees_of};

verus! {

/// Why a text could not be read as an expression.
#[derive(Debug, Clone, Copy, PartialEq, Eq, Structural)]
pub enum ParseError {
    /// A `)` without its `(`, or a `(` never closed.
    MismatchedParentheses,
    /// A `{` never closed.
    UnclosedBrace,
    /// A postfix sequence that leaves no tree, or more than one.
    MalformedExpression,
}

/// Binding strength of an operator; anything else binds least.
pub open spec fn precedence(c: char) -> int {
    if c == '+' || c == '-' {
        1
    } else if c == '*' || c == '/' {
        2
    } else if c == '^' {
        3
    } else {
        0
    }
}

pub open spec fn is_operator(c: char) -> bool {
    c == '+' || c == '-' || c == '*' || c == '/' || c == '^'
}

/// Where the tokenizer stands after a prefix of the input.
pub struct TokenizerState {
    pub output: Seq<Seq<char>>,
    pub stack: Seq<char>,
    pub buffer: Seq<char>,
    pub failed: bool,
}

/// `s` without its braces.
pub open spec fn without_braces(s: Seq<char>) -> Seq<char>
    decreases s.len(),
{
    if s.len() == 0 {
        s
    } else if s.last() == '{' || s.last() == '}' {
        without_braces(s.drop_last())
    } else {
        without_braces(s.drop_last()).push(s.last())
    }
}

/// Moves operators that bind at least as strongly as `p` from the top of
/// the stack to the output.
pub open spec fn pop_binding(out: Seq<Seq<char>>, stack: Seq<char>, p: int) -> (Seq<Seq<char>>, Seq<char>)
    decreases stack.len(),
{
    if stack.len() > 0 && precedence(stack.last()) >= p {
        pop_binding(out.push(seq![stack.last()]), stack.drop_last(), p)
    } else {
        (out, stack)
    }
}

/// Moves operators to the output down to the nearest `(`, which is
/// dropped; `None` when there is no `(`.
pub open spec fn pop_to_open(out: Seq<Seq<char>>, stack: Seq<char>) -> Option<(Seq<Seq<char>>, Seq<char>)>
    decreases stack.len(),
{
    if stack.len() == 0 {
        None
    } else if stack.last() == '(' {
        Some((out, stack.drop_last()))
    } else {
        pop_to_open(out.push(seq![stack.last()]), stack.drop_last())
    }
}

/// One character of input.
pub open spec fn step(st: TokenizerState, x: char) -> TokenizerState {
    if st.failed {
        st
    } else if st.buffer.len() > 0 {
        if x == '}' {
            let whole = st.buffer.push(x);
            let cleaned = without_braces(whole);
            let token = if literal_spec(cleaned) is Some { cleaned } else { whole };
            TokenizerState { output: st.output.push(token), buffer: seq![], ..st }
        } else {
            TokenizerState { buffer: st.buffer.push(x), ..st }
        }
    } else if is_operator(x) {
        let (o, s) = pop_binding(st.output, st.stack, precedence(x));
        TokenizerState { output: o, stack: s.push(x), ..st }
    } else if x == '(' {
        TokenizerState { stack: st.stack.push(x), ..st }
    } else if x == ')' {
        match pop_to_open(st.output, st.stack) {
            Some((o, s)) => TokenizerState { output: o, stack: s, ..st },
            None => TokenizerState { failed: true, ..st },
        }
    } else if x == '{' {
        TokenizerState { buffer: seq![x], ..st }
    } else if x == ' ' {
        st
    } else {
        TokenizerState { output: st.output.push(seq![x]), ..st }
    }
}

/// The state after the first `n` characters.
pub open spec fn scan(s: Seq<char>, n: int) -> TokenizerState
    decreases n,
{
    if n <= 0 || n > s.len() {
        TokenizerState { output: seq![], stack: seq![], buffer: seq![], failed: false }
    } else {
        step(scan(s, n - 1), s[n - 1])
    }
}

/// The operators left on the stack, top first, as tokens.
pub open spec fn unwound(stack: Seq<char>) -> Seq<Seq<char>> {
    Seq::new(stack.len(), |i: int| seq![stack[stack.len() - 1 - i]])
}

/// The postfix tokens of an infix text, or why there are none.
pub open spec fn postfix_of(s: Seq<char>) -> Result<Seq<Seq<char>>, ParseError> {
    let st = scan(s, s.len() as int);
    if st.failed {
        Err(ParseError::MismatchedParentheses)
    } else if st.buffer.len() > 0 {
        Err(ParseError::UnclosedBrace)
    } else if st.stack.contains('(') {
        Err(ParseError::MismatchedParentheses)
    } else {
        Ok(st.output + unwound(st.stack))
    }
}

pub open spec fn tokens_view(v: Seq<String>) -> Seq<Seq<char>> {
    Seq::new(v.len(), |i: int| v[i]@)
}

proof fn lemma_failed_stays(s: Seq<char>, n: int, m: int)
    requires
        0 <= n <= m <= s.len(),
        scan(s, n).failed,
    ensures
        scan(s, m).failed,
        scan(s, m) == scan(s, n),
    decreases m - n,
{
    if m > n {
        lemma_failed_stays(s, n, m - 1);
    }
}

fn precedence_of(c: char) -> (r: u8)
    ensures
        r as int == precedence(c),
{
    if c == '+' || c == '-' {
        1
    } else if c == '*' || c == '/' {
        2
    } else if c == '^' {
        3
    } else {
        0
    }
}

fn single(c: char) -> (r: String)
    ensures
        r@ == seq![c],
{
    let mut s = String::new();
    push_char(&mut s, c);
    assert(s@ =~= seq![c]);
    s
}

proof fn lemma_tokens_push(v: Seq<String>, t: String)
    ensures
        tokens_view(v.push(t)) == tokens_view(v).push(t@),
{
    assert(tokens_view(v.push(t)) =~= tokens_view(v).push(t@));
}

fn strip_braces(s: &String) -> (r: String)
    ensures
        r@ == without_braces(s@),
{
    let n = s.as_str().unicode_len();
    let mut out = String::new();
    let mut i: usize = 0;
    while i < n
        invariant
            n == s@.len(),
            i <= n,
            out@ == without_braces(s@.subrange(0, i as int)),
        decreases n - i,
    {
        let c = s.as_str().get_char(i);
        let ghost pre = s@.subrange(0, i as int);
        assert(s@.subrange(0, i + 1).drop_last() =~= pre);
        if c != '{' && c != '}' {
            push_char(&mut out, c);
        }
        i = i + 1;
    }
    assert(s@.subrange(0, n as int) =~= s@);
    out
}

/// Converts an infix text to postfix tokens by the shunting-yard method.
/// Spaces are dropped; `+ -` bind weaker than `* /`, which bind weaker than
/// `^`, and equal operators group to the left. A brace group `{...}` is one
/// token: its contents when they read as a number, else the group with its
/// braces. Any other character is a token of its own. A `)` without its
/// `(`, a `(` never closed, or a `{` never closed is an error.
pub fn shunting_yard_algorithm(input: String) -> (r: Result<Vec<String>, ParseError>)
    ensures
        match r {
            Ok(v) => postfix_of(input@) == Ok::<Seq<Seq<char>>, ParseError>(tokens_view(v@)),
            Err(e) => postfix_of(input@) == Err::<Seq<Seq<char>>, ParseError>(e),
        },
{
    let n = input.as_str().unicode_len();
    let mut output: Vec<String> = Vec::new();
    let mut stack: Vec<char> = Vec::new();
    let mut buffer = String::new();
    let mut i: usize = 0;
    while i < n
        invariant
            n == input@.len(),
            i <= n,
            !scan(input@, i as int).failed,
            scan(input@, i as int).output == tokens_view(output@),
            scan(input@, i as int).stack == stack@,
            scan(input@, i as int).buffer == buffer@,
        decreases n - i,
    {
        let x = input.as_str().get_char(i);
        let ghost st = scan(input@, i as int);
        assert(scan(input@, i + 1) == step(st, x));
        if buffer.as_str().unicode_len() > 0 {
            if x == '}' {
                push_char(&mut buffer, x);
                let cleaned = strip_braces(&buffer);
                let token = if Number::parse(cleaned.as_str()).is_some() {
                    cleaned
                } else {
                    copy_text(&buffer)
                };
                proof {
                    lemma_tokens_push(output@, token);
                }
                output.push(token);
                buffer = String::new();
            } else {
                push_char(&mut buffer, x);
            }
        } else if x == '+' || x == '-' || x == '*' || x == '/' || x == '^' {
            let p = precedence_of(x);
            #[verifier::loop_isolation(false)]
            loop
                invariant
                    pop_binding(tokens_view(output@), stack@, p as int) == pop_binding(
                        st.output,
                        st.stack,
                        p as int,
                    ),
                decreases stack@.len(),
            {
                if stack.len() == 0 {
                    break;
                }
                let top = stack[stack.len() - 1];
                if precedence_of(top) < p {
                    break;
                }
                let ghost before = stack@;
                stack.pop();
                assert(stack@ == before.drop_last());
                let t = single(top);
                proof {
                    lemma_tokens_push(output@, t);
                }
                output.push(t);
            }
            stack.push(x);
        } else if x == '(' {
            stack.push(x);
        } else if x == ')' {
            let mut closed = false;
            #[verifier::loop_isolation(false)]
            loop
                invariant
                    !closed ==> pop_to_open(tokens_view(output@), stack@) == pop_to_open(
                        st.output,
                        st.stack,
                    ),
                    closed ==> pop_to_open(st.output, st.stack) == Some::<(Seq<Seq<char>>, Seq<char>)>(
                        (tokens_view(output@), stack@),
                    ),
                decreases stack@.len(), if closed { 0int } else { 1int },
            {
                if closed || stack.len() == 0 {
                    break;
                }
                let ghost before = stack@;
                let top = stack.pop().unwrap();
                assert(stack@ == before.drop_last());
                if top == '(' {
                    closed = true;
                } else {
                    let t = single(top);
                    proof {
                        lemma_tokens_push(output@, t);
                    }
                    output.push(t);
                }
            }
            if !closed {
                proof {
                    lemma_failed_stays(input@, i + 1, n as int);
                }
                return Err(ParseError::MismatchedParentheses);
            }
        } else if x == '{' {
            push_char(&mut buffer, x);
            assert(buffer@ =~= seq![x]);
        } else if x == ' ' {
        } else {
            let t = single(x);
            proof {
                lemma_tokens_push(output@, t);
            }
            output.push(t);
        }
        i = i + 1;
    }
    let ghost fin = scan(input@, n as int);
    if buffer.as_str().unicode_len() > 0 {
        return Err(ParseError::UnclosedBrace);
    }
    let mut k: usize = 0;
    #[verifier::loop_isolation(false)]
    while k < stack.len()
        invariant
            k <= stack@.len(),
            forall|j: int| 0 <= j < k ==> stack@[j] != '(',
        decreases stack.len() - k,
    {
        if stack[k] == '(' {
            assert(stack@.contains('('));
            return Err(ParseError::MismatchedParentheses);
        }
        k = k + 1;
    }
    let ghost base = tokens_view(output@);
    let mut j: usize = stack.len();
    #[verifier::loop_isolation(false)]
    while j > 0
        invariant
            j <= stack@.len(),
            tokens_view(output@) == base + unwound(stack@).subrange(0, stack@.len() - j),
        decreases j,
    {
        j = j - 1;
        let t = single(stack[j]);
        proof {
            lemma_tokens_push(output@, t);
        }
        output.push(t);
        assert(unwound(stack@).subrange(0, stack@.len() - j) =~= unwound(stack@).subrange(
            0,
            stack@.len() - j - 1,
        ).push(seq![stack@[j as int]]));
    }
    assert(unwound(stack@).subrange(0, stack@.len() as int) =~= unwound(stack@));
    Ok(output)
}

/// The operator a token names, if any.
pub open spec fn operator_of(tok: Seq<char>) -> Option<Root> {
    if tok == seq!['+'] {
        Some(Root::Add)
    } else if tok == seq!['-'] {
        Some(Root::Subtract)
    } else if tok == seq!['*'] {
        Some(Root::Multiply)
    } else if tok == seq!['/'] {
        Some(Root::Divide)
    } else if tok == seq!['^'] {
        Some(Root::Exponentiation)
    } else {
        None
    }
}

/// The leaf a token stands for: a number when it reads as one, else a
/// variable.
pub open spec fn token_leaf(tok: Seq<char>) -> Tree {
    match literal_spec(tok) {
        Some(n) => leaf_tree(Root::Value(n)),
        None => leaf_tree(Root::Variable(tok)),
    }
}

pub open spec fn top_of(st: Seq<Tree>) -> Option<Box<Tree>> {
    if st.len() > 0 {
        Some(Box::new(st.last()))
    } else {
        None
    }
}

pub open spec fn below_top(st: Seq<Tree>) -> Seq<Tree> {
    if st.len() > 0 {
        st.drop_last()
    } else {
        st
    }
}

/// The stack of trees after the first `n` postfix tokens: a leaf pushes a
/// tree; an operator takes the right operand, then the left one, from the
/// top (either may be missing) and pushes the node.
pub open spec fn build(tokens: Seq<Seq<char>>, n: int) -> Seq<Tree>
    decreases n,
{
    if n <= 0 || n > tokens.len() {
        seq![]
    } else {
        let st = build(tokens, n - 1);
        let tok = tokens[n - 1];
        match operator_of(tok) {
            Some(op) => {
                let right = top_of(st);
                let rest = below_top(st);
                let left = top_of(rest);
                below_top(rest).push(Tree { root: op, left, right })
            },
            None => st.push(token_leaf(tok)),
        }
    }
}

/// The tree of a postfix sequence, when exactly one remains.
pub open spec fn tree_of(tokens: Seq<Seq<char>>) -> Result<Tree, ParseError> {
    let st = build(tokens, tokens.len() as int);
    if st.len() == 1 {
        Ok(st[0])
    } else {
        Err(ParseError::MalformedExpression)
    }
}

fn token_is(t: &String, c: char) -> (r: bool)
    ensures
        r == (t@ == seq![c]),
{
    let n = t.as_str().unicode_len();
    if n != 1 {
        return false;
    }
    let r = t.as_str().get_char(0) == c;
    proof {
        if r {
            assert(t@ =~= seq![c]);
        }
    }
    r
}

fn operator_token(t: &String) -> (r: Option<Operator>)
    ensures
        match r {
            Some(o) => operator_of(t@) == Some(crate::equations::root_view(o)),
            None => operator_of(t@) is None,
        },
{
    if token_is(t, '+') {
        Some(Operator::Add)
    } else if token_is(t, '-') {
        Some(Operator::Subtract)
    } else if token_is(t, '*') {
        Some(Operator::Multiply)
    } else if token_is(t, '/') {
        Some(Operator::Divide)
    } else if token_is(t, '^') {
        Some(Operator::Exponentiation)
    } else {
        None
    }
}

fn pop_tree(stack: &mut Vec<Equation>) -> (r: Option<Box<Equation>>)
    ensures
        crate::equations::branch_view(r) == top_of(trees_of(old(stack)@)),
        trees_of(final(stack)@) == below_top(trees_of(old(stack)@)),
{
    let ghost before = trees_of(stack@);
    match stack.pop() {
        Some(e) => {
            assert(trees_of(stack@) =~= before.drop_last());
            Some(Box::new(e))
        },
        None => None,
    }
}

/// Builds the tree of a postfix token sequence with one stack: a number
/// token becomes a number leaf, another non-operator token a variable leaf,
/// and an operator takes its right, then its left operand from the stack.
/// Exactly one tree must remain.
pub fn binary_tree_algorithm(input: Vec<String>) -> (r: Result<Equation, ParseError>)
    ensures
        match r {
            Ok(e) => tree_of(tokens_view(input@)) == Ok::<Tree, ParseError>(e@),
            Err(x) => tree_of(tokens_view(input@)) == Err::<Tree, ParseError>(x),
        },
{
    let ghost toks = tokens_view(input@);
    let mut stack: Vec<Equation> = Vec::new();
    let mut i: usize = 0;
    while i < input.len()
        invariant
            i <= input@.len(),
            toks == tokens_view(input@),
            trees_of(stack@) == build(toks, i as int),
        decreases input@.len() - i,
    {
        let tok = &input[i];
        assert(toks[i as int] == tok@);
        match operator_token(tok) {
            Some(op) => {
                let right = pop_tree(&mut stack);
                let left = pop_tree(&mut stack);
                let node = Equation { root: op, left, right };
                let ghost before = trees_of(stack@);
                stack.push(node);
                assert(trees_of(stack@) =~= before.push(node@));
            },
            None => {
                let leaf = match Number::parse(tok.as_str()) {
                    Some(n) => Equation::new(Operator::Value(n)),
                    None => Equation::new(Operator::Variable(copy_text(tok))),
                };
                let ghost before = trees_of(stack@);
                stack.push(leaf);
                assert(trees_of(stack@) =~= before.push(leaf@));
            },
        }
        i = i + 1;
    }
    if stack.len() == 1 {
        let e = stack.pop().unwrap();
        Ok(e)
    } else {
        Err(ParseError::MalformedExpression)
    }
}

/// What reading a text gives: its postfix tokens built into a tree.
pub open spec fn parsed(s: Seq<char>) -> Result<Tree, ParseError> {
    match postfix_of(s) {
        Ok(t) => tree_of(t),
        Err(e) => Err(e),
    }
}

impl Equation {
    /// Reads an infix text into a tree (see `shunting_yard_algorithm` and
    /// `binary_tree_algorithm`).
    pub fn parse(input: String) -> (r: Result<Equation, ParseError>)
        ensures
            match r {
                Ok(e) => parsed(input@) == Ok::<Tree, ParseError>(e@),
                Err(x) => parsed(input@) == Err::<Tree, ParseError>(x),
            },
    {
        match shunting_yard_algorithm(input) {
            Ok(tokens) => binary_tree_algorithm(tokens),
            Err(e) => Err(e),
        }
    }
}

/// Parenthesis nesting outside brace groups, after a prefix of a text.
pub struct ParenState {
    pub depth: nat,
    pub broken: bool,
    pub in_brace: bool,
}

/// The nesting after the first `n` characters; `broken` once a `)` comes
/// at depth zero.
pub open spec fn paren_scan(s: Seq<char>, n: int) -> ParenState
    decreases n,
{
    if n <= 0 || n > s.len() {
        ParenState { depth: 0, broken: false, in_brace: false }
    } else {
        let p = paren_scan(s, n - 1);
        let x = s[n - 1];
        if p.broken {
            p
        } else if p.in_brace {
            if x == '}' { ParenState { in_brace: false, ..p } } else { p }
        } else if x == '(' {
            ParenState { depth: p.depth + 1, ..p }
        } else if x == ')' {
            if p.depth == 0 {
                ParenState { broken: true, ..p }
            } else {
                ParenState { depth: (p.depth - 1) as nat, ..p }
            }
        } else if x == '{' {
            ParenState { in_brace: true, ..p }
        } else {
            p
        }
    }
}

/// Every `)` outside brace groups closes an earlier `(`, and every `(` is
/// closed.
pub open spec fn parens_balanced(s: Seq<char>) -> bool {
    let p = paren_scan(s, s.len() as int);
    !p.broken && p.depth == 0
}

/// The number of `(` in a stack.
pub open spec fn open_count(st: Seq<char>) -> nat
    decreases st.len(),
{
    if st.len() == 0 {
        0
    } else {
        open_count(st.drop_last()) + (if st.last() == '(' { 1nat } else { 0nat })
    }
}

proof fn lemma_open_count_contains(st: Seq<char>)
    ensures
        (open_count(st) > 0) == st.contains('('),
    decreases st.len(),
{
    if st.len() > 0 {
        lemma_open_count_contains(st.drop_last());
        if st.last() == '(' {
            assert(st[st.len() - 1] == '(');
        } else if st.drop_last().contains('(') {
            let j = choose|j: int| 0 <= j < st.drop_last().len() && st.drop_last()[j] == '(';
            assert(st[j] == '(');
        } else if st.contains('(') {
            let j = choose|j: int| 0 <= j < st.len() && st[j] == '(';
            assert(j != st.len() - 1);
            assert(st.drop_last()[j] == '(');
        }
    }
}

proof fn lemma_pop_binding_keeps_opens(out: Seq<Seq<char>>, st: Seq<char>, p: int)
    requires
        p >= 1,
    ensures
        open_count(pop_binding(out, st, p).1) == open_count(st),
    decreases st.len(),
{
    if st.len() > 0 && precedence(st.last()) >= p {
        lemma_pop_binding_keeps_opens(out.push(seq![st.last()]), st.drop_last(), p);
    }
}

proof fn lemma_pop_to_open_count(out: Seq<Seq<char>>, st: Seq<char>)
    ensures
        pop_to_open(out, st) is None <==> open_count(st) == 0,
        pop_to_open(out, st) matches Some((o, rest)) ==> open_count(rest) + 1 == open_count(st),
    decreases st.len(),
{
    if st.len() > 0 && st.last() != '(' {
        lemma_pop_to_open_count(out.push(seq![st.last()]), st.drop_last());
    }
}

proof fn lemma_scan_tracks_nesting(s: Seq<char>, n: int)
    requires
        0 <= n <= s.len(),
    ensures
        scan(s, n).failed == paren_scan(s, n).broken,
        !scan(s, n).failed ==> (scan(s, n).buffer.len() > 0) == paren_scan(s, n).in_brace,
        !scan(s, n).failed ==> open_count(scan(s, n).stack) == paren_scan(s, n).depth,
    decreases n,
{
    if n > 0 {
        lemma_scan_tracks_nesting(s, n - 1);
        let st = scan(s, n - 1);
        let x = s[n - 1];
        if !st.failed && st.buffer.len() == 0 {
            if is_operator(x) {
                lemma_pop_binding_keeps_opens(st.output, st.stack, precedence(x));
                let (o, rest) = pop_binding(st.output, st.stack, precedence(x));
                assert(rest.push(x).drop_last() == rest);
            } else if x == '(' {
                assert(st.stack.push(x).drop_last() == st.stack);
            } else if x == ')' {
                lemma_pop_to_open_count(st.output, st.stack);
            }
        }
    }
}

/// A text whose parentheses do not pair up never yields tokens: the
/// tokenizer reports mismatched parentheses (or, when a brace group is left
/// open at the end, that group). It reports mismatched parentheses exactly
/// when a `)` comes without its `(`, or a `(` is left open with every brace
/// group closed.
pub proof fn lemma_mismatch_is_reported(s: Seq<char>)
    ensures
        !parens_balanced(s) ==> postfix_of(s) is Err,
        postfix_of(s) is Ok ==> parens_balanced(s),
        (postfix_of(s) == Err::<Seq<Seq<char>>, ParseError>(ParseError::MismatchedParentheses)) <==> (
        paren_scan(s, s.len() as int).broken || (!paren_scan(s, s.len() as int).in_brace && paren_scan(
            s,
            s.len() as int,
        ).depth > 0)),
{
    lemma_scan_tracks_nesting(s, s.len() as int);
    lemma_open_count_contains(scan(s, s.len() as int).stack);
}

impl core::str::FromStr for Equation {
    type Err = ParseError;

    fn from_str(s: &str) -> Result<Equation, ParseError> {
        Equation::parse(s.to_string())
    }
}

} // verus!
