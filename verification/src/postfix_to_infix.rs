//! From postfix notation to infix notation with no more parentheses than the
//! precedence and associativity of the operators ask for.

use vstd::prelude::*;
use vstd::string::StringExecFns;

verus! {

/// The precedence of operands: above every operator.
pub const OPERAND_PRECEDENCE: u8 = 10;

/// An expression in infix notation and the precedence of its outermost
/// operator.
#[derive(Debug, Clone)]
pub struct Exp {
    value: String,
    prec: u8,
}

/// What an expression holds: its text and its precedence.
pub struct ExpView {
    pub text: Seq<char>,
    pub prec: u8,
}

impl View for Exp {
    type V = ExpView;

    closed spec fn view(&self) -> ExpView {
        ExpView { text: self.value@, prec: self.prec }
    }
}

impl Exp {
    /// The expression `value` with precedence `prec`.
    pub fn new(value: String, prec: u8) -> (exp: Exp)
        ensures
            exp@ == (ExpView { text: value@, prec }),
    {
        Exp { value, prec }
    }
}

/// Whether `c` is a binary operator of the infix notation.
pub open spec fn operator_symbol(c: char) -> bool {
    c == '+' || c == '-' || c == '/' || c == '*' || c == '^'
}

/// The precedence of a token: 1 for `+` and `-`, 2 for `*` and `/`, 3 for
/// `^`, and that of an operand for anything else.
pub open spec fn precedence(c: char) -> u8 {
    if c == '+' || c == '-' {
        1
    } else if c == '/' || c == '*' {
        2
    } else if c == '^' {
        3
    } else {
        OPERAND_PRECEDENCE
    }
}

/// Whether `c` groups from the right: `a^b^c` is `a^(b^c)`.
pub open spec fn right_associative(c: char) -> bool {
    c == '^'
}

/// Whether `c` may be regrouped freely: `a+(b+c)` is `a+b+c`.
pub open spec fn associative(c: char) -> bool {
    c == '+' || c == '*'
}

/// The precedence of `c`.
pub fn op_prec(c: char) -> (prec: u8)
    ensures
        prec == precedence(c),
{
    match c {
        '+' | '-' => 1,
        '/' | '*' => 2,
        '^' => 3,
        _ => OPERAND_PRECEDENCE,
    }
}

/// Whether `c` groups from the right.
pub fn op_right_assoc(c: char) -> (right: bool)
    ensures
        right == right_associative(c),
{
    c == '^'
}

/// Whether `c` may be regrouped freely.
pub fn op_assoc(c: char) -> (free: bool)
    ensures
        free == associative(c),
{
    match c {
        '+' | '*' => true,
        _ => false,
    }
}

/// Whether `c` is a binary operator of the infix notation.
pub fn is_operator(c: char) -> (operator: bool)
    ensures
        operator == operator_symbol(c),
{
    match c {
        '+' | '-' | '/' | '*' | '^' => true,
        _ => false,
    }
}

/// `text` between parentheses.
pub open spec fn parenthesized(text: Seq<char>) -> Seq<char> {
    seq!['('] + text + seq![')']
}

/// The text of `l` as the left operand of `op`: in parentheses where `l`
/// binds less tightly than `op`, or as tightly while `op` groups from the
/// right.
pub open spec fn left_text(op: char, l: ExpView) -> Seq<char> {
    if l.prec < precedence(op) || (right_associative(op) && l.prec == precedence(op)) {
        parenthesized(l.text)
    } else {
        l.text
    }
}

/// The text of `r` as the right operand of `op`: in parentheses where `r`
/// binds less tightly than `op`, or as tightly while `op` does not group
/// from the right. With `regroup`, an operand that binds as tightly as an
/// `op` that may be regrouped freely stands without parentheses.
pub open spec fn right_text(op: char, r: ExpView, regroup: bool) -> Seq<char> {
    if r.prec < precedence(op) || (r.prec == precedence(op) && !right_associative(op) && !(
    regroup && associative(op))) {
        parenthesized(r.text)
    } else {
        r.text
    }
}

/// The expression `l op r`.
pub open spec fn joined(op: char, l: ExpView, r: ExpView, regroup: bool) -> ExpView {
    ExpView {
        text: left_text(op, l) + seq![op] + right_text(op, r, regroup),
        prec: precedence(op),
    }
}

/// The stack after token `c`: an operator joins the two expressions on top,
/// anything else is pushed as an operand. `None` where an operator finds
/// fewer than two expressions.
pub open spec fn stack_after(stack: Seq<ExpView>, c: char, regroup: bool) -> Option<
    Seq<ExpView>,
> {
    if operator_symbol(c) {
        if stack.len() < 2 {
            None
        } else {
            Some(
                stack.take(stack.len() - 2).push(
                    joined(c, stack[stack.len() - 2], stack[stack.len() - 1], regroup),
                ),
            )
        }
    } else {
        Some(stack.push(ExpView { text: seq![c], prec: precedence(c) }))
    }
}

/// The rendering of `tokens` from place `i` on, starting with `stack`: the
/// text of the one expression left at the end, or `None`.
pub open spec fn rendered_from(
    tokens: Seq<char>,
    i: int,
    stack: Seq<ExpView>,
    regroup: bool,
) -> Option<Seq<char>>
    decreases tokens.len() - i,
{
    if i >= tokens.len() {
        if stack.len() == 1 {
            Some(stack[0].text)
        } else {
            None
        }
    } else {
        match stack_after(stack, tokens[i], regroup) {
            None => None,
            Some(next) => rendered_from(tokens, i + 1, next, regroup),
        }
    }
}

/// The infix notation of the postfix expression `postfix` under one of the
/// two policies, or `None` where `postfix` is not one expression.
pub open spec fn infix_with(postfix: Seq<char>, regroup: bool) -> Option<Seq<char>> {
    rendered_from(postfix, 0, Seq::empty(), regroup)
}

/// The infix notation of the postfix expression `postfix` with as few
/// parentheses as either policy allows, or `None` where `postfix` is not one
/// expression.
pub open spec fn infix_of(postfix: Seq<char>) -> Option<Seq<char>> {
    infix_with(postfix, true)
}

/// `text`, in parentheses if `wrap` is set.
fn wrapped(text: String, wrap: bool) -> (out: String)
    ensures
        out@ == if wrap {
            parenthesized(text@)
        } else {
            text@
        },
{
    if wrap {
        let mut out = String::new();
        out.push('(');
        out.append(text.as_str());
        out.push(')');
        out
    } else {
        text
    }
}

/// The expression `l op r`.
fn join(op: char, l: Exp, r: Exp, regroup: bool) -> (exp: Exp)
    ensures
        exp@ == joined(op, l@, r@, regroup),
{
    let p = op_prec(op);
    let a = op_right_assoc(op);
    let free = regroup && op_assoc(op);
    let tr = wrapped(r.value, r.prec < p || (!a && !free && r.prec == p));
    let mut text = wrapped(l.value, l.prec < p || (a && l.prec == p));
    text.push(op);
    text.append(tr.as_str());
    assert(text@ =~= left_text(op, l@) + seq![op] + right_text(op, r@, regroup));
    Exp::new(text, p)
}

/// What a stack of expressions holds.
pub open spec fn views(stack: Seq<Exp>) -> Seq<ExpView> {
    stack.map_values(|e: Exp| e@)
}

/// Renders the postfix expression `formula` in infix notation. Every
/// character is one token: `+ - * / ^` are operators, all others operands.
/// Parentheses stand only where precedence and grouping ask for them, and
/// none around a sum in a sum or a product in a product. Returns `None` where
/// the tokens are not one expression.
pub fn to_infix(formula: &str) -> (infix: Option<String>)
    ensures
        match infix {
            Some(text) => infix_of(formula@) == Some(text@),
            None => infix_of(formula@) is None,
        },
{
    to_infix_with(formula, true)
}

/// Renders the postfix expression `formula` in infix notation under one of
/// two policies: with `regroup`, the right operand of `+` or `*` stands
/// without parentheses where it binds as tightly as the operator; without,
/// it stands in parentheses as the right operand of `-` or `/` does.
pub fn to_infix_with(formula: &str, regroup: bool) -> (infix: Option<String>)
    ensures
        match infix {
            Some(text) => infix_with(formula@, regroup) == Some(text@),
            None => infix_with(formula@, regroup) is None,
        },
{
    let mut stack: Vec<Exp> = Vec::new();
    assert(views(stack@) =~= Seq::empty());
    for c in it: formula.chars()
        invariant
            it.seq() == formula@,
            infix_with(formula@, regroup) == rendered_from(
                formula@,
                it.index() as int,
                views(stack@),
                regroup,
            ),
    {
        let ghost before = views(stack@);
        if is_operator(c) {
            let r = match stack.pop() {
                Some(exp) => exp,
                None => {
                    return None;
                },
            };
            let l = match stack.pop() {
                Some(exp) => exp,
                None => {
                    return None;
                },
            };
            stack.push(join(c, l, r, regroup));
            assert(views(stack@) =~= stack_after(before, c, regroup).unwrap());
        } else {
            let mut text = String::new();
            text.push(c);
            stack.push(Exp::new(text, op_prec(c)));
            assert(views(stack@) =~= stack_after(before, c, regroup).unwrap());
        }
    }
    if stack.len() == 1 {
        match stack.pop() {
            Some(exp) => Some(exp.value),
            None => None,
        }
    } else {
        None
    }
}

} // verus!
