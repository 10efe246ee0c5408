//! A candidate expression: where the operators stand among the digits, and
//! which operators they are.

use crate::operator::{apply_operator, operator_result, Slot};
use crate::postfix_to_infix::{
    infix_of, joined, operator_symbol, precedence, rendered_from, to_infix, ExpView,
};
use crate::text::digit_char;
use vstd::prelude::*;

verus! {

/// The number of digits in a formula.
pub const FORMULA_NUM_OPERANDS: u8 = 9;

/// The number of operators in a formula.
pub const FORMULA_NUM_OPERATORS: u8 = 8;

/// The number of tokens in a formula.
pub const FORMULA_SIZE: u8 = FORMULA_NUM_OPERANDS + FORMULA_NUM_OPERATORS;

/// The operators that a formula may hold.
pub const FORMULA_OPERATORS: [char; 6] = ['+', '-', '*', '/', '^', '&'];

/// One token of a formula in postfix notation.
pub enum Token {
    /// A digit, pushed as it stands.
    Operand(i64),
    /// A binary operator, applied to the two values pushed last.
    Operator(char),
}

/// A formula: `positions[k]` is the place of the `k`-th operator in the
/// token stream, `operators[k]` its symbol. The other places hold the digits
/// 9, 8, 7, ... in that order.
#[derive(Debug)]
pub struct Formula {
    pub positions: Vec<u8>,
    pub operators: Vec<char>,
}

/// What a formula holds, as mathematical sequences.
pub struct FormulaView {
    pub positions: Seq<u8>,
    pub operators: Seq<char>,
}

impl View for Formula {
    type V = FormulaView;

    open spec fn view(&self) -> FormulaView {
        FormulaView { positions: self.positions@, operators: self.operators@ }
    }
}

/// Whether every operator finds two operands on the stack, whatever the
/// operators compute: the operator of index `i` stands at place `2 * (i + 1)`
/// or later.
pub open spec fn feasible(positions: Seq<u8>) -> bool {
    forall|i: int| 0 <= i < positions.len() ==> positions[i] >= 2 * (i + 1)
}

/// The character that stands for digit `d`.
pub open spec fn digit_symbol(d: i64) -> char {
    ('0' as int + d) as char
}

/// The character that stands for a token; a blank where there is none.
pub open spec fn token_symbol(token: Option<Token>) -> char {
    match token {
        Some(Token::Operand(d)) => digit_symbol(d),
        Some(Token::Operator(op)) => op,
        None => ' ',
    }
}

impl FormulaView {
    /// Whether the formula has the shape of a candidate: as many operators
    /// as positions, and the positions strictly increasing places of the
    /// token stream.
    pub open spec fn well_formed(self) -> bool {
        &&& self.positions.len() == FORMULA_NUM_OPERATORS
        &&& self.operators.len() == FORMULA_NUM_OPERATORS
        &&& forall|i: int, j: int|
            0 <= i < j < self.positions.len() ==> self.positions[i] < self.positions[j]
        &&& forall|i: int| 0 <= i < self.positions.len() ==> self.positions[i] < FORMULA_SIZE
    }

    /// The formula in postfix notation, one character for each token. It is
    /// what a well-formed formula reads as.
    pub open spec fn text(self) -> Seq<char> {
        Seq::new(FORMULA_SIZE as nat, |i: int| token_symbol(self.token(i as nat)))
    }

    /// Whether place `i` holds a digit, given that `o` operators stand
    /// before it: the next operator's position has not been reached, or no
    /// operator is left.
    pub open spec fn digit_slot(self, i: nat, o: nat) -> bool {
        o >= self.positions.len() || i < self.positions[o as int]
    }

    /// The number of operators among the first `i` tokens.
    pub open spec fn operators_before(self, i: nat) -> nat
        decreases i,
    {
        if i == 0 {
            0
        } else {
            let o = self.operators_before((i - 1) as nat);
            if self.digit_slot((i - 1) as nat, o) {
                o
            } else {
                o + 1
            }
        }
    }

    /// The token at place `i`: the next digit of the countdown from 9, or
    /// the next operator. `None` where a position is recorded for which no
    /// operator is left.
    pub open spec fn token(self, i: nat) -> Option<Token> {
        let o = self.operators_before(i);
        if self.digit_slot(i, o) {
            Some(Token::Operand((FORMULA_NUM_OPERANDS - (i - o)) as i64))
        } else if o < self.operators.len() {
            Some(Token::Operator(self.operators[o as int]))
        } else {
            None
        }
    }

    /// The outcome of the stack machine that stands before token `i` with
    /// `stack`: a digit is pushed, an operator replaces the two values on top
    /// by its result, and after the last token exactly one value must be
    /// left. A missing token, a missing operand or an operator without a
    /// result ends the run with no value.
    pub open spec fn run(self, i: nat, stack: Seq<Slot>) -> Option<i64>
        decreases FORMULA_SIZE - i,
    {
        if i >= FORMULA_SIZE {
            if stack.len() == 1 {
                Some(stack[0].0)
            } else {
                None
            }
        } else {
            match self.token(i) {
                None => None,
                Some(Token::Operand(d)) => self.run(i + 1, stack.push((d, true))),
                Some(Token::Operator(op)) => {
                    if stack.len() < 2 {
                        None
                    } else {
                        let lhs = stack[stack.len() - 2];
                        let rhs = stack[stack.len() - 1];
                        match operator_result(op, lhs, rhs) {
                            None => None,
                            Some(v) => self.run(
                                i + 1,
                                stack.take(stack.len() - 2).push((v, false)),
                            ),
                        }
                    }
                },
            }
        }
    }

    /// The value of the formula, if it has one.
    pub open spec fn value(self) -> Option<i64> {
        self.run(0, Seq::empty())
    }
}

impl Formula {
    /// The formula with operators `o` at positions `p`.
    pub fn new(p: Vec<u8>, o: Vec<char>) -> (formula: Formula)
        ensures
            formula.positions == p,
            formula.operators == o,
    {
        Formula { positions: p, operators: o }
    }

    /// Whether the positions `v` leave every operator two operands: each
    /// `v[i]` is at least `2 * (i + 1)`.
    pub fn is_valid(v: &Vec<u8>) -> (valid: bool)
        ensures
            valid == feasible(v@),
    {
        let mut i: usize = 0;
        while i < v.len()
            invariant
                i <= v.len(),
                forall|j: int| 0 <= j < i ==> v[j] >= 2 * (j + 1),
            decreases v.len() - i,
        {
            if i >= 127 || (v[i] as usize) < 2 * (i + 1) {
                assert(v@[i as int] < 2 * (i + 1));
                return false;
            }
            i += 1;
        }
        true
    }

    /// Whether the formula has the shape of a candidate.
    pub fn is_well_formed(&self) -> (well_formed: bool)
        ensures
            well_formed == self@.well_formed(),
    {
        let n = FORMULA_NUM_OPERATORS as usize;
        if self.positions.len() != n || self.operators.len() != n {
            return false;
        }
        let mut i: usize = 0;
        while i < n
            invariant
                i <= n,
                n == FORMULA_NUM_OPERATORS,
                self.positions.len() == n,
                forall|j: int| 0 <= j < i ==> self.positions[j] < FORMULA_SIZE,
                forall|j: int|
                    0 <= j && j + 1 < i ==> #[trigger] self.positions[j] < self.positions[j + 1],
            decreases n - i,
        {
            if self.positions[i] >= FORMULA_SIZE {
                return false;
            }
            if i > 0 && self.positions[i - 1] >= self.positions[i] {
                return false;
            }
            i += 1;
        }
        proof {
            lemma_increasing(self.positions@);
        }
        true
    }

    /// The formula in postfix notation: the digits 9 to 1 with the operators
    /// at their positions.
    pub fn to_string(&self) -> (text: String)
        requires
            self@.well_formed(),
        ensures
            text@ == self@.text(),
    {
        let mut buf = String::new();
        let mut o: usize = 0;
        let mut d: u8 = FORMULA_NUM_OPERANDS;
        let mut i: u8 = 0;
        while i < FORMULA_SIZE
            invariant
                self@.well_formed(),
                i <= FORMULA_SIZE,
                o <= i,
                o == self@.operators_before(i as nat),
                d == FORMULA_NUM_OPERANDS - (i - o),
                buf@.len() == i,
                forall|j: int| 0 <= j < i ==> buf@[j] == self@.text()[j],
            decreases FORMULA_SIZE - i,
        {
            proof {
                lemma_operator_count(self@, i as nat);
            }
            if o >= self.positions.len() || i < self.positions[o] {
                buf.push(digit_char(d));
                d -= 1;
            } else {
                buf.push(self.operators[o]);
                o += 1;
            }
            i += 1;
        }
        assert(buf@ =~= self@.text());
        buf
    }

    /// The formula in infix notation. A formula has one if it has a value
    /// and its operators are all among `+ - * / ^`.
    pub fn to_infix(&self) -> (infix: String)
        requires
            self@.well_formed(),
            infix_of(self@.text()) is Some,
        ensures
            infix_of(self@.text()) == Some(infix@),
    {
        let s = self.to_string();
        match to_infix(s.as_str()) {
            Some(infix) => infix,
            None => String::new(),
        }
    }

    /// Evaluates the formula on a stack, left to right.
    pub fn evaluate(&self) -> (result: Option<i64>)
        ensures
            result == self@.value(),
    {
        Formula::value_of(&self.positions, &self.operators)
    }

    /// Evaluates the formula with operators `operators` at `positions`.
    pub fn value_of(positions: &Vec<u8>, operators: &Vec<char>) -> (result: Option<i64>)
        ensures
            result == (FormulaView { positions: positions@, operators: operators@ }).value(),
    {
        let ghost f = FormulaView { positions: positions@, operators: operators@ };
        let mut stack: Vec<Slot> = Vec::with_capacity(FORMULA_NUM_OPERANDS as usize);
        let mut o: usize = 0;
        let mut d: i64 = FORMULA_NUM_OPERANDS as i64;
        let mut i: u8 = 0;
        while i < FORMULA_SIZE
            invariant
                f.positions == positions@,
                f.operators == operators@,
                i <= FORMULA_SIZE,
                o <= i,
                o == f.operators_before(i as nat),
                d == FORMULA_NUM_OPERANDS - (i - o),
                f.value() == f.run(i as nat, stack@),
            decreases FORMULA_SIZE - i,
        {
            let ghost before = stack@;
            if o >= positions.len() || i < positions[o] {
                stack.push((d, true));
                d -= 1;
            } else {
                let rhs = match stack.pop() {
                    Some(slot) => slot,
                    None => {
                        return None;
                    },
                };
                let lhs = match stack.pop() {
                    Some(slot) => slot,
                    None => {
                        return None;
                    },
                };
                if o >= operators.len() {
                    return None;
                }
                assert(stack@ =~= before.take(before.len() - 2));
                match apply_operator(operators[o], lhs, rhs) {
                    Some(v) => {
                        stack.push((v, false));
                    },
                    None => {
                        return None;
                    },
                }
                o += 1;
            }
            i += 1;
        }
        if stack.len() == 1 {
            Some(stack[0].0)
        } else {
            None
        }
    }
}

/// In a well-formed formula the operators before place `i` are those whose
/// position is below `i`, and between them stand at most nine digits.
pub proof fn lemma_operator_count(f: FormulaView, i: nat)
    requires
        f.well_formed(),
        i <= FORMULA_SIZE,
    ensures
        f.operators_before(i) <= i,
        f.operators_before(i) <= FORMULA_NUM_OPERATORS,
        i - f.operators_before(i) <= FORMULA_NUM_OPERANDS,
        forall|j: int| 0 <= j < f.operators_before(i) ==> f.positions[j] < i,
        forall|j: int| f.operators_before(i) <= j < f.positions.len() ==> f.positions[j] >= i,
        i < FORMULA_SIZE && f.digit_slot(i, f.operators_before(i)) ==> i - f.operators_before(i)
            < FORMULA_NUM_OPERANDS,
    decreases i,
{
    let o = f.operators_before(i);
    if i > 0 {
        lemma_operator_count(f, (i - 1) as nat);
    }
    if o < FORMULA_NUM_OPERATORS {
        lemma_position_ceiling(f, o as int);
    }
}

/// In a well-formed formula the operators stand at their positions, and the
/// other places hold digits.
pub proof fn lemma_tokens_of_well_formed(f: FormulaView, i: nat)
    requires
        f.well_formed(),
        i < FORMULA_SIZE,
    ensures
        forall|j: int|
            0 <= j < f.positions.len() && f.positions[j] == i ==> f.token(i) == Some(
                Token::Operator(f.operators[j]),
            ),
        (forall|j: int| 0 <= j < f.positions.len() ==> f.positions[j] != i) ==> f.token(i)
            == Some(Token::Operand((FORMULA_NUM_OPERANDS - (i - f.operators_before(i))) as i64)),
        f.token(i) is Some,
{
    let o = f.operators_before(i);
    lemma_operator_count(f, i);
    assert forall|j: int| 0 <= j < f.positions.len() && f.positions[j] == i implies f.token(i)
        == Some(Token::Operator(f.operators[j])) by {
        if j < o {
            assert(f.positions[j] < i);
        }
        if j > o {
            assert(f.positions[o as int] < f.positions[j]);
        }
    }
}

/// In a well-formed formula the operator of index `j` stands at place `j` or
/// later, and leaves room for the operators after it.
pub proof fn lemma_position_ceiling(f: FormulaView, j: int)
    requires
        f.well_formed(),
        0 <= j < FORMULA_NUM_OPERATORS,
    ensures
        j <= f.positions[j] <= FORMULA_NUM_OPERANDS + j,
    decreases FORMULA_NUM_OPERATORS - j,
{
    if j + 1 < FORMULA_NUM_OPERATORS {
        lemma_position_ceiling(f, j + 1);
    }
    lemma_position_floor(f, j);
}

/// In a well-formed formula the operator of index `j` stands at place `j` or
/// later.
proof fn lemma_position_floor(f: FormulaView, j: int)
    requires
        f.well_formed(),
        0 <= j < FORMULA_NUM_OPERATORS,
    ensures
        j <= f.positions[j],
    decreases j,
{
    if j > 0 {
        lemma_position_floor(f, j - 1);
    }
}

/// A run that has not yet reached an operator with too few operands before
/// it ends without a value.
proof fn lemma_run_underflows(f: FormulaView, i: nat, stack: Seq<Slot>, bad: int)
    requires
        f.well_formed(),
        0 <= bad < f.positions.len(),
        f.positions[bad] < 2 * (bad + 1),
        i <= FORMULA_SIZE,
        f.operators_before(i) <= bad,
        stack.len() == i - 2 * f.operators_before(i),
    ensures
        f.run(i, stack) is None,
    decreases FORMULA_SIZE - i,
{
    let o = f.operators_before(i);
    lemma_operator_count(f, i);
    if i < FORMULA_SIZE {
        match f.token(i) {
            None => {},
            Some(Token::Operand(d)) => {
                lemma_run_underflows(f, i + 1, stack.push((d, true)), bad);
            },
            Some(Token::Operator(op)) => {
                assert(f.positions[o as int] == i);
                if o < bad && stack.len() >= 2 {
                    let lhs = stack[stack.len() - 2];
                    let rhs = stack[stack.len() - 1];
                    match operator_result(op, lhs, rhs) {
                        None => {},
                        Some(v) => {
                            lemma_run_underflows(
                                f,
                                i + 1,
                                stack.take(stack.len() - 2).push((v, false)),
                                bad,
                            );
                        },
                    }
                }
            },
        }
    }
}

/// A well-formed formula whose positions leave some operator fewer than two
/// operands has no value: its evaluation fails, whatever the operators are.
pub proof fn lemma_infeasible_has_no_value(f: FormulaView)
    requires
        f.well_formed(),
        !feasible(f.positions),
    ensures
        f.value() is None,
{
    let bad = choose|i: int| 0 <= i < f.positions.len() && !(f.positions[i] >= 2 * (i + 1));
    lemma_run_underflows(f, 0, Seq::empty(), bad);
}

/// The rendering of a feasible formula never runs short of operands.
proof fn lemma_rendering_goes_on(f: FormulaView, i: nat, stack: Seq<ExpView>)
    requires
        f.well_formed(),
        feasible(f.positions),
        forall|k: int| 0 <= k < f.operators.len() ==> operator_symbol(f.operators[k]),
        i <= FORMULA_SIZE,
        stack.len() == i - 2 * f.operators_before(i),
    ensures
        rendered_from(f.text(), i as int, stack, true) is Some,
    decreases FORMULA_SIZE - i,
{
    let o = f.operators_before(i);
    lemma_operator_count(f, i);
    if i < FORMULA_SIZE {
        let c = f.text()[i as int];
        if f.digit_slot(i, o) {
            assert(!operator_symbol(c));
            lemma_rendering_goes_on(
                f,
                i + 1,
                stack.push(ExpView { text: seq![c], prec: precedence(c) }),
            );
        } else {
            assert(f.positions[o as int] == i);
            assert(operator_symbol(c));
            lemma_rendering_goes_on(
                f,
                i + 1,
                stack.take(stack.len() - 2).push(
                    joined(c, stack[stack.len() - 2], stack[stack.len() - 1], true),
                ),
            );
        }
    } else {
        if o < FORMULA_NUM_OPERATORS {
            assert(f.positions[o as int] >= i);
        }
    }
}

/// A well-formed formula whose positions are feasible and whose operators
/// are all among `+ - * / ^` has an infix notation.
pub proof fn lemma_feasible_formula_renders(f: FormulaView)
    requires
        f.well_formed(),
        feasible(f.positions),
        forall|k: int| 0 <= k < f.operators.len() ==> operator_symbol(f.operators[k]),
    ensures
        infix_of(f.text()) is Some,
{
    lemma_rendering_goes_on(f, 0, Seq::empty());
}

/// A well-formed formula that has a value, with operators that are all among
/// `+ - * / ^`, has an infix notation.
pub proof fn lemma_valued_formula_renders(f: FormulaView)
    requires
        f.well_formed(),
        f.value() is Some,
        forall|k: int| 0 <= k < f.operators.len() ==> operator_symbol(f.operators[k]),
    ensures
        infix_of(f.text()) is Some,
{
    if !feasible(f.positions) {
        lemma_infeasible_has_no_value(f);
    }
    lemma_feasible_formula_renders(f);
}

/// The value of a formula depends on nothing but its positions and its
/// operators: two formulas that hold the same have the same value, and so
/// have two evaluations of one formula.
pub proof fn lemma_value_is_determined(f: Formula, g: Formula)
    requires
        f.positions@ == g.positions@,
        f.operators@ == g.operators@,
    ensures
        f@.value() == g@.value(),
{
}

/// A sequence that grows from each place to the next grows from each place
/// to every later one.
proof fn lemma_increasing(s: Seq<u8>)
    requires
        forall|j: int| 0 <= j && j + 1 < s.len() ==> #[trigger] s[j] < s[j + 1],
    ensures
        forall|i: int, j: int| 0 <= i < j < s.len() ==> s[i] < s[j],
{
    assert forall|i: int, j: int| 0 <= i < j < s.len() implies s[i] < s[j] by {
        lemma_increasing_between(s, i, j);
    }
}

/// In a sequence that grows from each place to the next, a later place holds
/// more than an earlier one.
proof fn lemma_increasing_between(s: Seq<u8>, i: int, j: int)
    requires
        forall|j: int| 0 <= j && j + 1 < s.len() ==> #[trigger] s[j] < s[j + 1],
        0 <= i < j < s.len(),
    ensures
        s[i] < s[j],
    decreases j - i,
{
    if i + 1 < j {
        lemma_increasing_between(s, i, j - 1);
    }
}

} // verus!
