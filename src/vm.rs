//! The stack machine that evaluates a compiled equation, and the truth table
//! it produces.
use vstd::prelude::*;
use vstd::arithmetic::power2::pow2;
use vstd::bits::{lemma_usize_shl_is_mul, lemma_usize_pow2_no_overflow};
use crate::compiler::Equation;
use crate::parser::names_view;

verus! {

pub type Value = bool;

/// A stack-machine instruction.
#[derive(Debug, Clone, Copy, PartialEq, Eq, Structural)]
pub enum Op {
    Push(Value),
    Load(usize),
    Not,
    And,
    Or,
    Xor,
}

/// One instruction applied to a stack, with `a` the values of the inputs;
/// `None` where the stack holds too few values or an input is missing.
pub open spec fn step(op: Op, a: Seq<bool>, st: Seq<bool>) -> Option<Seq<bool>> {
    match op {
        Op::Push(v) => Some(st.push(v)),
        Op::Load(i) => if i < a.len() {
            Some(st.push(a[i as int]))
        } else {
            None
        },
        Op::Not => if st.len() >= 1 {
            Some(st.drop_last().push(!st.last()))
        } else {
            None
        },
        _ => if st.len() >= 2 {
            let first = st.last();
            let second = st.drop_last().last();
            let rest = st.drop_last().drop_last();
            Some(rest.push(combine(op, first, second)))
        } else {
            None
        },
    }
}

pub open spec fn combine(op: Op, x: bool, y: bool) -> bool {
    match op {
        Op::And => x && y,
        Op::Or => x || y,
        _ => x != y,
    }
}

/// The stack after running `prog` from `st`.
pub open spec fn run(prog: Seq<Op>, a: Seq<bool>, st: Seq<bool>) -> Option<Seq<bool>>
    decreases prog.len(),
{
    if prog.len() == 0 {
        Some(st)
    } else {
        match run(prog.drop_last(), a, st) {
            Some(s) => step(prog.last(), a, s),
            None => None,
        }
    }
}

/// The program runs on `a` from an empty stack and leaves one value.
pub open spec fn runs_to_one(prog: Seq<Op>, a: Seq<bool>) -> bool {
    &&& run(prog, a, Seq::empty()) is Some
    &&& run(prog, a, Seq::empty()).unwrap().len() == 1
}

/// The value that the program leaves on `a`.
pub open spec fn output_of(prog: Seq<Op>, a: Seq<bool>) -> bool {
    run(prog, a, Seq::empty()).unwrap()[0]
}

/// A program that runs to one value on every assignment of `n` inputs.
pub open spec fn valid_program(prog: Seq<Op>, n: nat) -> bool {
    forall|a: Seq<bool>| a.len() == n ==> #[trigger] runs_to_one(prog, a)
}

/// Bit `j` of `num`.
pub open spec fn bit(num: usize, j: usize) -> bool {
    (num >> j) & 1usize == 1usize
}

/// The assignment of row `num` of a table over `n` inputs: input `i` takes bit
/// `n - 1 - i`, so the first input is the highest-order bit.
pub open spec fn row_bits(num: usize, n: usize) -> Seq<bool> {
    Seq::new(n as nat, |i: int| bit(num, (n - 1 - i) as usize))
}

pub proof fn lemma_run_append(p1: Seq<Op>, p2: Seq<Op>, a: Seq<bool>, st: Seq<bool>)
    ensures
        run(p1 + p2, a, st) == match run(p1, a, st) {
            Some(s) => run(p2, a, s),
            None => None,
        },
    decreases p2.len(),
{
    if p2.len() == 0 {
        assert(p1 + p2 =~= p1);
    } else {
        assert((p1 + p2).drop_last() =~= p1 + p2.drop_last());
        assert((p1 + p2).last() == p2.last());
        lemma_run_append(p1, p2.drop_last(), a, st);
    }
}

/// Every prefix of a program that runs also runs.
pub proof fn lemma_run_prefix(prog: Seq<Op>, a: Seq<bool>, st: Seq<bool>, k: int)
    requires
        0 <= k <= prog.len(),
        run(prog, a, st) is Some,
    ensures
        run(prog.take(k), a, st) is Some,
    decreases prog.len(),
{
    if k < prog.len() {
        assert(prog.drop_last().take(k) =~= prog.take(k));
        lemma_run_prefix(prog.drop_last(), a, st, k);
    } else {
        assert(prog.take(k) =~= prog);
    }
}

/// Every assignment of the inputs, in counting order, and the output for each.
pub struct TruthTable {
    pub input_names: Vec<Vec<u8>>,
    pub inputs: Vec<Vec<bool>>,
    pub output_name: Vec<u8>,
    pub outputs: Vec<bool>,
}

/// Runs a compiled equation over every assignment of its inputs.
pub struct VM {
    equation: Equation,
    stack: Vec<Value>,
}

impl VM {
    pub closed spec fn program(&self) -> Seq<Op> {
        self.equation.lhs@
    }

    pub closed spec fn names(&self) -> Seq<Seq<u8>> {
        names_view(self.equation.inputs@)
    }

    pub closed spec fn output_name(&self) -> Seq<u8> {
        self.equation.output@
    }

    pub closed spec fn wf(&self) -> bool {
        &&& valid_program(self.equation.lhs@, self.equation.inputs@.len())
        &&& self.stack@.len() == 0
    }

    pub fn new(equation: Equation) -> (r: VM)
        requires
            valid_program(equation.lhs@, equation.inputs@.len()),
        ensures
            r.wf(),
            r.program() == equation.lhs@,
            r.names() == names_view(equation.inputs@),
            r.output_name() == equation.output@,
    {
        VM { equation, stack: Vec::new() }
    }

    /// Runs the program on one assignment.
    fn exec(&mut self, inputs: &Vec<Value>) -> (r: Value)
        requires
            old(self).wf(),
            inputs@.len() == old(self).equation.inputs@.len(),
        ensures
            final(self).wf(),
            final(self).equation == old(self).equation,
            r == output_of(old(self).program(), inputs@),
    {
        let ghost prog = self.equation.lhs@;
        let ghost a = inputs@;
        assert(runs_to_one(prog, a));
        let n = self.equation.lhs.len();
        let mut ip: usize = 0;
        while ip < n
            invariant
                n == prog.len(),
                0 <= ip <= n,
                self.equation == old(self).equation,
                prog == self.equation.lhs@,
                a == inputs@,
                runs_to_one(prog, a),
                valid_program(self.equation.lhs@, self.equation.inputs@.len()),
                run(prog.take(ip as int), a, Seq::empty()) == Some(self.stack@),
            decreases n - ip,
        {
            proof {
                lemma_run_prefix(prog, a, Seq::empty(), ip + 1);
                assert(prog.take(ip + 1).drop_last() =~= prog.take(ip as int));
                assert(prog.take(ip + 1).last() == prog[ip as int]);
            }
            match self.equation.lhs[ip] {
                Op::Push(v) => self.stack.push(v),
                Op::Load(i) => self.stack.push(inputs[i]),
                Op::Not => {
                    let operand = self.pop();
                    self.stack.push(!operand);
                },
                Op::And => {
                    let lhs = self.pop();
                    let rhs = self.pop();
                    self.stack.push(lhs && rhs);
                },
                Op::Or => {
                    let lhs = self.pop();
                    let rhs = self.pop();
                    self.stack.push(lhs || rhs);
                },
                Op::Xor => {
                    let lhs = self.pop();
                    let rhs = self.pop();
                    self.stack.push(lhs ^ rhs);
                },
            }
            ip = ip + 1;
        }
        assert(prog.take(n as int) =~= prog);
        self.pop()
    }

    fn pop(&mut self) -> (r: Value)
        requires
            old(self).stack@.len() > 0,
        ensures
            final(self).equation == old(self).equation,
            final(self).stack@ == old(self).stack@.drop_last(),
            r == old(self).stack@.last(),
    {
        self.stack.pop().unwrap()
    }

    /// Builds the truth table: row `r` holds the bits of `r`, the first input
    /// highest, and the program's value on them.
    pub fn gen(&mut self) -> (r: TruthTable)
        requires
            old(self).wf(),
            old(self).names().len() < usize::BITS,
        ensures
            final(self).wf(),
            final(self).program() == old(self).program(),
            final(self).names() == old(self).names(),
            final(self).output_name() == old(self).output_name(),
            names_view(r.input_names@) == old(self).names(),
            r.output_name@ == old(self).output_name(),
            r.inputs@.len() == pow2(old(self).names().len()),
            r.outputs@.len() == r.inputs@.len(),
            r.wf(),
            forall|row: int|
                0 <= row < r.inputs@.len() ==> (#[trigger] r.inputs@[row])@ == row_bits(
                    row as usize,
                    old(self).names().len() as usize,
                ),
            forall|row: int|
                0 <= row < r.outputs@.len() ==> #[trigger] r.outputs@[row] == output_of(
                    old(self).program(),
                    row_bits(row as usize, old(self).names().len() as usize),
                ),
    {
        let length = self.equation.inputs.len();
        proof {
            lemma_usize_pow2_no_overflow(length as nat);
            lemma_usize_shl_is_mul(1, length);
        }
        let num_rows: usize = 1usize << length;
        let mut inputs: Vec<Vec<bool>> = Vec::new();
        let mut outputs: Vec<bool> = Vec::new();
        let mut i: usize = 0;
        while i < num_rows
            invariant
                num_rows == pow2(length as nat),
                length == self.equation.inputs@.len(),
                length < usize::BITS,
                self.equation == old(self).equation,
                self.wf(),
                0 <= i <= num_rows,
                inputs@.len() == i,
                outputs@.len() == i,
                forall|row: int| 0 <= row < i ==> (#[trigger] inputs@[row])@ == row_bits(row as usize, length),
                forall|row: int|
                    0 <= row < i ==> #[trigger] outputs@[row] == output_of(
                        self.equation.lhs@,
                        row_bits(row as usize, length),
                    ),
            decreases num_rows - i,
        {
            let row = usize_to_bools(i, length);
            let out = self.exec(&row);
            inputs.push(row);
            outputs.push(out);
            i = i + 1;
        }
        let input_names = crate::parser::copy_names(&self.equation.inputs);
        let output_name = crate::lexer::bytes_between(
            self.equation.output.as_slice(),
            0,
            self.equation.output.len(),
        );
        assert(output_name@ =~= self.equation.output@);
        TruthTable { input_names, inputs, output_name, outputs }
    }
}

/// The `digits` low bits of `num`, highest first.
pub fn usize_to_bools(num: usize, digits: usize) -> (r: Vec<bool>)
    requires
        digits <= usize::BITS,
    ensures
        r@ == row_bits(num, digits),
{
    let mut r: Vec<bool> = Vec::new();
    let mut i: usize = 1;
    while i <= digits
        invariant
            1 <= i <= digits + 1,
            digits <= usize::BITS,
            r@.len() == i - 1,
            forall|k: int| 0 <= k < i - 1 ==> #[trigger] r@[k] == bit(num, (digits - 1 - k) as usize),
        decreases digits + 1 - i,
    {
        r.push((num >> (digits - i)) & 1 == 1);
        i = i + 1;
    }
    assert(r@ =~= row_bits(num, digits));
    r
}

} // verus!
