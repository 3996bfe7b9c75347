//! Lowers an expression tree to a stack-machine program.
use vstd::prelude::*;
use crate::parser::{self, BinOp, Expr, SpanExpr, names_view, eval, apply, vars_below};
use crate::vm::{Op, run, step, combine, lemma_run_append, valid_program, runs_to_one, output_of};

verus! {

/// A compiled equation: input names by index, the program, the output name.
pub struct Equation {
    pub inputs: Vec<Vec<u8>>,
    pub lhs: Vec<Op>,
    pub output: Vec<u8>,
}

pub open spec fn op_of(op: BinOp) -> Op {
    match op {
        BinOp::And => Op::And,
        BinOp::Or => Op::Or,
        BinOp::Xor => Op::Xor,
    }
}

/// The program for a tree, in post-order with the right operand first.
pub open spec fn compile_spec(e: SpanExpr) -> Seq<Op>
    decreases e,
{
    match e.node {
        Expr::Bool(b) => seq![Op::Push(b)],
        Expr::Var(i) => seq![Op::Load(i)],
        Expr::Not(x) => compile_spec(*x).push(Op::Not),
        Expr::BinOp { op, lhs, rhs } => (compile_spec(*rhs) + compile_spec(*lhs)).push(op_of(op)),
    }
}

/// The program for a tree where the binary nodes whose paths lie in `flip`
/// emit their left operand first, and all others their right operand first.
/// A node's path lists, from the root at `path`, whether each step went to a
/// right operand (`true`) or to a left operand or a negated expression
/// (`false`).
pub open spec fn compile_flipped(e: SpanExpr, flip: Set<Seq<bool>>, path: Seq<bool>) -> Seq<Op>
    decreases e,
{
    match e.node {
        Expr::Bool(b) => seq![Op::Push(b)],
        Expr::Var(i) => seq![Op::Load(i)],
        Expr::Not(x) => compile_flipped(*x, flip, path.push(false)).push(Op::Not),
        Expr::BinOp { op, lhs, rhs } => {
            let l = compile_flipped(*lhs, flip, path.push(false));
            let r = compile_flipped(*rhs, flip, path.push(true));
            if flip.contains(path) {
                (l + r).push(op_of(op))
            } else {
                (r + l).push(op_of(op))
            }
        },
    }
}

proof fn lemma_run_push(p: Seq<Op>, o: Op, a: Seq<bool>, st: Seq<bool>)
    ensures
        run(p.push(o), a, st) == match run(p, a, st) {
            Some(s) => step(o, a, s),
            None => None,
        },
{
    assert(p.push(o).drop_last() =~= p);
}

/// Running the program compiled from a tree pushes the tree's value, and
/// touches nothing beneath.
pub proof fn lemma_compiled_pushes_value(e: SpanExpr, a: Seq<bool>, st: Seq<bool>)
    requires
        vars_below(e, a.len() as int),
    ensures
        run(compile_spec(e), a, st) == Some(st.push(eval(e, a))),
    decreases e,
{
    match e.node {
        Expr::Bool(b) => {
            lemma_run_push(Seq::empty(), Op::Push(b), a, st);
            assert(seq![Op::Push(b)] =~= Seq::<Op>::empty().push(Op::Push(b)));
        },
        Expr::Var(i) => {
            lemma_run_push(Seq::empty(), Op::Load(i), a, st);
            assert(seq![Op::Load(i)] =~= Seq::<Op>::empty().push(Op::Load(i)));
        },
        Expr::Not(x) => {
            lemma_compiled_pushes_value(*x, a, st);
            lemma_run_push(compile_spec(*x), Op::Not, a, st);
            assert(st.push(eval(*x, a)).drop_last() =~= st);
        },
        Expr::BinOp { op, lhs, rhs } => {
            let vr = eval(*rhs, a);
            let vl = eval(*lhs, a);
            lemma_compiled_pushes_value(*rhs, a, st);
            lemma_compiled_pushes_value(*lhs, a, st.push(vr));
            lemma_run_append(compile_spec(*rhs), compile_spec(*lhs), a, st);
            lemma_run_push(compile_spec(*rhs) + compile_spec(*lhs), op_of(op), a, st);
            let s2 = st.push(vr).push(vl);
            assert(s2.drop_last() =~= st.push(vr));
            assert(s2.drop_last().drop_last() =~= st);
            assert(combine(op_of(op), vl, vr) == apply(op, vl, vr));
        },
    }
}

/// A program with any choice of operand order also pushes the tree's value.
proof fn lemma_flipped_pushes_value(
    e: SpanExpr,
    flip: Set<Seq<bool>>,
    path: Seq<bool>,
    a: Seq<bool>,
    st: Seq<bool>,
)
    requires
        vars_below(e, a.len() as int),
    ensures
        run(compile_flipped(e, flip, path), a, st) == Some(st.push(eval(e, a))),
    decreases e,
{
    match e.node {
        Expr::Bool(b) => {
            lemma_run_push(Seq::empty(), Op::Push(b), a, st);
            assert(seq![Op::Push(b)] =~= Seq::<Op>::empty().push(Op::Push(b)));
        },
        Expr::Var(i) => {
            lemma_run_push(Seq::empty(), Op::Load(i), a, st);
            assert(seq![Op::Load(i)] =~= Seq::<Op>::empty().push(Op::Load(i)));
        },
        Expr::Not(x) => {
            let px = path.push(false);
            lemma_flipped_pushes_value(*x, flip, px, a, st);
            lemma_run_push(compile_flipped(*x, flip, px), Op::Not, a, st);
            assert(st.push(eval(*x, a)).drop_last() =~= st);
        },
        Expr::BinOp { op, lhs, rhs } => {
            let vr = eval(*rhs, a);
            let vl = eval(*lhs, a);
            let pl = path.push(false);
            let pr = path.push(true);
            let cl = compile_flipped(*lhs, flip, pl);
            let cr = compile_flipped(*rhs, flip, pr);
            if flip.contains(path) {
                lemma_flipped_pushes_value(*lhs, flip, pl, a, st);
                lemma_flipped_pushes_value(*rhs, flip, pr, a, st.push(vl));
                lemma_run_append(cl, cr, a, st);
                lemma_run_push(cl + cr, op_of(op), a, st);
                let s2 = st.push(vl).push(vr);
                assert(s2.drop_last() =~= st.push(vl));
                assert(s2.drop_last().drop_last() =~= st);
                assert(combine(op_of(op), vr, vl) == apply(op, vl, vr));
            } else {
                lemma_flipped_pushes_value(*rhs, flip, pr, a, st);
                lemma_flipped_pushes_value(*lhs, flip, pl, a, st.push(vr));
                lemma_run_append(cr, cl, a, st);
                lemma_run_push(cr + cl, op_of(op), a, st);
                let s2 = st.push(vr).push(vl);
                assert(s2.drop_last() =~= st.push(vr));
                assert(s2.drop_last().drop_last() =~= st);
                assert(combine(op_of(op), vl, vr) == apply(op, vl, vr));
            }
        },
    }
}

/// Emitting the operands of any chosen set of binary nodes in the other order
/// changes no result, on any stack and assignment: And, Or and Xor are
/// commutative. So the program that runs to one value on every assignment of
/// `n` inputs is still such a program, with the same output on each.
pub proof fn lemma_operand_order_irrelevant(e: SpanExpr, flip: Set<Seq<bool>>, n: nat)
    requires
        vars_below(e, n as int),
    ensures
        forall|a: Seq<bool>, st: Seq<bool>|
            a.len() == n ==> #[trigger] run(compile_flipped(e, flip, Seq::empty()), a, st) == run(
                compile_spec(e),
                a,
                st,
            ),
        valid_program(compile_flipped(e, flip, Seq::empty()), n),
        forall|a: Seq<bool>|
            a.len() == n ==> #[trigger] output_of(compile_flipped(e, flip, Seq::empty()), a)
                == output_of(compile_spec(e), a),
{
    let p = compile_flipped(e, flip, Seq::empty());
    assert forall|a: Seq<bool>, st: Seq<bool>| a.len() == n implies #[trigger] run(p, a, st) == run(
        compile_spec(e),
        a,
        st,
    ) by {
        lemma_compiled_pushes_value(e, a, st);
        lemma_flipped_pushes_value(e, flip, Seq::empty(), a, st);
    }
    assert forall|a: Seq<bool>| a.len() == n implies #[trigger] runs_to_one(p, a) by {
        lemma_flipped_pushes_value(e, flip, Seq::empty(), a, Seq::empty());
    }
    assert forall|a: Seq<bool>| a.len() == n implies #[trigger] output_of(p, a) == output_of(
        compile_spec(e),
        a,
    ) by {
        lemma_compiled_pushes_value(e, a, Seq::empty());
        lemma_flipped_pushes_value(e, flip, Seq::empty(), a, Seq::empty());
    }
}

/// A tree whose variables are all below `n` compiles to a program that leaves
/// exactly the tree's value on every assignment of `n` inputs.
pub proof fn lemma_compiled_program_valid(e: SpanExpr, n: nat)
    requires
        vars_below(e, n as int),
    ensures
        valid_program(compile_spec(e), n),
        forall|a: Seq<bool>| a.len() == n ==> #[trigger] output_of(compile_spec(e), a) == eval(e, a),
{
    assert forall|a: Seq<bool>| a.len() == n implies #[trigger] runs_to_one(compile_spec(e), a)
        by {
        lemma_compiled_pushes_value(e, a, Seq::empty());
    }
    assert forall|a: Seq<bool>| a.len() == n implies #[trigger] output_of(compile_spec(e), a)
        == eval(e, a) by {
        lemma_compiled_pushes_value(e, a, Seq::empty());
    }
}

pub struct Compiler {
    equation: parser::Equation,
}

impl Compiler {
    pub closed spec fn source(&self) -> &parser::Equation {
        &self.equation
    }

    pub fn new(equation: parser::Equation) -> (r: Compiler)
        ensures
            r.source() == equation,
    {
        Compiler { equation }
    }

    pub fn compile(&self) -> (r: Equation)
        ensures
            r.lhs@ == compile_spec(self.source().lhs),
            names_view(r.inputs@) == names_view(self.source().inputs@),
            r.output@ == self.source().output@,
            vars_below(self.source().lhs, self.source().inputs@.len() as int) ==> valid_program(
                r.lhs@,
                r.inputs@.len(),
            ),
            vars_below(self.source().lhs, self.source().inputs@.len() as int) ==> forall|
                a: Seq<bool>,
            |
                a.len() == r.inputs@.len() ==> #[trigger] output_of(r.lhs@, a) == eval(
                    self.source().lhs,
                    a,
                ),
    {
        let mut lhs: Vec<Op> = Vec::new();
        Self::compile_expr(&mut lhs, &self.equation.lhs);
        assert(lhs@ =~= compile_spec(self.equation.lhs));
        let output = crate::lexer::bytes_between(
            self.equation.output.as_slice(),
            0,
            self.equation.output.len(),
        );
        assert(output@ =~= self.equation.output@);
        let inputs = parser::copy_names(&self.equation.inputs);
        proof {
            assert(names_view(inputs@).len() == inputs@.len());
            if vars_below(self.equation.lhs, self.equation.inputs@.len() as int) {
                lemma_compiled_program_valid(self.equation.lhs, inputs@.len());
            }
        }
        Equation { inputs, lhs, output }
    }

    fn compile_expr(ops: &mut Vec<Op>, expr: &SpanExpr)
        ensures
            final(ops)@ == old(ops)@ + compile_spec(*expr),
        decreases expr,
    {
        match &expr.node {
            Expr::Bool(b) => ops.push(Op::Push(*b)),
            Expr::Var(v) => ops.push(Op::Load(*v)),
            Expr::Not(e) => {
                Self::compile_expr(ops, e);
                ops.push(Op::Not);
            },
            Expr::BinOp { op, lhs, rhs } => {
                Self::compile_expr(ops, rhs);
                Self::compile_expr(ops, lhs);
                ops.push(
                    match op {
                        BinOp::And => Op::And,
                        BinOp::Or => Op::Or,
                        BinOp::Xor => Op::Xor,
                    },
                );
            },
        }
        assert(ops@ =~= old(ops)@ + compile_spec(*expr));
    }
}

} // verus!
