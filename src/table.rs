//! Renders a truth table as aligned text.
use vstd::prelude::*;
use crate::vm::TruthTable;

verus! {

/// `parts` with `sep` between each two.
pub open spec fn join(parts: Seq<Seq<u8>>, sep: Seq<u8>) -> Seq<u8>
    decreases parts.len(),
{
    if parts.len() == 0 {
        Seq::empty()
    } else if parts.len() == 1 {
        parts[0]
    } else {
        join(parts.drop_last(), sep) + sep + parts.last()
    }
}

pub open spec fn repeat(b: u8, n: int) -> Seq<u8> {
    Seq::new(if n > 0 { n as nat } else { 0 }, |_i: int| b)
}

/// `1` or `0`.
pub open spec fn digit(v: bool) -> u8 {
    if v { 49 } else { 48 }
}

/// A cell: the digit, padded with spaces on the right to width `w`.
pub open spec fn cell(v: bool, w: int) -> Seq<u8> {
    seq![digit(v)] + repeat(32, w - 1)
}

/// ` | `
pub open spec fn column_sep() -> Seq<u8> {
    seq![32u8, 124, 32]
}

/// The input columns joined by `sep`, then `sep` before the output column;
/// nothing where there are no input columns.
pub open spec fn leading(parts: Seq<Seq<u8>>, sep: Seq<u8>) -> Seq<u8> {
    if parts.len() == 0 {
        Seq::empty()
    } else {
        join(parts, sep) + sep
    }
}

/// `| names... | output |` and a line end.
pub open spec fn header_line(names: Seq<Seq<u8>>, out: Seq<u8>) -> Seq<u8> {
    seq![124u8, 32] + leading(names, column_sep()) + out + seq![32u8, 124, 10]
}

pub open spec fn rule_parts(names: Seq<Seq<u8>>) -> Seq<Seq<u8>> {
    Seq::new(names.len(), |i: int| repeat(45, names[i].len() + 2int))
}

/// A line of dashes as wide as each column with its padding, and a line end.
pub open spec fn rule_line(names: Seq<Seq<u8>>, out: Seq<u8>) -> Seq<u8> {
    seq![124u8] + leading(rule_parts(names), seq![124u8]) + repeat(45, out.len() + 2int) + seq![
        124u8,
        10,
    ]
}

pub open spec fn row_cells(names: Seq<Seq<u8>>, bits: Seq<bool>) -> Seq<Seq<u8>> {
    Seq::new(bits.len(), |i: int| cell(bits[i], names[i].len() as int))
}

/// One row, without its line end.
pub open spec fn row_line(names: Seq<Seq<u8>>, bits: Seq<bool>, v: bool, out: Seq<u8>) -> Seq<u8> {
    seq![124u8, 32] + leading(row_cells(names, bits), column_sep()) + cell(
        v,
        out.len() as int,
    ) + seq![32u8, 124]
}

pub open spec fn row_lines(names: Seq<Seq<u8>>, rows: Seq<Seq<bool>>, outs: Seq<bool>, out: Seq<u8>) -> Seq<Seq<u8>> {
    Seq::new(rows.len(), |r: int| row_line(names, rows[r], outs[r], out))
}

/// The whole text of a table.
pub open spec fn table_text(names: Seq<Seq<u8>>, out: Seq<u8>, rows: Seq<Seq<bool>>, outs: Seq<bool>) -> Seq<u8> {
    header_line(names, out) + rule_line(names, out) + join(row_lines(names, rows, outs, out), seq![10u8])
        + seq![10u8]
}

proof fn lemma_join_step(parts: Seq<Seq<u8>>, sep: Seq<u8>, i: int)
    requires
        0 <= i < parts.len(),
    ensures
        join(parts.take(i + 1), sep) == if i == 0 {
            parts[0]
        } else {
            join(parts.take(i), sep) + sep + parts[i]
        },
{
    assert(parts.take(i + 1).drop_last() =~= parts.take(i));
    if i == 0 {
        assert(parts.take(1)[0] == parts[0]);
    }
}

fn append(out: &mut Vec<u8>, s: &[u8])
    ensures
        final(out)@ == old(out)@ + s@,
{
    let mut i: usize = 0;
    while i < s.len()
        invariant
            0 <= i <= s@.len(),
            out@ == old(out)@ + s@.take(i as int),
        decreases s@.len() - i,
    {
        out.push(s[i]);
        i = i + 1;
        assert(out@ =~= old(out)@ + s@.take(i as int));
    }
    assert(s@.take(s@.len() as int) =~= s@);
}

fn append_repeat(out: &mut Vec<u8>, b: u8, n: usize)
    ensures
        final(out)@ == old(out)@ + repeat(b, n as int),
{
    let mut i: usize = 0;
    while i < n
        invariant
            0 <= i <= n,
            out@ == old(out)@ + repeat(b, i as int),
        decreases n - i,
    {
        out.push(b);
        i = i + 1;
        assert(out@ =~= old(out)@ + repeat(b, i as int));
    }
}

/// `n + 2` dashes.
fn append_dashes(out: &mut Vec<u8>, n: usize)
    ensures
        final(out)@ == old(out)@ + repeat(45, n + 2int),
{
    append_repeat(out, 45, n);
    out.push(45);
    out.push(45);
    assert(out@ =~= old(out)@ + repeat(45, n + 2int));
}

fn append_cell(out: &mut Vec<u8>, v: bool, w: usize)
    ensures
        final(out)@ == old(out)@ + cell(v, w as int),
{
    out.push(if v { 49 } else { 48 });
    let pad: usize = if w > 0 { w - 1 } else { 0 };
    append_repeat(out, 32, pad);
    assert(out@ =~= old(out)@ + cell(v, w as int));
}

fn append_column_sep(out: &mut Vec<u8>)
    ensures
        final(out)@ == old(out)@ + column_sep(),
{
    out.push(32);
    out.push(124);
    out.push(32);
    assert(out@ =~= old(out)@ + column_sep());
}

fn header_text(names: &Vec<Vec<u8>>, out_name: &Vec<u8>) -> (r: Vec<u8>)
    ensures
        r@ == header_line(names@.map_values(|n: Vec<u8>| n@), out_name@),
{
    let ghost ns = names@.map_values(|n: Vec<u8>| n@);
    let mut r: Vec<u8> = Vec::new();
    r.push(124);
    r.push(32);
    let ghost start = r@;
    let mut i: usize = 0;
    while i < names.len()
        invariant
            0 <= i <= names@.len(),
            ns == names@.map_values(|n: Vec<u8>| n@),
            r@ == start + join(ns.take(i as int), column_sep()),
        decreases names@.len() - i,
    {
        proof {
            lemma_join_step(ns, column_sep(), i as int);
        }
        if i > 0 {
            append_column_sep(&mut r);
        }
        append(&mut r, names[i].as_slice());
        i = i + 1;
        assert(r@ =~= start + join(ns.take(i as int), column_sep()));
    }
    assert(ns.take(names@.len() as int) =~= ns);
    if names.len() > 0 {
        append_column_sep(&mut r);
    }
    assert(r@ =~= start + leading(ns, column_sep()));
    append(&mut r, out_name.as_slice());
    r.push(32);
    r.push(124);
    r.push(10);
    assert(r@ =~= header_line(ns, out_name@));
    r
}

fn rule_text(names: &Vec<Vec<u8>>, out_name: &Vec<u8>) -> (r: Vec<u8>)
    ensures
        r@ == rule_line(names@.map_values(|n: Vec<u8>| n@), out_name@),
{
    let ghost ns = names@.map_values(|n: Vec<u8>| n@);
    let ghost parts = rule_parts(ns);
    let mut r: Vec<u8> = Vec::new();
    r.push(124);
    let ghost start = r@;
    let mut i: usize = 0;
    while i < names.len()
        invariant
            0 <= i <= names@.len(),
            ns == names@.map_values(|n: Vec<u8>| n@),
            parts == rule_parts(ns),
            r@ == start + join(parts.take(i as int), seq![124u8]),
        decreases names@.len() - i,
    {
        proof {
            lemma_join_step(parts, seq![124u8], i as int);
        }
        if i > 0 {
            r.push(124);
        }
        append_dashes(&mut r, names[i].len());
        i = i + 1;
        assert(r@ =~= start + join(parts.take(i as int), seq![124u8]));
    }
    assert(parts.take(names@.len() as int) =~= parts);
    if names.len() > 0 {
        r.push(124);
    }
    assert(r@ =~= start + leading(parts, seq![124u8]));
    append_dashes(&mut r, out_name.len());
    r.push(124);
    r.push(10);
    assert(r@ =~= rule_line(ns, out_name@));
    r
}

fn row_text(names: &Vec<Vec<u8>>, bits: &Vec<bool>, v: bool, out_name: &Vec<u8>) -> (r: Vec<u8>)
    requires
        bits@.len() == names@.len(),
    ensures
        r@ == row_line(names@.map_values(|n: Vec<u8>| n@), bits@, v, out_name@),
{
    let ghost ns = names@.map_values(|n: Vec<u8>| n@);
    let ghost parts = row_cells(ns, bits@);
    let mut r: Vec<u8> = Vec::new();
    r.push(124);
    r.push(32);
    let ghost start = r@;
    let mut i: usize = 0;
    while i < bits.len()
        invariant
            0 <= i <= bits@.len(),
            bits@.len() == names@.len(),
            ns == names@.map_values(|n: Vec<u8>| n@),
            parts == row_cells(ns, bits@),
            r@ == start + join(parts.take(i as int), column_sep()),
        decreases bits@.len() - i,
    {
        proof {
            lemma_join_step(parts, column_sep(), i as int);
        }
        if i > 0 {
            append_column_sep(&mut r);
        }
        append_cell(&mut r, bits[i], names[i].len());
        i = i + 1;
        assert(r@ =~= start + join(parts.take(i as int), column_sep()));
    }
    assert(parts.take(bits@.len() as int) =~= parts);
    if bits.len() > 0 {
        append_column_sep(&mut r);
    }
    assert(r@ =~= start + leading(parts, column_sep()));
    append_cell(&mut r, v, out_name.len());
    r.push(32);
    r.push(124);
    assert(r@ =~= row_line(ns, bits@, v, out_name@));
    r
}

impl TruthTable {
    /// Every row has one value per input name, and one output.
    pub open spec fn wf(&self) -> bool {
        &&& self.outputs@.len() == self.inputs@.len()
        &&& forall|r: int|
            0 <= r < self.inputs@.len() ==> (#[trigger] self.inputs@[r])@.len()
                == self.input_names@.len()
    }

    /// The table as text: a header, a rule, one line per row, each cell
    /// padded to its column's name.
    pub fn render(&self) -> (r: Vec<u8>)
        requires
            self.wf(),
        ensures
            r@ == table_text(
                self.input_names@.map_values(|n: Vec<u8>| n@),
                self.output_name@,
                self.inputs@.map_values(|b: Vec<bool>| b@),
                self.outputs@,
            ),
    {
        let ghost ns = self.input_names@.map_values(|n: Vec<u8>| n@);
        let ghost rows = self.inputs@.map_values(|b: Vec<bool>| b@);
        let ghost lines = row_lines(ns, rows, self.outputs@, self.output_name@);
        let mut r = header_text(&self.input_names, &self.output_name);
        let rule = rule_text(&self.input_names, &self.output_name);
        append(&mut r, rule.as_slice());
        let ghost start = r@;
        let mut k: usize = 0;
        while k < self.inputs.len()
            invariant
                self.wf(),
                0 <= k <= self.inputs@.len(),
                ns == self.input_names@.map_values(|n: Vec<u8>| n@),
                rows == self.inputs@.map_values(|b: Vec<bool>| b@),
                lines == row_lines(ns, rows, self.outputs@, self.output_name@),
                r@ == start + join(lines.take(k as int), seq![10u8]),
            decreases self.inputs@.len() - k,
        {
            proof {
                lemma_join_step(lines, seq![10u8], k as int);
            }
            if k > 0 {
                r.push(10);
            }
            let line = row_text(&self.input_names, &self.inputs[k], self.outputs[k], &self.output_name);
            append(&mut r, line.as_slice());
            k = k + 1;
            assert(r@ =~= start + join(lines.take(k as int), seq![10u8]));
        }
        assert(lines.take(self.inputs@.len() as int) =~= lines);
        r.push(10);
        assert(r@ =~= table_text(ns, self.output_name@, rows, self.outputs@));
        r
    }
}

} // verus!
