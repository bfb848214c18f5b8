//! NAND circuits: gate wirings and what they compute on whole truth tables.
use vstd::prelude::*;
use crate::table::{bit, row_of};

verus! {

/// One NAND gate: the indices of the two signals it reads.
#[derive(Clone, Copy, Debug, PartialEq, Eq, Structural)]
pub struct Gate {
    pub in1: usize,
    pub in2: usize,
}

/// NAND of two truth-table columns.
pub open spec fn nand(x: u64, y: u64) -> u64 {
    !(x & y)
}

/// All signals of a circuit: the inputs, then one column per gate in order.
pub open spec fn signals(inputs: Seq<u64>, circuit: Seq<Gate>) -> Seq<u64>
    decreases circuit.len(),
{
    if circuit.len() == 0 {
        inputs
    } else {
        let s = signals(inputs, circuit.drop_last());
        let g = circuit.last();
        s.push(nand(s[g.in1 as int], s[g.in2 as int]))
    }
}

/// The column computed by the last gate, the circuit's output.
pub open spec fn output(inputs: Seq<u64>, circuit: Seq<Gate>) -> u64 {
    signals(inputs, circuit).last()
}

/// The circuit's output agrees with `wanted` on the bits kept by `mask`.
pub open spec fn solves(inputs: Seq<u64>, mask: u64, wanted: u64, circuit: Seq<Gate>) -> bool {
    mask & output(inputs, circuit) == wanted
}

/// Every gate reads only inputs and earlier gates, with its operands in
/// canonical order (`in2 <= in1`).
pub open spec fn is_wiring(n: nat, circuit: Seq<Gate>) -> bool {
    forall|g: int|
        #![trigger circuit[g]]
        0 <= g < circuit.len() ==> circuit[g].in2 <= circuit[g].in1 && circuit[g].in1 < n + g
}

pub proof fn lemma_signals_len(inputs: Seq<u64>, circuit: Seq<Gate>)
    ensures
        signals(inputs, circuit).len() == inputs.len() + circuit.len(),
    decreases circuit.len(),
{
    if circuit.len() > 0 {
        lemma_signals_len(inputs, circuit.drop_last());
    }
}

/// Every gate reads only inputs and earlier gates, its operands in either
/// order.
pub open spec fn reads_earlier(n: nat, circuit: Seq<Gate>) -> bool {
    forall|g: int|
        #![trigger circuit[g]]
        0 <= g < circuit.len() ==> circuit[g].in1 < n + g && circuit[g].in2 < n + g
}

/// The same circuit with each gate's operands put in canonical order.
pub open spec fn canonical(circuit: Seq<Gate>) -> Seq<Gate> {
    Seq::new(
        circuit.len(),
        |g: int|
            if circuit[g].in2 <= circuit[g].in1 {
                circuit[g]
            } else {
                Gate { in1: circuit[g].in2, in2: circuit[g].in1 }
            },
    )
}

/// The values of all signals of a circuit on one row of inputs.
pub open spec fn row_signals(row: Seq<bool>, circuit: Seq<Gate>) -> Seq<bool>
    decreases circuit.len(),
{
    if circuit.len() == 0 {
        row
    } else {
        let s = row_signals(row, circuit.drop_last());
        let g = circuit.last();
        s.push(!(s[g.in1 as int] && s[g.in2 as int]))
    }
}

proof fn lemma_nand_bit(x: u64, y: u64, k: u64)
    by (bit_vector)
    requires
        k < 64,
    ensures
        bit(nand(x, y), k) == !(bit(x, k) && bit(y, k)),
{
}

proof fn lemma_nand_commutes(x: u64, y: u64)
    by (bit_vector)
    ensures
        nand(x, y) == nand(y, x),
{
}

/// Column by column and row by row evaluation agree: bit `k` of each
/// signal is that signal's value on row `k`.
pub proof fn lemma_signals_by_row(inputs: Seq<u64>, circuit: Seq<Gate>, k: u64)
    requires
        reads_earlier(inputs.len(), circuit),
        k < 64,
    ensures
        signals(inputs, circuit).len() == inputs.len() + circuit.len(),
        row_signals(row_of(inputs, k), circuit).len() == inputs.len() + circuit.len(),
        forall|j: int|
            0 <= j < inputs.len() + circuit.len() ==> bit(#[trigger] signals(inputs, circuit)[j], k)
                == row_signals(row_of(inputs, k), circuit)[j],
    decreases circuit.len(),
{
    if circuit.len() > 0 {
        let rest = circuit.drop_last();
        assert(reads_earlier(inputs.len(), rest)) by {
            assert forall|g: int| 0 <= g < rest.len() implies #[trigger] rest[g].in1 < inputs.len() + g
                && rest[g].in2 < inputs.len() + g by {
                assert(rest[g] == circuit[g]);
            }
        }
        lemma_signals_by_row(inputs, rest, k);
        let s = signals(inputs, rest);
        let g = circuit.last();
        assert(circuit[circuit.len() - 1] == g);
        lemma_nand_bit(s[g.in1 as int], s[g.in2 as int], k);
    }
}

/// Putting operands in canonical order changes no signal.
pub proof fn lemma_canonical_signals(inputs: Seq<u64>, circuit: Seq<Gate>)
    requires
        reads_earlier(inputs.len(), circuit),
    ensures
        canonical(circuit).len() == circuit.len(),
        is_wiring(inputs.len(), canonical(circuit)),
        signals(inputs, canonical(circuit)) == signals(inputs, circuit),
    decreases circuit.len(),
{
    let cc = canonical(circuit);
    assert(is_wiring(inputs.len(), cc)) by {
        assert forall|g: int| 0 <= g < cc.len() implies #[trigger] cc[g].in2 <= cc[g].in1 && cc[g].in1
            < inputs.len() + g by {
            assert(circuit[g].in1 < inputs.len() + g);
        }
    }
    if circuit.len() > 0 {
        let rest = circuit.drop_last();
        assert(reads_earlier(inputs.len(), rest)) by {
            assert forall|g: int| 0 <= g < rest.len() implies #[trigger] rest[g].in1 < inputs.len() + g
                && rest[g].in2 < inputs.len() + g by {
                assert(rest[g] == circuit[g]);
            }
        }
        lemma_canonical_signals(inputs, rest);
        assert(cc.drop_last() =~= canonical(rest));
        let s = signals(inputs, rest);
        let g = circuit.last();
        lemma_nand_commutes(s[g.in1 as int], s[g.in2 as int]);
    }
}

} // verus!
