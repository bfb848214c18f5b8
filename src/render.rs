//! Rendering a circuit as text: `c = ~(a b); d = ~(c c)`, naming signal
//! `i` by the `i`-th lowercase letter.
use vstd::prelude::*;
use crate::circuit::Gate;

verus! {

/// Number of distinct signal names.
pub const NAME_COUNT: usize = 26;

/// The name of signal `i`: the letter `'a' + i`.
pub open spec fn symbol(i: nat) -> u8 {
    (97 + i) as u8
}

/// Every signal that the circuit defines or reads has a name.
pub open spec fn nameable(n: nat, circuit: Seq<Gate>) -> bool {
    forall|g: int|
        #![trigger circuit[g]]
        0 <= g < circuit.len() ==> n + g < NAME_COUNT && circuit[g].in1 < NAME_COUNT
            && circuit[g].in2 < NAME_COUNT
}

/// The text of gate `g`: `<out> = ~(<in1> <in2>)`.
pub open spec fn gate_text(n: nat, g: nat, gate: Gate) -> Seq<u8> {
    seq![
        symbol(n + g),
        32u8,
        61u8,
        32u8,
        126u8,
        40u8,
        symbol(gate.in1 as nat),
        32u8,
        symbol(gate.in2 as nat),
        41u8,
    ]
}

/// The gates' texts in order, separated by `"; "`.
pub open spec fn formula_text(n: nat, circuit: Seq<Gate>) -> Seq<u8>
    decreases circuit.len(),
{
    if circuit.len() == 0 {
        Seq::empty()
    } else if circuit.len() == 1 {
        gate_text(n, 0, circuit[0])
    } else {
        formula_text(n, circuit.drop_last()) + seq![59u8, 32u8] + gate_text(
            n,
            (circuit.len() - 1) as nat,
            circuit.last(),
        )
    }
}

/// The name of signal `index`, where there is one.
pub fn signal_name(index: usize) -> (r: Option<u8>)
    ensures
        r == if index < NAME_COUNT {
            Some(symbol(index as nat))
        } else {
            None::<u8>
        },
{
    if index < NAME_COUNT {
        Some(97u8 + index as u8)
    } else {
        None
    }
}

/// The circuit as one line of text, or `None` where some signal it uses
/// has no name.
pub fn render_formula(ninputs: usize, circuit: &Vec<Gate>) -> (r: Option<Vec<u8>>)
    ensures
        nameable(ninputs as nat, circuit@) ==> r is Some && r->Some_0@ == formula_text(
            ninputs as nat,
            circuit@,
        ),
        !nameable(ninputs as nat, circuit@) ==> r is None,
{
    let mut out: Vec<u8> = Vec::new();
    let mut g: usize = 0;
    while g < circuit.len()
        invariant
            g <= circuit@.len(),
            out@ == formula_text(ninputs as nat, circuit@.subrange(0, g as int)),
            nameable(ninputs as nat, circuit@.subrange(0, g as int)),
        decreases circuit@.len() - g,
    {
        let gate = circuit[g];
        if ninputs >= NAME_COUNT || g >= NAME_COUNT - ninputs {
            proof {
                assert(circuit@[g as int] == gate);
            }
            return None;
        }
        let name = signal_name(ninputs + g);
        let a = signal_name(gate.in1);
        let b = signal_name(gate.in2);
        match (name, a, b) {
            (Some(name), Some(a), Some(b)) => {
                let ghost before = out@;
                if g > 0 {
                    out.push(59u8);
                    out.push(32u8);
                }
                out.push(name);
                out.push(32u8);
                out.push(61u8);
                out.push(32u8);
                out.push(126u8);
                out.push(40u8);
                out.push(a);
                out.push(32u8);
                out.push(b);
                out.push(41u8);
                proof {
                    let prev = circuit@.subrange(0, g as int);
                    let next = circuit@.subrange(0, g + 1);
                    assert(next.drop_last() =~= prev);
                    assert(next.last() == gate);
                    if g > 0 {
                        assert(out@ =~= before + seq![59u8, 32u8] + gate_text(
                            ninputs as nat,
                            g as nat,
                            gate,
                        ));
                    } else {
                        assert(out@ =~= gate_text(ninputs as nat, 0, gate));
                    }
                    assert forall|j: int| 0 <= j < next.len() implies #[trigger] next[j].in1
                        < NAME_COUNT && next[j].in2 < NAME_COUNT && ninputs + j < NAME_COUNT by {
                        if j < g {
                            assert(next[j] == prev[j]);
                        }
                    }
                }
            },
            _ => {
                proof {
                    assert(circuit@[g as int] == gate);
                }
                return None;
            },
        }
        g += 1;
    }
    proof {
        assert(circuit@.subrange(0, g as int) =~= circuit@);
    }
    Some(out)
}

} // verus!
