//! The exhaustive search: the order in which wirings are tried, the
//! searcher for one gate count, and the driver over increasing counts.
use vstd::prelude::*;
use crate::circuit::{
    Gate, is_wiring, signals, solves, nand, lemma_signals_len, reads_earlier, canonical, row_signals,
    lemma_signals_by_row, lemma_canonical_signals,
};
use crate::enumeration::{completions, span, lemma_completions_sound, lemma_completions_complete};
use crate::table::{
    bit, row_count, row_of, input_masks, table_mask, tabulate_inputs, validity_mask,
    lemma_input_mask_bits, lemma_table_mask_bit,
};

verus! {

/// The circuits of `cs` that solve the target, in order.
pub open spec fn solutions(inputs: Seq<u64>, mask: u64, wanted: u64, cs: Seq<Seq<Gate>>) -> Seq<
    Seq<Gate>,
>
    decreases cs.len(),
{
    if cs.len() == 0 {
        Seq::empty()
    } else {
        let rest = solutions(inputs, mask, wanted, cs.drop_last());
        if solves(inputs, mask, wanted, cs.last()) {
            rest.push(cs.last())
        } else {
            rest
        }
    }
}

/// All circuits of exactly `ngates` gates over `inputs` that solve the
/// target, in search order.
pub open spec fn level_solutions(inputs: Seq<u64>, mask: u64, wanted: u64, ngates: nat) -> Seq<
    Seq<Gate>,
> {
    if ngates == 0 {
        Seq::empty()
    } else {
        solutions(inputs, mask, wanted, completions(inputs.len(), ngates, Seq::empty()))
    }
}

/// The wirings held in a list of circuits.
pub open spec fn circuit_views(vs: Seq<Vec<Gate>>) -> Seq<Seq<Gate>> {
    Seq::new(vs.len(), |i: int| vs[i]@)
}

pub proof fn lemma_solutions_append(
    inputs: Seq<u64>,
    mask: u64,
    wanted: u64,
    a: Seq<Seq<Gate>>,
    b: Seq<Seq<Gate>>,
)
    ensures
        solutions(inputs, mask, wanted, a + b) == solutions(inputs, mask, wanted, a) + solutions(
            inputs,
            mask,
            wanted,
            b,
        ),
    decreases b.len(),
{
    if b.len() == 0 {
        assert(a + b =~= a);
        assert(solutions(inputs, mask, wanted, a) + solutions(inputs, mask, wanted, b)
            =~= solutions(inputs, mask, wanted, a));
    } else {
        assert((a + b).drop_last() =~= a + b.drop_last());
        lemma_solutions_append(inputs, mask, wanted, a, b.drop_last());
        let sa = solutions(inputs, mask, wanted, a);
        let sb = solutions(inputs, mask, wanted, b.drop_last());
        if solves(inputs, mask, wanted, b.last()) {
            assert((sa + sb).push(b.last()) =~= sa + sb.push(b.last()));
        }
    }
}

/// Tries every wiring of the gates from `gate` on, keeping the first `gate`
/// gates of `circuit`, and appends to `found` each complete circuit that
/// solves the target, in search order. `values` holds the inputs and the
/// columns of the gates placed so far.
pub fn searching(
    wanted: u64,
    ninputs: usize,
    mask: u64,
    ngates: usize,
    circuit: &mut Vec<Gate>,
    values: &mut Vec<u64>,
    gate: usize,
    found: &mut Vec<Vec<Gate>>,
) -> (r: bool)
    requires
        gate < ngates,
        ninputs + ngates <= usize::MAX,
        old(circuit)@.len() == ngates,
        old(values)@.len() == ninputs + ngates,
        is_wiring(ninputs as nat, old(circuit)@.subrange(0, gate as int)),
        old(values)@.subrange(0, ninputs + gate) == signals(
            old(values)@.subrange(0, ninputs as int),
            old(circuit)@.subrange(0, gate as int),
        ),
    ensures
        final(circuit)@.len() == ngates,
        final(circuit)@.subrange(0, gate as int) == old(circuit)@.subrange(0, gate as int),
        final(values)@.len() == ninputs + ngates,
        final(values)@.subrange(0, ninputs + gate) == old(values)@.subrange(0, ninputs + gate),
        circuit_views(final(found)@) == circuit_views(old(found)@) + solutions(
            old(values)@.subrange(0, ninputs as int),
            mask,
            wanted,
            completions(ninputs as nat, ngates as nat, old(circuit)@.subrange(0, gate as int)),
        ),
        r == (solutions(
            old(values)@.subrange(0, ninputs as int),
            mask,
            wanted,
            completions(ninputs as nat, ngates as nat, old(circuit)@.subrange(0, gate as int)),
        ).len() > 0),
    decreases ngates - gate,
{
    let ghost n = ninputs as nat;
    let ghost total = ngates as nat;
    let ghost inputs = values@.subrange(0, ninputs as int);
    let ghost prefix = circuit@.subrange(0, gate as int);
    let ghost prefix_values = values@.subrange(0, ninputs + gate);
    let ghost found0 = circuit_views(found@);
    let mut any = false;
    let mut in1: usize = 0;
    while in1 < ninputs + gate
        invariant
            gate < ngates,
            ninputs + ngates <= usize::MAX,
            n == ninputs as nat,
            total == ngates as nat,
            in1 <= ninputs + gate,
            circuit@.len() == ngates,
            circuit@.subrange(0, gate as int) == prefix,
            values@.len() == ninputs + ngates,
            values@.subrange(0, ninputs + gate) == prefix_values,
            inputs == prefix_values.subrange(0, ninputs as int),
            is_wiring(n, prefix),
            prefix_values == signals(inputs, prefix),
            prefix.len() == gate,
            circuit_views(found@) == found0 + solutions(
                inputs,
                mask,
                wanted,
                span(n, total, prefix, in1 as nat, 0),
            ),
            any == (solutions(inputs, mask, wanted, span(n, total, prefix, in1 as nat, 0)).len()
                > 0),
        decreases ninputs + gate - in1,
    {
        let mut in2: usize = 0;
        while in2 <= in1
            invariant
                gate < ngates,
                ninputs + ngates <= usize::MAX,
                n == ninputs as nat,
                total == ngates as nat,
                in1 < ninputs + gate,
                in2 <= in1 + 1,
                circuit@.len() == ngates,
                circuit@.subrange(0, gate as int) == prefix,
                values@.len() == ninputs + ngates,
                values@.subrange(0, ninputs + gate) == prefix_values,
                inputs == prefix_values.subrange(0, ninputs as int),
                is_wiring(n, prefix),
                prefix_values == signals(inputs, prefix),
                prefix.len() == gate,
                circuit_views(found@) == found0 + solutions(
                    inputs,
                    mask,
                    wanted,
                    span(n, total, prefix, in1 as nat, in2 as nat),
                ),
                any == (solutions(
                    inputs,
                    mask,
                    wanted,
                    span(n, total, prefix, in1 as nat, in2 as nat),
                ).len() > 0),
            decreases in1 + 1 - in2,
        {
            let ghost p = Gate { in1, in2 };
            let ghost ext = prefix.push(p);
            let ghost before = span(n, total, prefix, in1 as nat, in2 as nat);
            let ghost here = completions(n, total, ext);
            proof {
                lemma_signals_len(inputs, prefix);
                lemma_solutions_append(inputs, mask, wanted, before, here);
                assert(prefix.len() < total);
                assert(((in2 + 1) as nat - 1) as nat == in2 as nat);
                assert(Gate { in1: (in1 as nat) as usize, in2: (in2 as nat) as usize } == p);
                assert(span(n, total, prefix, in1 as nat, (in2 + 1) as nat) == span(
                    n,
                    total,
                    prefix,
                    in1 as nat,
                    in2 as nat,
                ) + completions(n, total, prefix.push(p)));
            }
            circuit.set(gate, Gate { in1, in2 });
            let x = values[in1];
            let y = values[in2];
            let v = !(x & y);
            values.set(ninputs + gate, v);
            proof {
                assert(x == prefix_values[in1 as int]);
                assert(y == prefix_values[in2 as int]);
                assert(ext.drop_last() =~= prefix);
                assert(circuit@.subrange(0, gate + 1) =~= ext);
                assert(circuit@.subrange(0, gate as int) =~= prefix);
                assert(values@.subrange(0, ninputs + gate + 1) =~= prefix_values.push(v));
                assert(values@.subrange(0, ninputs + gate) =~= prefix_values);
                assert(signals(inputs, ext) == prefix_values.push(nand(x, y)));
                assert forall|g: int| 0 <= g < ext.len() implies #[trigger] ext[g].in2 <= ext[g].in1
                    && ext[g].in1 < n + g by {
                    if g < gate {
                        assert(ext[g] == prefix[g]);
                    }
                }
            }
            if gate + 1 < ngates {
                proof {
                    assert(values@.subrange(0, ninputs as int) =~= inputs);
                }
                let f = searching(wanted, ninputs, mask, ngates, circuit, values, gate + 1, found);
                proof {
                    assert(circuit@.subrange(0, gate as int) =~= circuit@.subrange(
                        0,
                        gate + 1,
                    ).subrange(0, gate as int));
                    assert(values@.subrange(0, ninputs + gate) =~= values@.subrange(
                        0,
                        ninputs + gate + 1,
                    ).subrange(0, ninputs + gate));
                }
                any = any || f;
                proof {
                    assert(found0 + solutions(inputs, mask, wanted, before) + solutions(
                        inputs,
                        mask,
                        wanted,
                        here,
                    ) =~= found0 + (solutions(inputs, mask, wanted, before) + solutions(
                        inputs,
                        mask,
                        wanted,
                        here,
                    )));
                }
            } else {
                proof {
                    assert(here == seq![ext]);
                    assert(seq![ext].drop_last() =~= Seq::<Seq<Gate>>::empty());
                    assert(solutions(inputs, mask, wanted, Seq::<Seq<Gate>>::empty())
                        == Seq::<Seq<Gate>>::empty());
                    assert(here.last() == ext);
                    assert(signals(inputs, ext).last() == v);
                    assert(solves(inputs, mask, wanted, ext) == (mask & v == wanted));
                    if mask & v == wanted {
                        assert(solutions(inputs, mask, wanted, here) =~= seq![ext]);
                    } else {
                        assert(solutions(inputs, mask, wanted, here) =~= Seq::<Seq<Gate>>::empty());
                    }
                }
                if mask & v == wanted {
                    let copy = circuit.clone();
                    proof {
                        assert(copy@ =~= circuit@);
                        assert(circuit@ =~= ext);
                        assert(circuit_views(found@.push(copy)) =~= circuit_views(found@).push(
                            ext,
                        ));
                    }
                    found.push(copy);
                    any = true;
                    proof {
                        assert(found0 + solutions(inputs, mask, wanted, before) + seq![ext]
                            =~= found0 + (solutions(inputs, mask, wanted, before) + seq![ext]));
                    }
                } else {
                    proof {
                        assert(solutions(inputs, mask, wanted, before) + Seq::<Seq<Gate>>::empty()
                            =~= solutions(inputs, mask, wanted, before));
                    }
                }
            }
            in2 += 1;
        }
        in1 += 1;
    }
    proof {
        assert(completions(n, total, prefix) == span(n, total, prefix, (n + gate) as nat, 0));
    }
    any
}

/// All circuits of exactly `ngates` gates over `inputs` that solve
/// `wanted` within `mask`, in search order.
pub fn find_for_n(wanted: u64, ninputs: usize, inputs: &Vec<u64>, mask: u64, ngates: usize) -> (r:
    Vec<Vec<Gate>>)
    requires
        inputs@.len() == ninputs,
        ninputs + ngates <= usize::MAX,
    ensures
        circuit_views(r@) == level_solutions(inputs@, mask, wanted, ngates as nat),
{
    let mut found: Vec<Vec<Gate>> = Vec::new();
    if ngates == 0 {
        proof {
            assert(circuit_views(found@) =~= Seq::<Seq<Gate>>::empty());
        }
        return found;
    }
    let mut circuit: Vec<Gate> = Vec::new();
    let mut values: Vec<u64> = Vec::new();
    let mut i: usize = 0;
    while i < ninputs
        invariant
            i <= ninputs,
            inputs@.len() == ninputs,
            values@ == inputs@.subrange(0, i as int),
        decreases ninputs - i,
    {
        values.push(inputs[i]);
        proof {
            assert(inputs@.subrange(0, i + 1) =~= inputs@.subrange(0, i as int).push(inputs@[i as int]));
        }
        i += 1;
    }
    let mut g: usize = 0;
    while g < ngates
        invariant
            g <= ngates,
            ninputs + ngates <= usize::MAX,
            circuit@.len() == g,
            values@.len() == ninputs + g,
            values@.subrange(0, ninputs as int) == inputs@,
        decreases ngates - g,
    {
        circuit.push(Gate { in1: 0, in2: 0 });
        values.push(0);
        proof {
            assert(values@.subrange(0, ninputs as int) =~= values@.drop_last().subrange(0, ninputs as int));
        }
        g += 1;
    }
    proof {
        assert(circuit@.subrange(0, 0) =~= Seq::<Gate>::empty());
        assert(values@.subrange(0, ninputs + 0) =~= inputs@);
        assert(circuit_views(found@) =~= Seq::<Seq<Gate>>::empty());
        assert(circuit_views(found@) + level_solutions(inputs@, mask, wanted, ngates as nat)
            =~= level_solutions(inputs@, mask, wanted, ngates as nat));
    }
    searching(wanted, ninputs, mask, ngates, &mut circuit, &mut values, 0, &mut found);
    found
}

/// The outcome of a search: the last gate count tried, and every circuit
/// found at that count.
pub struct Outcome {
    pub tried: usize,
    pub solutions: Vec<Vec<Gate>>,
}

/// `tried` is the smallest gate count in `1..=max_gates` with a solution,
/// or `max_gates` where none has one.
pub open spec fn first_solved_level(
    inputs: Seq<u64>,
    mask: u64,
    wanted: u64,
    max_gates: nat,
    tried: nat,
) -> bool {
    &&& tried <= max_gates
    &&& forall|g: nat| 1 <= g < tried ==> #[trigger] level_solutions(inputs, mask, wanted, g).len() == 0
    &&& (tried == max_gates || level_solutions(inputs, mask, wanted, tried).len() > 0)
}

/// Tries gate counts 1, 2, ... up to `max_gates` and stops at the first
/// count that has a solution, returning all solutions of that count.
pub fn find_circuits(wanted: u64, ninputs: usize, max_gates: usize) -> (r: Outcome)
    requires
        ninputs <= 6,
        ninputs + max_gates <= usize::MAX,
    ensures
        first_solved_level(
            input_masks(ninputs as nat),
            table_mask(ninputs as u64),
            wanted,
            max_gates as nat,
            r.tried as nat,
        ),
        circuit_views(r.solutions@) == level_solutions(
            input_masks(ninputs as nat),
            table_mask(ninputs as u64),
            wanted,
            r.tried as nat,
        ),
{
    let inputs = tabulate_inputs(ninputs);
    let mask = validity_mask(ninputs);
    let ghost ins = input_masks(ninputs as nat);
    let ghost m = table_mask(ninputs as u64);
    let mut tried: usize = 0;
    while tried < max_gates
        invariant
            tried <= max_gates,
            ninputs + max_gates <= usize::MAX,
            inputs@ == ins,
            ins == input_masks(ninputs as nat),
            m == table_mask(ninputs as u64),
            inputs@.len() == ninputs,
            mask == m,
            forall|g: nat| 1 <= g <= tried ==> #[trigger] level_solutions(ins, m, wanted, g).len() == 0,
        decreases max_gates - tried,
    {
        let ngates = tried + 1;
        let sols = find_for_n(wanted, ninputs, &inputs, mask, ngates);
        tried = ngates;
        proof {
            assert(circuit_views(sols@).len() == sols@.len());
        }
        if sols.len() > 0 {
            return Outcome { tried, solutions: sols };
        }
    }
    let none: Vec<Vec<Gate>> = Vec::new();
    proof {
        assert(circuit_views(none@) =~= Seq::<Seq<Gate>>::empty());
        if tried > 0 {
            assert(level_solutions(ins, m, wanted, tried as nat).len() == 0);
        }
        assert(level_solutions(ins, m, wanted, tried as nat) =~= Seq::<Seq<Gate>>::empty());
    }
    Outcome { tried, solutions: none }
}

pub proof fn lemma_solutions_contains(
    inputs: Seq<u64>,
    mask: u64,
    wanted: u64,
    cs: Seq<Seq<Gate>>,
    c: Seq<Gate>,
)
    ensures
        solutions(inputs, mask, wanted, cs).contains(c) <==> (cs.contains(c) && solves(
            inputs,
            mask,
            wanted,
            c,
        )),
    decreases cs.len(),
{
    if cs.len() > 0 {
        let rest = cs.drop_last();
        lemma_solutions_contains(inputs, mask, wanted, rest, c);
        let sr = solutions(inputs, mask, wanted, rest);
        assert(cs =~= rest.push(cs.last()));
        if cs.contains(c) && solves(inputs, mask, wanted, c) {
            let i = choose|i: int| 0 <= i < cs.len() && cs[i] == c;
            if i < rest.len() {
                assert(rest[i] == c);
                let j = choose|j: int| 0 <= j < sr.len() && sr[j] == c;
                if solves(inputs, mask, wanted, cs.last()) {
                    assert(sr.push(cs.last())[j] == c);
                }
            } else {
                assert(sr.push(cs.last())[sr.len() as int] == c);
            }
        }
        if solutions(inputs, mask, wanted, cs).contains(c) {
            let j = choose|j: int|
                0 <= j < solutions(inputs, mask, wanted, cs).len() && solutions(
                    inputs,
                    mask,
                    wanted,
                    cs,
                )[j] == c;
            if j < sr.len() {
                assert(sr[j] == c);
                let i = choose|i: int| 0 <= i < rest.len() && rest[i] == c;
                assert(cs[i] == c);
            } else {
                assert(cs[cs.len() - 1] == c);
            }
        }
    }
}

/// Every circuit the search reports for a table over `n` inputs is a wiring
/// of the requested size, and evaluated gate by gate on any row of inputs it
/// gives that row's entry of the table.
pub proof fn lemma_found_circuits_reproduce_table(
    n: nat,
    wanted: u64,
    ngates: nat,
    c: Seq<Gate>,
    k: u64,
)
    requires
        n <= 6,
        n + ngates <= usize::MAX,
        level_solutions(input_masks(n), table_mask(n as u64), wanted, ngates).contains(c),
        k < row_count(n as u64),
    ensures
        c.len() == ngates,
        is_wiring(n, c),
        row_signals(row_of(input_masks(n), k), c).last() == bit(wanted, k),
{
    let ins = input_masks(n);
    let m = table_mask(n as u64);
    lemma_input_mask_bits(n);
    let nn = n as u64;
    assert(row_count(nn) <= 64) by (bit_vector)
        requires
            nn <= 6,
    ;
    let cs = completions(n, ngates, Seq::empty());
    lemma_solutions_contains(ins, m, wanted, cs, c);
    lemma_completions_sound(n, ngates, Seq::empty());
    let i = choose|i: int| 0 <= i < cs.len() && cs[i] == c;
    assert(cs[i] == c);
    assert(reads_earlier(n, c)) by {
        assert forall|g: int| 0 <= g < c.len() implies #[trigger] c[g].in1 < n + g && c[g].in2 < n + g by {
            assert(c[g].in2 <= c[g].in1);
        }
    }
    lemma_signals_by_row(ins, c, k);
    let out = signals(ins, c)[n + c.len() - 1];
    lemma_table_mask_bit(n as u64, k);
    assert(bit(m & out, k) == (bit(m, k) && bit(out, k))) by (bit_vector)
        requires
            k < 64,
    ;
}

/// The driver stops at the smallest gate count at which some circuit solves
/// the table. If a circuit of `c.len()` gates (operands in either order)
/// solves it, a search up to at least that many gates stops no later and
/// reports solutions where it stops, and no circuit with fewer gates than
/// the count where it stopped solves the table.
pub proof fn lemma_search_stops_at_smallest(
    n: nat,
    wanted: u64,
    max_gates: nat,
    tried: nat,
    c: Seq<Gate>,
)
    requires
        n <= 6,
        n + max_gates <= usize::MAX,
        first_solved_level(input_masks(n), table_mask(n as u64), wanted, max_gates, tried),
        1 <= c.len() <= max_gates,
        reads_earlier(n, c),
        solves(input_masks(n), table_mask(n as u64), wanted, c),
    ensures
        tried <= c.len(),
        level_solutions(input_masks(n), table_mask(n as u64), wanted, tried).len() > 0,
        forall|d: Seq<Gate>|
            1 <= d.len() < tried && reads_earlier(n, d) ==> !solves(
                input_masks(n),
                table_mask(n as u64),
                wanted,
                d,
            ),
{
    let ins = input_masks(n);
    let m = table_mask(n as u64);
    lemma_input_mask_bits(n);
    assert forall|d: Seq<Gate>|
        1 <= d.len() <= max_gates && reads_earlier(n, d) && solves(ins, m, wanted, d) implies
        #[trigger] level_solutions(ins, m, wanted, d.len()).len() > 0 by {
        lemma_canonical_signals(ins, d);
        let dd = canonical(d);
        assert(dd.subrange(0, 0) =~= Seq::<Gate>::empty());
        lemma_completions_complete(n, d.len(), Seq::empty(), dd);
        lemma_solutions_contains(ins, m, wanted, completions(n, d.len(), Seq::empty()), dd);
    }
    assert(level_solutions(ins, m, wanted, c.len()).len() > 0);
    assert forall|d: Seq<Gate>| 1 <= d.len() < tried && reads_earlier(n, d) implies !solves(
        ins,
        m,
        wanted,
        d,
    ) by {
        if solves(ins, m, wanted, d) {
            assert(level_solutions(ins, m, wanted, d.len()).len() > 0);
            assert(level_solutions(ins, m, wanted, d.len()).len() == 0);
        }
    }
}

} // verus!
