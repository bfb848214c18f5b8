use superopt::{
    find_circuits, find_for_n, parse_table, render_formula, searching, signal_name,
    tabulate_inputs, validity_mask, Gate, TableError,
};

fn g(in1: usize, in2: usize) -> Gate {
    Gate { in1, in2 }
}

/// Evaluates a circuit on one row of input values, gate by gate.
fn eval_row(row: &[bool], circuit: &[Gate]) -> bool {
    let mut s: Vec<bool> = row.to_vec();
    for gate in circuit {
        let v = !(s[gate.in1] && s[gate.in2]);
        s.push(v);
    }
    *s.last().unwrap()
}

/// The inputs of written row `j` of a table over `n` inputs: input 0 is the
/// most significant digit of `j`.
fn written_row(n: usize, j: usize) -> Vec<bool> {
    (0..n).map(|i| (j >> (n - 1 - i)) & 1 == 1).collect()
}

/// Checks that a circuit reproduces the written table on every row.
fn reproduces(table: &str, n: usize, circuit: &[Gate]) -> bool {
    table
        .bytes()
        .enumerate()
        .all(|(j, d)| eval_row(&written_row(n, j), circuit) == (d == b'1'))
}

#[test]
fn tabulate_small_counts() {
    assert_eq!(tabulate_inputs(0), Vec::<u64>::new());
    assert_eq!(tabulate_inputs(1), vec![0b01]);
    assert_eq!(tabulate_inputs(2), vec![0b0011, 0b0101]);
    assert_eq!(tabulate_inputs(3), vec![0x0F, 0x33, 0x55]);
    assert_eq!(tabulate_inputs(6)[0], 0x0000_0000_FFFF_FFFF);
    assert_eq!(tabulate_inputs(6)[5], 0x5555_5555_5555_5555);
}

#[test]
fn tabulated_rows_are_distinct_and_complete() {
    for n in 0..=3usize {
        let masks = tabulate_inputs(n);
        let rows = 1usize << n;
        let mut seen = vec![false; rows];
        for k in 0..rows {
            let mut combo = 0usize;
            for (i, m) in masks.iter().enumerate() {
                if (m >> k) & 1 == 1 {
                    combo |= 1 << i;
                }
            }
            assert!(!seen[combo]);
            seen[combo] = true;
        }
        assert!(seen.iter().all(|&b| b));
    }
}

#[test]
fn validity_masks() {
    assert_eq!(validity_mask(0), 1);
    assert_eq!(validity_mask(1), 0b11);
    assert_eq!(validity_mask(2), 0xF);
    assert_eq!(validity_mask(5), 0xFFFF_FFFF);
    assert_eq!(validity_mask(6), u64::MAX);
}

#[test]
fn parse_reads_first_digit_as_highest_bit() {
    let t = parse_table(b"10").unwrap();
    assert_eq!((t.wanted, t.ninputs), (2, 1));
    let t = parse_table(b"0001").unwrap();
    assert_eq!((t.wanted, t.ninputs), (1, 2));
    let t = parse_table(b"1").unwrap();
    assert_eq!((t.wanted, t.ninputs), (1, 0));
    let wide = vec![b'1'; 64];
    let t = parse_table(&wide).unwrap();
    assert_eq!((t.wanted, t.ninputs), (u64::MAX, 6));
}

#[test]
fn parse_errors() {
    assert_eq!(parse_table(b""), Err(TableError::BadLength));
    assert_eq!(parse_table(b"101"), Err(TableError::BadLength));
    assert_eq!(parse_table(&vec![b'0'; 128]), Err(TableError::BadLength));
    assert_eq!(parse_table(b"1021"), Err(TableError::BadDigit));
    assert_eq!(parse_table(b"10x"), Err(TableError::BadLength));
}

#[test]
fn not_gate_needs_one_gate() {
    let t = parse_table(b"10").unwrap();
    let r = find_circuits(t.wanted, t.ninputs, 6);
    assert_eq!(r.tried, 1);
    assert_eq!(r.solutions, vec![vec![g(0, 0)]]);
    assert!(reproduces("10", 1, &r.solutions[0]));
    let text = render_formula(1, &r.solutions[0]).unwrap();
    assert_eq!(String::from_utf8(text).unwrap(), "b = ~(a a)");
}

#[test]
fn and_gate_needs_two_gates() {
    // Written rows 00, 01, 10, 11: only the last is 1.
    let t = parse_table(b"0001").unwrap();
    let r = find_circuits(t.wanted, t.ninputs, 6);
    assert_eq!(r.tried, 2);
    assert_eq!(r.solutions, vec![vec![g(1, 0), g(2, 2)]]);
    assert!(reproduces("0001", 2, &r.solutions[0]));
    let text = render_formula(2, &r.solutions[0]).unwrap();
    assert_eq!(String::from_utf8(text).unwrap(), "c = ~(b a); d = ~(c c)");
}

#[test]
fn xor_needs_four_gates() {
    let t = parse_table(b"0110").unwrap();
    let inputs = tabulate_inputs(2);
    let mask = validity_mask(2);
    for ngates in 1..=3usize {
        assert!(find_for_n(t.wanted, 2, &inputs, mask, ngates).is_empty());
    }
    let r = find_circuits(t.wanted, t.ninputs, 6);
    assert_eq!(r.tried, 4);
    assert_eq!(
        r.solutions,
        vec![
            vec![g(1, 0), g(2, 0), g(2, 1), g(4, 3)],
            vec![g(1, 0), g(2, 1), g(2, 0), g(4, 3)],
        ]
    );
    for c in &r.solutions {
        assert!(reproduces("0110", 2, c));
    }
}

#[test]
fn xor_with_one_gate_bound_finds_nothing() {
    let t = parse_table(b"0110").unwrap();
    let r = find_circuits(t.wanted, t.ninputs, 1);
    assert_eq!(r.tried, 1);
    assert!(r.solutions.is_empty());
}

#[test]
fn zero_gate_bound_tries_nothing() {
    let r = find_circuits(2, 1, 0);
    assert_eq!(r.tried, 0);
    assert!(r.solutions.is_empty());
}

#[test]
fn nor_and_or_levels() {
    let t = parse_table(b"1000").unwrap();
    let r = find_circuits(t.wanted, t.ninputs, 6);
    assert_eq!(r.tried, 4);
    assert_eq!(r.solutions.len(), 4);
    assert_eq!(r.solutions[0], vec![g(0, 0), g(1, 1), g(3, 2), g(4, 4)]);
    for c in &r.solutions {
        assert!(reproduces("1000", 2, c));
    }
    let t = parse_table(b"0111").unwrap();
    let r = find_circuits(t.wanted, t.ninputs, 6);
    assert_eq!(r.tried, 3);
    assert_eq!(r.solutions.len(), 4);
    let t = parse_table(b"1110").unwrap();
    let r = find_circuits(t.wanted, t.ninputs, 6);
    assert_eq!(r.tried, 1);
    assert_eq!(r.solutions, vec![vec![g(1, 0)]]);
}

#[test]
fn identity_needs_two_gates() {
    let t = parse_table(b"01").unwrap();
    let r = find_circuits(t.wanted, t.ninputs, 6);
    assert_eq!(r.tried, 2);
    assert_eq!(r.solutions, vec![vec![g(0, 0), g(1, 1)]]);
}

#[test]
fn candidate_count_uses_ordered_pairs_only() {
    // With an empty mask every candidate matches, so the result lists all of
    // them: 3 pairs for the first gate over two inputs, 6 for the second,
    // 10 for the third.
    let inputs = tabulate_inputs(2);
    assert_eq!(find_for_n(0, 2, &inputs, 0, 1).len(), 3);
    assert_eq!(find_for_n(0, 2, &inputs, 0, 2).len(), 18);
    let all = find_for_n(0, 2, &inputs, 0, 3);
    assert_eq!(all.len(), 180);
    for c in &all {
        for gate in c {
            assert!(gate.in2 <= gate.in1);
        }
    }
    for i in 0..all.len() {
        for j in (i + 1)..all.len() {
            assert_ne!(all[i], all[j]);
        }
    }
}

#[test]
fn no_inputs_no_circuits() {
    let inputs = tabulate_inputs(0);
    assert!(find_for_n(0, 0, &inputs, 0, 3).is_empty());
    let r = find_circuits(1, 0, 3);
    assert_eq!(r.tried, 3);
    assert!(r.solutions.is_empty());
}

#[test]
fn zero_gates_no_circuits() {
    let inputs = tabulate_inputs(2);
    assert!(find_for_n(0, 2, &inputs, 0, 0).is_empty());
}

#[test]
fn searching_keeps_the_placed_prefix() {
    // The first gate is fixed as NAND(b, a); the search completes it with one
    // more gate and finds AND.
    let inputs = tabulate_inputs(2);
    let mut circuit = vec![g(1, 0), g(0, 0)];
    let mut values = vec![inputs[0], inputs[1], !(inputs[0] & inputs[1]), 0];
    let mut found: Vec<Vec<Gate>> = Vec::new();
    let any = searching(1, 2, validity_mask(2), 2, &mut circuit, &mut values, 1, &mut found);
    assert!(any);
    assert_eq!(found, vec![vec![g(1, 0), g(2, 2)]]);
    assert_eq!(circuit[0], g(1, 0));
    assert_eq!(&values[..3], &[inputs[0], inputs[1], !(inputs[0] & inputs[1])]);
}

#[test]
fn found_circuits_reproduce_three_input_tables() {
    // NAND and AND of three inputs, and the first input alone.
    for (table, gates, count) in [("11111110", 3, 6), ("00000001", 4, 6), ("00001111", 2, 1)] {
        let t = parse_table(table.as_bytes()).unwrap();
        let r = find_circuits(t.wanted, t.ninputs, 4);
        assert_eq!(r.tried, gates);
        assert_eq!(r.solutions.len(), count);
        for c in &r.solutions {
            assert_eq!(c.len(), r.tried);
            assert!(reproduces(table, 3, c));
        }
    }
}

#[test]
fn names_and_their_limit() {
    assert_eq!(signal_name(0), Some(b'a'));
    assert_eq!(signal_name(25), Some(b'z'));
    assert_eq!(signal_name(26), None);
    assert_eq!(render_formula(25, &vec![g(0, 0)]).unwrap(), b"z = ~(a a)".to_vec());
    assert_eq!(render_formula(26, &vec![g(0, 0)]), None);
    assert_eq!(render_formula(2, &vec![g(30, 0)]), None);
    assert_eq!(render_formula(3, &Vec::new()).unwrap(), Vec::<u8>::new());
}
