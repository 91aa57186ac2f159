use bfgen::assemble::{assemble, to_bf};
use bfgen::factor::multiply;
use bfgen::histogram::{best_offset, filesize, occur_map};
use bfgen::table::{summations, EncodingTable};

/// Runs a generated program under the target instruction-set semantics:
/// a one-directional unbounded tape of wrapping byte cells, pointer at
/// cell 0. Returns the produced output bytes, or an error string if the
/// program is malformed, moves left of cell 0, or exceeds the step cap.
fn run_program(prog: &[u8], max_steps: u64) -> Result<Vec<u8>, &'static str> {
    // Precompute matching brackets.
    let mut jump = vec![usize::MAX; prog.len()];
    let mut stack: Vec<usize> = Vec::new();
    for (i, &c) in prog.iter().enumerate() {
        match c {
            b'[' => stack.push(i),
            b']' => {
                let open = stack.pop().ok_or("unmatched closing bracket")?;
                jump[open] = i;
                jump[i] = open;
            }
            _ => {}
        }
    }
    if !stack.is_empty() {
        return Err("unmatched opening bracket");
    }
    let mut tape = vec![0u8; 1];
    let mut ptr: usize = 0;
    let mut pc: usize = 0;
    let mut out = Vec::new();
    let mut steps: u64 = 0;
    while pc < prog.len() {
        steps += 1;
        if steps > max_steps {
            return Err("step cap exceeded");
        }
        match prog[pc] {
            b'+' => tape[ptr] = tape[ptr].wrapping_add(1),
            b'-' => tape[ptr] = tape[ptr].wrapping_sub(1),
            b'>' => {
                ptr += 1;
                if ptr == tape.len() {
                    tape.push(0);
                }
            }
            b'<' => {
                if ptr == 0 {
                    return Err("moved left of cell 0");
                }
                ptr -= 1;
            }
            b'[' => {
                if tape[ptr] == 0 {
                    pc = jump[pc];
                }
            }
            b']' => {
                if tape[ptr] != 0 {
                    pc = jump[pc];
                }
            }
            b'.' => out.push(tape[ptr]),
            b'\n' => {}
            _ => return Err("unexpected symbol"),
        }
        pc += 1;
    }
    Ok(out)
}

fn is_well_formed(prog: &[u8]) -> bool {
    if prog.is_empty() || prog[prog.len() - 1] != b'\n' {
        return false;
    }
    let mut depth: i64 = 0;
    for (i, &c) in prog.iter().enumerate() {
        match c {
            b'+' | b'-' | b'<' | b'>' | b'.' => {}
            b'[' => depth += 1,
            b']' => {
                depth -= 1;
                if depth < 0 {
                    return false;
                }
            }
            b'\n' => {
                if i != prog.len() - 1 {
                    return false;
                }
            }
            _ => return false,
        }
    }
    depth == 0
}

fn compile(input: &[u8]) -> Vec<u8> {
    let table = summations();
    to_bf(&table, &input.to_vec())
}

fn isqrt_ref(n: u16) -> u16 {
    let mut r: u16 = 0;
    while (r + 1) * (r + 1) <= n {
        r += 1;
    }
    r
}

#[test]
fn multiply_concrete_values() {
    assert_eq!(multiply(1), (0, 1, 1));
    assert_eq!(multiply(65), (1, 8, 8));
    assert_eq!(multiply(257), (1, 16, 16));
    assert_eq!(multiply(4), (0, 2, 2));
    assert_eq!(multiply(3), (0, 1, 3));
}

#[test]
fn multiply_decomposition_holds_for_all_magnitudes() {
    for n in 1..=257u16 {
        let (rem, outer, inner) = multiply(n);
        assert_eq!(outer as u16 * inner as u16 + rem as u16, n);
        assert_eq!(outer as u16, isqrt_ref(n));
        assert!((rem as u16) < outer as u16);
    }
}

#[test]
fn table_has_515_entries() {
    let table = summations();
    assert_eq!(table.entries.len(), 515);
}

#[test]
fn table_fragments_nonempty_and_symbols_only() {
    let table = summations();
    for d in -257..=257i16 {
        let frag = table.get(d);
        assert!(!frag.is_empty());
        for &c in frag.iter() {
            assert!(matches!(c, b'+' | b'-' | b'<' | b'>' | b'[' | b']'));
        }
    }
}

#[test]
fn table_zero_delta_is_pointer_advance() {
    let table = summations();
    assert_eq!(table.get(0).as_slice(), b">>");
}

#[test]
fn table_picks_shorter_candidate() {
    let table = summations();
    for d in -257..=257i16 {
        if d == 0 {
            continue;
        }
        let abs = d.unsigned_abs();
        let raw_len = 2 + abs as usize;
        let (rem, outer, inner) = multiply(abs);
        let mult_len = outer as usize + inner as usize + rem as usize + 7;
        let expected = if mult_len > raw_len { raw_len } else { mult_len };
        assert_eq!(table.get(d).len(), expected);
    }
}

#[test]
fn table_unary_fragment_shape() {
    let table = summations();
    assert_eq!(table.get(1).as_slice(), b">+>");
    assert_eq!(table.get(-2).as_slice(), b">-->");
}

#[test]
fn table_tie_prefers_factorized() {
    // For delta 12 the unary and factorized candidates are both 14
    // symbols; the factorized one is stored.
    let table = summations();
    assert_eq!(table.get(12).as_slice(), b"+++[>++++<-]>>");
}

#[test]
fn histogram_counts_each_byte() {
    let counts = occur_map(&vec![65u8, 65, 66]);
    assert_eq!(counts.len(), 256);
    assert_eq!(counts[65], 2);
    assert_eq!(counts[66], 1);
    for (b, &c) in counts.iter().enumerate() {
        if b != 65 && b != 66 {
            assert_eq!(c, 0);
        }
    }
}

#[test]
fn histogram_empty_input() {
    let counts = occur_map(&Vec::new());
    assert!(counts.iter().all(|&c| c == 0));
    assert_eq!(filesize(&counts), 0);
}

#[test]
fn filesize_sums_counters() {
    let counts = occur_map(&vec![0u8, 0, 0, 255, 7]);
    assert_eq!(filesize(&counts), 5);
}

fn total_cost_ref(table: &EncodingTable, counts: &[u64], t: i16) -> u64 {
    let mut total = 0u64;
    for (b, &amount) in counts.iter().enumerate() {
        total += table.get(b as i16 - t).len() as u64 * amount;
    }
    total
}

#[test]
fn best_offset_single_zero_byte() {
    let table = summations();
    let counts = occur_map(&vec![0u8]);
    assert_eq!(best_offset(&table, &counts), 0);
}

#[test]
fn best_offset_two_letters_prefers_earliest_tie() {
    let table = summations();
    // "AB": constants 65 and 66 tie at total cost 5; the earlier one wins.
    let counts = occur_map(&vec![0x41u8, 0x42]);
    assert_eq!(
        total_cost_ref(&table, &counts, 65),
        total_cost_ref(&table, &counts, 66)
    );
    assert_eq!(best_offset(&table, &counts), 65);
}

#[test]
fn best_offset_never_worse_than_zero() {
    let table = summations();
    for input in [
        b"hello world".to_vec(),
        vec![0u8; 10],
        vec![255u8, 1, 128],
        (0u8..=255).collect::<Vec<u8>>(),
    ] {
        let counts = occur_map(&input);
        let best = best_offset(&table, &counts);
        assert!(
            total_cost_ref(&table, &counts, best as i16) <= total_cost_ref(&table, &counts, 0)
        );
    }
}

#[test]
fn assembly_is_deterministic() {
    let input = b"some input bytes \x00\xff\x80".to_vec();
    assert_eq!(compile(&input), compile(&input));
}

#[test]
fn assemble_matches_pipeline() {
    let table = summations();
    let input = vec![0x41u8, 0x42];
    let counts = occur_map(&input);
    let offset = best_offset(&table, &counts);
    assert_eq!(assemble(&input, &table, offset), to_bf(&table, &input));
}

#[test]
fn two_letter_exact_program_text() {
    // "AB" selects constant 65; the program is the stripped fragment for
    // 65, the clear-and-loop header for two bytes, the fragment for 'B'
    // (delta 1), the one-time patch, the fragment for 'A' (delta 0), and
    // the trailer.
    let mut expected = Vec::new();
    expected.extend_from_slice(b"++++++++[>++++++++<-]>+"); // constant 65
    expected.extend_from_slice(b"[->>+>>+<<<<]>"); // header, two counter cells
    expected.extend_from_slice(b">+>"); // delta 1 for 'B'
    expected.extend_from_slice(b"<<->>"); // one-time patch
    expected.extend_from_slice(b">>"); // delta 0 for 'A'
    expected.extend_from_slice(b"+[<.<+]\n"); // trailer
    assert_eq!(compile(b"AB"), expected);
}

#[test]
fn single_zero_byte_roundtrip() {
    let prog = compile(&[0x00]);
    assert!(is_well_formed(&prog));
    assert_eq!(run_program(&prog, 1_000_000).unwrap(), vec![0x00]);
}

#[test]
fn two_letter_roundtrip() {
    let prog = compile(b"AB");
    assert!(is_well_formed(&prog));
    assert_eq!(run_program(&prog, 1_000_000).unwrap(), b"AB".to_vec());
}

#[test]
fn empty_input_program_is_well_formed() {
    let prog = compile(&[]);
    assert!(is_well_formed(&prog));
    // Constant 0, prefix and header, no per-byte phase, no output loop.
    assert_eq!(prog, b">[-]>\n".to_vec());
}

#[test]
fn empty_input_program_executes_with_no_output() {
    let prog = compile(&[]);
    assert_eq!(run_program(&prog, 1_000).unwrap(), Vec::<u8>::new());
}

#[test]
fn text_roundtrip() {
    let input = b"Hello, World!";
    let prog = compile(input);
    assert!(is_well_formed(&prog));
    assert_eq!(run_program(&prog, 10_000_000).unwrap(), input.to_vec());
}

#[test]
fn binary_roundtrip() {
    let input = [1u8, 2, 3, 255, 0, 128, 254, 17];
    let prog = compile(&input);
    assert!(is_well_formed(&prog));
    assert_eq!(run_program(&prog, 10_000_000).unwrap(), input.to_vec());
}

#[test]
fn repeated_byte_roundtrip() {
    let input = vec![0xFFu8; 12];
    let prog = compile(&input);
    assert!(is_well_formed(&prog));
    assert_eq!(run_program(&prog, 10_000_000).unwrap(), input);
}

#[test]
fn all_byte_values_roundtrip() {
    let input: Vec<u8> = (0u8..=255).collect();
    let prog = compile(&input);
    assert!(is_well_formed(&prog));
    assert_eq!(run_program(&prog, 100_000_000).unwrap(), input);
}
