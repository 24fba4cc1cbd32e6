use tablegen::chunking::chunk_bounds;
use tablegen::columns::{Cell, Column};
use tablegen::generate::{generate_cells, generate_chunk, TableDefinition};
use tablegen::render::render_rows;

use rand::{Rng, SeedableRng};

/// The floating-point finish for the raw-draw cells, exactly as the
/// command-line front end computes it.
fn finish_cell(cell: Cell) -> Cell {
    match cell {
        Cell::ExpDraw {
            raw,
            min,
            max,
            probability,
        } => {
            let uniform: f64 = 1.0 - ((raw >> 11) as f64) / 9007199254740992.0;
            let cut: f64 = (-(probability as f64)).exp();
            let scaled: f64 = -((cut + (1.0 - cut) * uniform).ln()) / probability as f64;
            Cell::Int(min + ((max - min + 1) as f64 * scaled) as i128)
        }
        Cell::PoissonDraw { raw, center } => {
            let uniform: f64 = 1.0 - ((raw >> 11) as f64) / 9007199254740992.0;
            Cell::Int(((-uniform.ln()) * center as f64 + 0.5) as i128)
        }
        Cell::GaussDraw {
            raw,
            min,
            max,
            probability,
        } => {
            let p: f64 = probability.parse::<f64>().unwrap();
            let mut sub = rand_pcg::Pcg64::seed_from_u64(raw);
            loop {
                let r1: f64 = sub.gen::<f64>();
                let r2: f64 = sub.gen::<f64>();
                let deviate: f64 =
                    (-2.0 * r1.ln()).sqrt() * (2.0 * std::f64::consts::PI * r2).sin();
                if deviate >= -p && deviate < p {
                    let scaled: f64 = (deviate + p) / (p * 2.0);
                    break Cell::Int(min + ((max - min + 1) as f64 * scaled) as i128);
                }
            }
        }
        other => other,
    }
}

fn seq_int_table() -> TableDefinition {
    TableDefinition {
        rows: 4,
        columns: vec![
            Column::Sequence { start: 100 },
            Column::Integer { min: 1, max: 3 },
        ],
    }
}

#[test]
fn single_run_sequence_and_integer() {
    let table = seq_int_table();
    let out = generate_chunk(&table, ",", 1, 1, 42).unwrap();
    let lines: Vec<&str> = out.lines().collect();
    assert_eq!(lines.len(), 4);
    for (row, line) in lines.iter().enumerate() {
        let parts: Vec<&str> = line.split(',').collect();
        assert_eq!(parts.len(), 2);
        assert_eq!(parts[0].parse::<i128>().unwrap(), 100 + row as i128);
        let n = parts[1].parse::<i128>().unwrap();
        assert!((1..=3).contains(&n));
    }
    assert!(out.ends_with('\n'));
}

#[test]
fn chunked_concatenation_matches_single_run() {
    let table = seq_int_table();
    let whole = generate_chunk(&table, ",", 1, 1, 42).unwrap();
    let table2 = seq_int_table();
    let first = generate_chunk(&table2, ",", 2, 1, 42).unwrap();
    let table3 = seq_int_table();
    let second = generate_chunk(&table3, ",", 2, 2, 42).unwrap();
    assert_eq!(format!("{}{}", first, second), whole);
}

#[test]
fn text_values_have_length_and_alphabet() {
    let table = TableDefinition {
        rows: 20,
        columns: vec![Column::Text { min: 3, max: 3 }],
    };
    let out = generate_chunk(&table, "\t", 1, 1, 0).unwrap();
    let lines: Vec<&str> = out.lines().collect();
    assert_eq!(lines.len(), 20);
    for line in lines {
        assert_eq!(line.len(), 3);
        assert!(line.chars().all(|c| c.is_ascii_alphabetic()));
    }
}

#[test]
fn list_values_come_from_the_items() {
    let items = vec!["red".to_string(), "green".to_string(), "blue".to_string()];
    let table = TableDefinition {
        rows: 1000,
        columns: vec![Column::List { items }],
    };
    let out = generate_chunk(&table, "\t", 1, 1, 7).unwrap();
    let lines: Vec<&str> = out.lines().collect();
    assert_eq!(lines.len(), 1000);
    for line in lines {
        assert!(line == "red" || line == "green" || line == "blue");
    }
}

#[test]
fn chunk_remainder_goes_to_last_chunk() {
    assert_eq!(chunk_bounds(7, 3, 1).unwrap(), (0, 2));
    assert_eq!(chunk_bounds(7, 3, 2).unwrap(), (2, 4));
    assert_eq!(chunk_bounds(7, 3, 3).unwrap(), (4, 7));

    let mut counts = Vec::new();
    for chunk in 1..=3u64 {
        let table = TableDefinition {
            rows: 7,
            columns: vec![Column::Sequence { start: 0 }],
        };
        let out = generate_chunk(&table, "\t", 3, chunk, 5).unwrap();
        counts.push(out.lines().count());
    }
    assert_eq!(counts, vec![2, 2, 3]);
}

#[test]
fn chunk_parameters_that_make_no_sense_are_errors() {
    let table = seq_int_table();
    assert!(generate_chunk(&table, ",", 0, 1, 1).is_err());
    let table = seq_int_table();
    assert!(generate_chunk(&table, ",", 2, 3, 1).is_err());
    let table = seq_int_table();
    assert!(generate_chunk(&table, ",", 2, 0, 1).is_err());
}

#[test]
fn negative_sequence_values_render_with_sign() {
    let table = TableDefinition {
        rows: 3,
        columns: vec![Column::Sequence { start: -5 }],
    };
    let out = generate_chunk(&table, "\t", 1, 1, 1).unwrap();
    assert_eq!(out, "-5\n-4\n-3\n");
}

#[test]
fn determinism_same_seed_same_bytes() {
    let table = TableDefinition {
        rows: 50,
        columns: vec![
            Column::Integer { min: 0, max: 999 },
            Column::Text { min: 1, max: 8 },
            Column::Date {
                start_ts: 1577836800,
                end_ts: 1580428800,
            },
        ],
    };
    let a = generate_chunk(&table, "|", 1, 1, 123).unwrap();
    let table2 = TableDefinition {
        rows: 50,
        columns: vec![
            Column::Integer { min: 0, max: 999 },
            Column::Text { min: 1, max: 8 },
            Column::Date {
                start_ts: 1577836800,
                end_ts: 1580428800,
            },
        ],
    };
    let b = generate_chunk(&table2, "|", 1, 1, 123).unwrap();
    assert_eq!(a, b);
}

fn full_table() -> TableDefinition {
    TableDefinition {
        rows: 30,
        columns: vec![
            Column::Sequence { start: 1 },
            Column::Integer { min: 10, max: 20 },
            Column::Exponential {
                min: 0,
                max: 100,
                probability: 2,
            },
            Column::Gaussian {
                min: 0,
                max: 50,
                probability: "2.5".to_string(),
            },
            Column::Poisson { center: 4 },
            Column::Text { min: 2, max: 5 },
        ],
    }
}

fn run_full(chunks: u64, chunk: u64, seed: u64) -> String {
    let table = full_table();
    let rows = generate_cells(&table, chunks, chunk, seed).unwrap();
    let finished: Vec<Vec<Cell>> = rows
        .into_iter()
        .map(|row| row.into_iter().map(finish_cell).collect())
        .collect();
    render_rows(&finished, ",")
}

#[test]
fn all_samplers_chunk_concatenation_matches_single_run() {
    let whole = run_full(1, 1, 99);
    let parts: String = (1..=3u64).map(|k| run_full(3, k, 99)).collect();
    assert_eq!(parts, whole);
    assert_eq!(whole.lines().count(), 30);
}

#[test]
fn transcendental_values_stay_in_range() {
    let table = full_table();
    let rows = generate_cells(&table, 1, 1, 4242).unwrap();
    for row in rows {
        for cell in row {
            match finish_cell(cell) {
                Cell::Int(_) => {}
                Cell::Str(_) => {}
                _ => panic!("a raw draw survived finishing"),
            }
        }
    }
    // Ranges of the finished values, through the rendered text.
    let out = run_full(1, 1, 4242);
    for line in out.lines() {
        let parts: Vec<&str> = line.split(',').collect();
        assert_eq!(parts.len(), 6);
        let exp: i128 = parts[2].parse().unwrap();
        assert!((0..=100).contains(&exp));
        let gauss: i128 = parts[3].parse().unwrap();
        assert!((0..=50).contains(&gauss));
        let poisson: i128 = parts[4].parse().unwrap();
        assert!(poisson >= 0);
    }
}

#[test]
fn delimiter_appears_between_every_pair_of_columns() {
    let table = TableDefinition {
        rows: 5,
        columns: vec![
            Column::Sequence { start: 0 },
            Column::Integer { min: 0, max: 9 },
            Column::Integer { min: 0, max: 9 },
        ],
    };
    let out = generate_chunk(&table, ";", 1, 1, 3).unwrap();
    for line in out.lines() {
        assert_eq!(line.matches(';').count(), 2);
    }
}
