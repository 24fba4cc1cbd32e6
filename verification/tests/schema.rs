use tablegen::columns::Column;
use tablegen::generate::generate_chunk;
use tablegen::parse::{
    list_paths, parse_column_line, parse_row_count, parse_table, resolve_table, ColumnSpec,
    SchemaError,
};

#[test]
fn row_count_line_parses() {
    assert_eq!(parse_row_count("100").unwrap(), 100);
    assert_eq!(parse_row_count("  7 \n").unwrap(), 7);
    assert!(parse_row_count("abc").is_err());
    assert!(parse_row_count("").is_err());
    assert!(parse_row_count("12x").is_err());
    assert!(parse_row_count("99999999999999999999999999999999999999999").is_err());
}

#[test]
fn integer_column_parses() {
    match parse_column_line("i1,3").unwrap() {
        ColumnSpec::Ready {
            column: Column::Integer { min, max },
        } => {
            assert_eq!(min, 1);
            assert_eq!(max, 3);
        }
        _ => panic!("wrong column"),
    }
}

#[test]
fn sequence_column_parses() {
    match parse_column_line("s100\n").unwrap() {
        ColumnSpec::Ready {
            column: Column::Sequence { start },
        } => assert_eq!(start, 100),
        _ => panic!("wrong column"),
    }
}

#[test]
fn text_column_parses() {
    match parse_column_line("t3,3").unwrap() {
        ColumnSpec::Ready {
            column: Column::Text { min, max },
        } => {
            assert_eq!(min, 3);
            assert_eq!(max, 3);
        }
        _ => panic!("wrong column"),
    }
}

#[test]
fn exponential_column_parses() {
    match parse_column_line("e1,100,5").unwrap() {
        ColumnSpec::Ready {
            column:
                Column::Exponential {
                    min,
                    max,
                    probability,
                },
        } => {
            assert_eq!((min, max, probability), (1, 100, 5));
        }
        _ => panic!("wrong column"),
    }
}

#[test]
fn gaussian_column_parses() {
    match parse_column_line("g0,50,2.5").unwrap() {
        ColumnSpec::Ready {
            column:
                Column::Gaussian {
                    min,
                    max,
                    probability,
                },
        } => {
            assert_eq!((min, max), (0, 50));
            assert_eq!(probability, "2.5");
        }
        _ => panic!("wrong column"),
    }
    assert!(parse_column_line("g0,50,0.0").is_err());
    assert!(parse_column_line("g0,50,.5").is_err());
    assert!(parse_column_line("g0,50,x").is_err());
}

#[test]
fn poisson_column_parses() {
    match parse_column_line("p4").unwrap() {
        ColumnSpec::Ready {
            column: Column::Poisson { center },
        } => assert_eq!(center, 4),
        _ => panic!("wrong column"),
    }
    assert!(parse_column_line("p0").is_err());
}

#[test]
fn date_column_parses() {
    match parse_column_line("d2020-01-01,2020-01-31").unwrap() {
        ColumnSpec::Ready {
            column: Column::Date { start_ts, end_ts },
        } => {
            assert_eq!(start_ts, 1577836800);
            assert_eq!(end_ts, 1580428800);
        }
        _ => panic!("wrong column"),
    }
    assert!(parse_column_line("d2020-02-30,2020-03-01").is_err());
    assert!(parse_column_line("d2020-01-31,2020-01-01").is_err());
}

#[test]
fn list_column_parses_and_resolves() {
    match parse_column_line("litems.txt").unwrap() {
        ColumnSpec::NeedsList { path } => assert_eq!(path, "items.txt"),
        _ => panic!("wrong column"),
    }
}

#[test]
fn unknown_tag_is_fatal() {
    assert!(matches!(
        parse_column_line("x1,2"),
        Err(SchemaError::UnknownTag { .. })
    ));
}

#[test]
fn bad_bounds_are_schema_errors() {
    assert!(matches!(
        parse_column_line("i3,1"),
        Err(SchemaError::BadBounds { .. })
    ));
    assert!(matches!(
        parse_column_line("t5,2"),
        Err(SchemaError::BadBounds { .. })
    ));
    assert!(matches!(
        parse_column_line("i1"),
        Err(SchemaError::Malformed { .. })
    ));
}

#[test]
fn whole_file_parses_and_generates() {
    let lines: Vec<String> = vec![
        "4".to_string(),
        "s100".to_string(),
        "i1,3".to_string(),
        "".to_string(),
    ];
    let plan = parse_table(&lines).unwrap();
    assert_eq!(plan.rows, 4);
    assert_eq!(list_paths(&plan).len(), 0);
    let table = resolve_table(&plan, Vec::new()).unwrap();
    let out = generate_chunk(&table, ",", 1, 1, 42).unwrap();
    assert_eq!(out.lines().count(), 4);
    for (row, line) in out.lines().enumerate() {
        let parts: Vec<&str> = line.split(',').collect();
        assert_eq!(parts[0].parse::<i128>().unwrap(), 100 + row as i128);
    }
}

#[test]
fn list_file_contents_resolve_in_order() {
    let lines: Vec<String> = vec!["1000".to_string(), "litems.txt".to_string()];
    let plan = parse_table(&lines).unwrap();
    let paths = list_paths(&plan);
    assert_eq!(paths, vec!["items.txt".to_string()]);
    let items = vec![vec![
        "red".to_string(),
        "green".to_string(),
        "blue".to_string(),
    ]];
    let table = resolve_table(&plan, items).unwrap();
    let out = generate_chunk(&table, "\t", 1, 1, 9).unwrap();
    assert_eq!(out.lines().count(), 1000);
    for line in out.lines() {
        assert!(line == "red" || line == "green" || line == "blue");
    }
}

#[test]
fn empty_list_file_is_a_schema_error() {
    let lines: Vec<String> = vec!["10".to_string(), "litems.txt".to_string()];
    let plan = parse_table(&lines).unwrap();
    assert!(matches!(
        resolve_table(&plan, vec![Vec::new()]),
        Err(SchemaError::EmptyList { .. })
    ));
}

#[test]
fn missing_item_lists_are_refused() {
    let lines: Vec<String> = vec!["10".to_string(), "litems.txt".to_string()];
    let plan = parse_table(&lines).unwrap();
    assert!(matches!(
        resolve_table(&plan, Vec::new()),
        Err(SchemaError::ListMismatch)
    ));
}

#[test]
fn january_dates_stay_in_january() {
    let lines: Vec<String> = vec!["10".to_string(), "d2020-01-01,2020-01-31".to_string()];
    let plan = parse_table(&lines).unwrap();
    let table = resolve_table(&plan, Vec::new()).unwrap();
    let out = generate_chunk(&table, "\t", 1, 1, 11).unwrap();
    assert_eq!(out.lines().count(), 10);
    for line in out.lines() {
        assert_eq!(&line[0..8], "2020-01-");
        let day: u32 = line[8..10].parse().unwrap();
        assert!((1..=31).contains(&day));
    }
}
