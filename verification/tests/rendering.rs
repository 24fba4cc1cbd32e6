use tablegen::columns::Cell;
use tablegen::numfmt::int_string;
use tablegen::render::{render_row, render_rows};

#[test]
fn integers_render_in_plain_decimal() {
    assert_eq!(int_string(0), "0");
    assert_eq!(int_string(7), "7");
    assert_eq!(int_string(120), "120");
    assert_eq!(int_string(-1), "-1");
    assert_eq!(int_string(-120), "-120");
    assert_eq!(
        int_string(i128::MAX),
        "170141183460469231731687303715884105727"
    );
    assert_eq!(
        int_string(i128::MIN),
        "-170141183460469231731687303715884105728"
    );
}

#[test]
fn rows_join_cells_with_the_delimiter() {
    let row = vec![
        Cell::Int(1),
        Cell::Str("two".to_string()),
        Cell::Int(-3),
    ];
    assert_eq!(render_row(&row, "\t"), "1\ttwo\t-3\n");
    let empty: Vec<Cell> = Vec::new();
    assert_eq!(render_row(&empty, "\t"), "");
}

#[test]
fn rows_concatenate_in_order() {
    let rows = vec![
        vec![Cell::Int(1), Cell::Int(2)],
        vec![Cell::Int(3), Cell::Int(4)],
    ];
    assert_eq!(render_rows(&rows, ","), "1,2\n3,4\n");
}

#[test]
fn text_content_is_emitted_verbatim() {
    let rows = vec![vec![Cell::Str("a,b".to_string()), Cell::Int(9)]];
    assert_eq!(render_rows(&rows, ","), "a,b,9\n");
}
