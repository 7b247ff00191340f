use csv::StringRecord;
use ravencol::{Datum, FrameError, RawFrame};

fn frame(header: &[&str], rows: &[&[&str]]) -> RawFrame {
    RawFrame {
        columns: StringRecord::from(header.to_vec()),
        records: rows.iter().map(|row| StringRecord::from(row.to_vec())).collect(),
    }
}

fn sample() -> RawFrame {
    frame(&["col_a", "col_b"], &[&["", "18"], &["13", "25a"], &["13", "23.0"], &["12"], &["25", "3"]])
}

fn numbers() -> RawFrame {
    frame(
        &["x", "y", "z"],
        &[
            &["3", "30", "a"],
            &["1", "10", "7"],
            &["3", "31", ""],
            &["oops", "99", "8"],
            &["2", "", "9"],
            &["1", "11"],
            &["-4", "40", "10"],
        ],
    )
}

#[test]
fn col_index_gives_a_position_that_holds_the_name() {
    let datos = frame(&["a", "b", "c", "d"], &[]);
    for name in ["a", "b", "c", "d"] {
        let p = datos.col_index(name).unwrap();
        assert_eq!(datos.columns.get(p), Some(name));
    }
    assert_eq!(datos.col_index("a"), Some(0));
    assert_eq!(datos.col_index("d"), Some(3));
}

#[test]
fn col_index_fails_for_a_name_the_header_lacks() {
    let datos = frame(&["a", "b"], &[&["1", "2"]]);
    assert_eq!(datos.col_index("c"), None);
    assert_eq!(datos.col_index(""), None);
    assert_eq!(datos.col_index("A"), None);
    assert_eq!(datos.col_index("ab"), None);
    assert_eq!(frame(&[], &[]).col_index("a"), None);
}

#[test]
fn col_index_takes_the_first_of_equal_names() {
    let datos = frame(&["a", "b", "a", "b"], &[&["1", "2", "3", "4"]]);
    assert_eq!(datos.col_index("a"), Some(0));
    assert_eq!(datos.col_index("b"), Some(1));
    assert_eq!(datos.col_fil::<i32>("b").unwrap(), vec![2]);
}

#[test]
fn every_accessor_fails_for_an_unknown_column() {
    let datos = sample();
    let unknown = FrameError::UnknownColumn;
    assert_eq!(datos.column("nope").unwrap_err(), unknown);
    assert_eq!(datos.col_type::<i32>("nope").unwrap_err(), unknown);
    assert_eq!(datos.col_fil::<i32>("nope").unwrap_err(), unknown);
    assert_eq!(datos.col_imp::<i32>("nope", 0).unwrap_err(), unknown);
    assert_eq!(datos.max_num_fil::<i32>("nope").unwrap_err(), unknown);
    assert_eq!(datos.min_num_fil::<i32>("nope").unwrap_err(), unknown);
    assert_eq!(datos.extent_num_fil::<i32>("nope").unwrap_err(), unknown);
    assert_eq!(datos.pair_col_fil::<i32>("col_a", "nope").unwrap_err(), unknown);
    assert_eq!(datos.pair_col_fil::<i32>("nope", "col_b").unwrap_err(), unknown);
    assert_eq!(datos.pair_col_imp::<i32>("col_a", "nope", 0, 0).unwrap_err(), unknown);
    assert_eq!(datos.pair_col_fil_sorted::<i32>("nope", "col_a").unwrap_err(), unknown);
    assert_eq!(datos.pair_col_imp_sorted::<i32>("col_a", "nope", 0, 0).unwrap_err(), unknown);
    assert_eq!(datos.slice_col_imp::<i32>(vec!["col_a", "nope"], vec![0, 0]).unwrap_err(), unknown);
    assert_eq!(datos.slice_col_fil::<i32>(vec!["nope", "col_a"]).unwrap_err(), unknown);
    assert_eq!(datos.column_major_vector::<i32>(vec!["nope"], vec![0]).unwrap_err(), unknown);
    assert_eq!(datos.row_major_vector::<i32>(vec!["nope"], vec![0]).unwrap_err(), unknown);
}

#[test]
fn error_messages() {
    assert_eq!(FrameError::UnknownColumn.message(), "No existe la columna");
    assert_eq!(FrameError::ColumnCountMismatch.message(), "El número de columnas no es el mismo");
    assert_eq!(FrameError::NoMaximum.message(), "No se encontró el máximo");
    assert_eq!(FrameError::NoMinimum.message(), "No se encontró el mínimo");
}

#[test]
fn example_table_generic_column() {
    let datos = sample();
    let col_b = datos.column("col_b").unwrap();
    assert_eq!(
        col_b,
        vec![
            Datum::Integer(18),
            Datum::NotNumber("25a"),
            Datum::Float("23.0"),
            Datum::Missing,
            Datum::Integer(3),
        ]
    );
    match col_b[2] {
        Datum::Float(text) => assert_eq!(text.parse::<f64>().unwrap(), 23.0),
        _ => panic!("expected a float"),
    }
}

#[test]
fn example_table_filtered_and_imputed() {
    let datos = sample();
    assert_eq!(datos.col_fil::<i32>("col_a").unwrap(), vec![13, 13, 12, 25]);
    assert_eq!(datos.col_imp::<i32>("col_a", 0).unwrap(), vec![0, 13, 13, 12, 25]);
    assert_eq!(datos.col_type::<i32>("col_a").unwrap(), vec![None, Some(13), Some(13), Some(12), Some(25)]);
}

#[test]
fn classification_prefers_integer_over_float() {
    let datos = frame(&["v"], &[&["10"], &["-7"], &["+3"], &["10.0"], &["1e3"], &["2147483648"], &["inf"], &["NaN"]]);
    assert_eq!(
        datos.column("v").unwrap(),
        vec![
            Datum::Integer(10),
            Datum::Integer(-7),
            Datum::Integer(3),
            Datum::Float("10.0"),
            Datum::Float("1e3"),
            Datum::Float("2147483648"),
            Datum::Float("inf"),
            Datum::Float("NaN"),
        ]
    );
    for text in ["10", "-7", "+3"] {
        assert!(text.parse::<i32>().is_ok() && text.parse::<f64>().is_ok());
    }
}

#[test]
fn classification_of_text_and_missing_cells() {
    let datos = frame(&["u", "v"], &[&["", "x"], &["a b"], &[" 1", "1 "], &[]]);
    assert_eq!(
        datos.column("u").unwrap(),
        vec![Datum::NotNumber(""), Datum::NotNumber("a b"), Datum::NotNumber(" 1"), Datum::Missing]
    );
    assert_eq!(
        datos.column("v").unwrap(),
        vec![Datum::NotNumber("x"), Datum::Missing, Datum::NotNumber("1 "), Datum::Missing]
    );
}

#[test]
fn float_datum_text_always_reads_as_a_float() {
    let datos = frame(&["v"], &[&["1.5"], &[".5"], &["5."], &["-2e-3"], &["+infinity"], &["99999999999"]]);
    for datum in datos.column("v").unwrap() {
        match datum {
            Datum::Float(text) => assert!(text.parse::<f64>().is_ok()),
            other => panic!("expected a float, found {:?}", other),
        }
    }
}

#[test]
fn imputed_length_is_the_row_count() {
    let datos = numbers();
    assert_eq!(datos.records.len(), 7);
    for name in ["x", "y", "z"] {
        assert_eq!(datos.col_imp::<i32>(name, -1).unwrap().len(), 7);
        assert_eq!(datos.col_type::<i32>(name).unwrap().len(), 7);
    }
    assert_eq!(datos.col_imp::<i32>("z", -1).unwrap(), vec![-1, 7, -1, 8, 9, -1, 10]);
}

#[test]
fn filtered_length_counts_the_readable_cells() {
    let datos = numbers();
    for name in ["x", "y", "z"] {
        let options = datos.col_type::<i32>(name).unwrap();
        let readable = options.iter().filter(|value| value.is_some()).count();
        let filtered = datos.col_fil::<i32>(name).unwrap();
        assert_eq!(filtered.len(), readable);
        assert!(filtered.len() <= datos.records.len());
    }
    assert_eq!(datos.col_fil::<i32>("x").unwrap(), vec![3, 1, 3, 2, 1, -4]);
    assert_eq!(datos.col_fil::<i32>("y").unwrap(), vec![30, 10, 31, 99, 11, 40]);
    assert_eq!(datos.col_fil::<i32>("z").unwrap(), vec![7, 8, 9, 10]);
}

#[test]
fn a_column_can_be_read_as_different_types() {
    let datos = frame(&["v"], &[&["-1"], &["300"], &["5000000000"], &["x"]]);
    assert_eq!(datos.col_type::<i32>("v").unwrap(), vec![Some(-1), Some(300), None, None]);
    assert_eq!(datos.col_type::<i64>("v").unwrap(), vec![Some(-1), Some(300), Some(5000000000), None]);
    assert_eq!(datos.col_type::<u32>("v").unwrap(), vec![None, Some(300), None, None]);
    assert_eq!(datos.col_type::<u64>("v").unwrap(), vec![None, Some(300), Some(5000000000), None]);
    assert_eq!(datos.col_fil::<usize>("v").unwrap(), vec![300, 5000000000]);
}

#[test]
fn empty_table_gives_empty_columns() {
    let datos = frame(&["a", "b"], &[]);
    assert_eq!(datos.column("a").unwrap(), vec![]);
    assert_eq!(datos.col_type::<i32>("a").unwrap(), vec![]);
    assert_eq!(datos.col_fil::<i32>("a").unwrap(), Vec::<i32>::new());
    assert_eq!(datos.col_imp::<i32>("a", 1).unwrap(), Vec::<i32>::new());
    assert_eq!(datos.pair_col_fil::<i32>("a", "b").unwrap(), vec![]);
    assert_eq!(datos.row_major_vector::<i32>(vec!["a", "b"], vec![0, 0]).unwrap(), Vec::<i32>::new());
    assert_eq!(datos.column_major_vector::<i32>(vec!["a", "b"], vec![0, 0]).unwrap(), Vec::<i32>::new());
}

#[test]
fn extremes_of_a_column() {
    let datos = numbers();
    assert_eq!(datos.max_num_fil::<i32>("x").unwrap(), 3);
    assert_eq!(datos.min_num_fil::<i32>("x").unwrap(), -4);
    assert_eq!(datos.max_num_fil::<i32>("y").unwrap(), 99);
    assert_eq!(datos.min_num_fil::<i32>("y").unwrap(), 10);
    assert_eq!(datos.max_num_fil::<u32>("x").unwrap(), 3);
    assert_eq!(datos.min_num_fil::<u32>("x").unwrap(), 1);
    let ejemplo = sample();
    assert_eq!(ejemplo.max_num_fil::<i32>("col_a").unwrap(), 25);
    assert_eq!(ejemplo.min_num_fil::<i32>("col_a").unwrap(), 12);
}

#[test]
fn extent_is_minimum_and_maximum() {
    let datos = numbers();
    for name in ["x", "y", "z"] {
        let extent = datos.extent_num_fil::<i32>(name).unwrap();
        let minimum = datos.min_num_fil::<i32>(name).unwrap();
        let maximum = datos.max_num_fil::<i32>(name).unwrap();
        assert_eq!(extent, (minimum, maximum));
    }
    assert_eq!(datos.extent_num_fil::<i32>("x").unwrap(), (-4, 3));
    assert_eq!(datos.extent_num_fil::<i32>("z").unwrap(), (7, 10));
    assert_eq!(sample().extent_num_fil::<i32>("col_b").unwrap(), (3, 18));
}

#[test]
fn extremes_of_a_column_without_values_fail() {
    let datos = frame(&["a", "b"], &[&["x"], &["", "y"], &["1.5"]]);
    assert_eq!(datos.max_num_fil::<i32>("a").unwrap_err(), FrameError::NoMaximum);
    assert_eq!(datos.min_num_fil::<i32>("a").unwrap_err(), FrameError::NoMinimum);
    assert_eq!(datos.extent_num_fil::<i32>("a").unwrap_err(), FrameError::NoMaximum);
    assert_eq!(datos.max_num_fil::<i32>("b").unwrap_err(), FrameError::NoMaximum);
    let vacio = frame(&["a"], &[]);
    assert_eq!(vacio.min_num_fil::<i32>("a").unwrap_err(), FrameError::NoMinimum);
}

#[test]
fn pairs_filtered_need_both_cells() {
    let datos = numbers();
    assert_eq!(
        datos.pair_col_fil::<i32>("x", "y").unwrap(),
        vec![(3, 30), (1, 10), (3, 31), (1, 11), (-4, 40)]
    );
    assert_eq!(datos.pair_col_fil::<i32>("y", "z").unwrap(), vec![(10, 7), (99, 8), (40, 10)]);
    assert_eq!(datos.pair_col_fil::<i32>("x", "x").unwrap().len(), 6);
    assert_eq!(sample().pair_col_fil::<i32>("col_a", "col_b").unwrap(), vec![(25, 3)]);
}

#[test]
fn pairs_imputed_have_one_pair_per_row() {
    let datos = numbers();
    assert_eq!(
        datos.pair_col_imp::<i32>("x", "z", -1, -2).unwrap(),
        vec![(3, -2), (1, 7), (3, -2), (-1, 8), (2, 9), (1, -2), (-4, 10)]
    );
    assert_eq!(
        sample().pair_col_imp::<i32>("col_a", "col_b", 0, 100).unwrap(),
        vec![(0, 18), (13, 100), (13, 100), (12, 100), (25, 3)]
    );
}

#[test]
fn sorted_pairs_filtered() {
    let datos = numbers();
    let sorted = datos.pair_col_fil_sorted::<i32>("x", "y").unwrap();
    assert_eq!(sorted, vec![(-4, 40), (1, 10), (1, 11), (3, 30), (3, 31)]);
    let rows = datos.pair_col_fil::<i32>("x", "y").unwrap();
    assert_eq!(sorted.len(), rows.len());
}

#[test]
fn sorted_pairs_imputed() {
    let datos = numbers();
    assert_eq!(
        datos.pair_col_imp_sorted::<i32>("x", "z", 2, 0).unwrap(),
        vec![(-4, 10), (1, 7), (1, 0), (2, 8), (2, 9), (3, 0), (3, 0)]
    );
}

#[test]
fn sorted_pairs_keep_row_order_among_equal_keys() {
    let datos = frame(
        &["k", "row"],
        &[&["2", "0"], &["1", "1"], &["2", "2"], &["1", "3"], &["2", "4"], &["1", "5"]],
    );
    assert_eq!(
        datos.pair_col_fil_sorted::<i32>("k", "row").unwrap(),
        vec![(1, 1), (1, 3), (1, 5), (2, 0), (2, 2), (2, 4)]
    );
}

#[test]
fn slices_imputed_pair_columns_with_defaults() {
    let datos = numbers();
    assert_eq!(
        datos.slice_col_imp::<i32>(vec!["z", "x"], vec![-1, -2]).unwrap(),
        vec![
            vec![-1, 3],
            vec![7, 1],
            vec![-1, 3],
            vec![8, -2],
            vec![9, 2],
            vec![-1, 1],
            vec![10, -4],
        ]
    );
    assert_eq!(
        datos.slice_col_imp::<i32>(vec!["x", "y", "z"], vec![0]).unwrap(),
        vec![vec![3], vec![1], vec![3], vec![0], vec![2], vec![1], vec![-4]]
    );
    assert_eq!(
        datos.slice_col_imp::<i32>(vec!["x"], vec![0, 5, 6]).unwrap(),
        vec![vec![3], vec![1], vec![3], vec![0], vec![2], vec![1], vec![-4]]
    );
    assert_eq!(datos.slice_col_imp::<i32>(vec![], vec![1]).unwrap(), vec![Vec::<i32>::new(); 7]);
}

#[test]
fn slices_filtered_need_every_cell() {
    let datos = numbers();
    assert_eq!(
        datos.slice_col_fil::<i32>(vec!["x", "y", "z"]).unwrap(),
        vec![vec![1, 10, 7], vec![-4, 40, 10]]
    );
    assert_eq!(
        datos.slice_col_fil::<i32>(vec!["y", "x"]).unwrap(),
        vec![vec![30, 3], vec![10, 1], vec![31, 3], vec![11, 1], vec![40, -4]]
    );
    assert_eq!(datos.slice_col_fil::<i32>(vec![]).unwrap(), vec![Vec::<i32>::new(); 7]);
}

#[test]
fn column_major_lays_columns_end_to_end() {
    let datos = sample();
    assert_eq!(
        datos.column_major_vector::<i32>(vec!["col_a", "col_b"], vec![0, -1]).unwrap(),
        vec![0, 13, 13, 12, 25, 18, -1, -1, -1, 3]
    );
    assert_eq!(
        datos.column_major_vector::<i32>(vec!["col_b", "col_a"], vec![7]).unwrap(),
        vec![18, 7, 7, 7, 3]
    );
}

#[test]
fn column_major_reads_only_columns_with_a_default() {
    let datos = sample();
    assert_eq!(
        datos.column_major_vector::<i32>(vec!["col_a", "nope"], vec![0]).unwrap(),
        vec![0, 13, 13, 12, 25]
    );
    assert_eq!(datos.column_major_vector::<i32>(vec!["nope"], vec![]).unwrap(), Vec::<i32>::new());
    assert_eq!(
        datos.row_major_vector::<i32>(vec!["col_a", "nope"], vec![0]).unwrap_err(),
        FrameError::UnknownColumn
    );
}

#[test]
fn row_major_lays_rows_end_to_end() {
    let datos = sample();
    assert_eq!(
        datos.row_major_vector::<i32>(vec!["col_a", "col_b"], vec![0, -1]).unwrap(),
        vec![0, 18, 13, -1, 13, -1, 12, -1, 25, 3]
    );
    assert_eq!(
        datos.row_major_vector::<i32>(vec!["col_b", "col_a"], vec![7]).unwrap(),
        vec![18, 7, 7, 7, 3]
    );
}

#[test]
fn concat_appends_the_rows_of_the_other_table() {
    let mut base = frame(&["a", "b"], &[&["1", "2"], &["3", "4"]]);
    let cola = frame(&["a", "b"], &[&["5", "6"], &["7"], &["8", "9"]]);
    assert_eq!(base.concat(cola), Ok(()));
    assert_eq!(base.records.len(), 5);
    assert_eq!(base.col_fil::<i32>("a").unwrap(), vec![1, 3, 5, 7, 8]);
    assert_eq!(base.col_type::<i32>("b").unwrap(), vec![Some(2), Some(4), Some(6), None, Some(9)]);
    assert_eq!(base.columns, StringRecord::from(vec!["a", "b"]));
}

#[test]
fn concat_compares_column_counts_not_names() {
    let mut base = frame(&["a", "b"], &[&["1", "2"]]);
    let cola = frame(&["x", "y"], &[&["3", "4"]]);
    assert_eq!(base.concat(cola), Ok(()));
    assert_eq!(base.columns, StringRecord::from(vec!["a", "b"]));
    assert_eq!(base.col_fil::<i32>("a").unwrap(), vec![1, 3]);
    assert_eq!(base.col_index("x"), None);
}

#[test]
fn concat_refuses_a_different_column_count() {
    let mut base = frame(&["a", "b"], &[&["1", "2"]]);
    let cola = frame(&["a", "b", "c"], &[&["3", "4", "5"]]);
    assert_eq!(base.concat(cola), Err(FrameError::ColumnCountMismatch));
    assert_eq!(base.records.len(), 1);
    assert_eq!(base.col_fil::<i32>("a").unwrap(), vec![1]);
    let corta = frame(&["a"], &[]);
    assert_eq!(base.concat(corta), Err(FrameError::ColumnCountMismatch));
}

#[test]
fn concat_with_empty_tables() {
    let mut base = frame(&["a"], &[]);
    assert_eq!(base.concat(frame(&["b"], &[])), Ok(()));
    assert_eq!(base.records.len(), 0);
    assert_eq!(base.concat(frame(&["b"], &[&["1"], &["2"]])), Ok(()));
    assert_eq!(base.records.len(), 2);
    assert_eq!(base.concat(frame(&["c"], &[])), Ok(()));
    assert_eq!(base.col_fil::<i32>("a").unwrap(), vec![1, 2]);
}

#[test]
fn extraction_leaves_the_table_as_it_is() {
    let datos = sample();
    let before = datos.records.clone();
    let _ = datos.col_fil::<i32>("col_a");
    let _ = datos.pair_col_fil_sorted::<i32>("col_a", "col_b");
    let _ = datos.max_num_fil::<i32>("col_a");
    assert_eq!(datos.records, before);
    assert_eq!(datos.col_fil::<i32>("col_a").unwrap(), datos.col_fil::<i32>("col_a").unwrap());
}

#[test]
fn datum_of_a_single_cell() {
    assert_eq!(Datum::of(None), Datum::Missing);
    assert_eq!(Datum::of(Some("18")), Datum::Integer(18));
    assert_eq!(Datum::of(Some("-2147483648")), Datum::Integer(i32::MIN));
    assert_eq!(Datum::of(Some("23.0")), Datum::Float("23.0"));
    assert_eq!(Datum::of(Some("-2147483649")), Datum::Float("-2147483649"));
    assert_eq!(Datum::of(Some("25a")), Datum::NotNumber("25a"));
    assert_eq!(Datum::of(Some("")), Datum::NotNumber(""));
}
