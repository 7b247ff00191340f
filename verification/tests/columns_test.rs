use ravencol::Datum;
use ravencol::RawFrame;

#[test]
fn columns_test() {
    let datos = get_data();

    assert_eq!(datos.columns.get(1), Some("col_b"));
}

#[test]
fn row_test() {
    let datos = get_data();

    assert_eq!(datos.records[1].get(0), Some("13"));
    assert_eq!(datos.records[1].get(1), Some("25a"));
}

#[test]
fn index_test() {
    let datos = get_data();
    assert_eq!(datos.col_index("col_b"), Some(1));
}

#[test]
fn full_col_test() {
    let datos = get_data();

    let mut iter = datos.column("col_b").unwrap().into_iter();

    assert_eq!(iter.next().unwrap(), Datum::Integer(18));
    assert_eq!(iter.next().unwrap(), Datum::NotNumber("25a"));
    match iter.next().unwrap() {
        Datum::Float(text) => assert_eq!(text.parse::<f64>().unwrap(), 23.0),
        other => panic!("expected a float, found {:?}", other),
    }
    assert_eq!(iter.next().unwrap(), Datum::Missing);
    assert_eq!(iter.next().unwrap(), Datum::Integer(3));
    assert_eq!(iter.next(), None);
}

#[test]
fn type_col_test() {
    let datos = get_data();

    let col_typ_test: Vec<Option<i32>> = datos.col_type("col_a").unwrap().into_iter().collect();
    let mut iter = col_typ_test.iter();

    assert_eq!(iter.next(), Some(&None));
    assert_eq!(iter.next().unwrap().unwrap(), 13);
    assert_eq!(iter.next().unwrap().unwrap(), 13);
    assert_eq!(iter.next().unwrap().unwrap(), 12);
    assert_eq!(iter.next().unwrap().unwrap(), 25);
    assert_eq!(iter.next(), None);
}

#[test]
fn type_col_test_b() {
    let datos = get_data();

    let col_typ_test: Vec<Option<i32>> = datos.col_type("col_b").unwrap().into_iter().collect();
    let mut iter = col_typ_test.iter();

    assert_eq!(iter.next().unwrap().unwrap(), 18);
    assert_eq!(iter.next(), Some(&None));
    assert_eq!(iter.next(), Some(&None));
    assert_eq!(iter.next(), Some(&None));
    assert_eq!(iter.next().unwrap().unwrap(), 3);
    assert_eq!(iter.next(), None);
}

#[test]
fn imp_col_test() {
    let datos = get_data();

    let col_imp_test: Vec<i32> = datos.col_imp("col_a", 0).unwrap().into_iter().collect();
    let mut iter = col_imp_test.iter();

    assert_eq!(*iter.next().unwrap(), 0);
    assert_eq!(*iter.next().unwrap(), 13);
    assert_eq!(*iter.next().unwrap(), 13);
    assert_eq!(*iter.next().unwrap(), 12);
    assert_eq!(*iter.next().unwrap(), 25);
    assert_eq!(iter.next(), None);
}

#[test]
fn imp_col_test_b() {
    let datos = get_data();

    let col_imp_test: Vec<i32> = datos.col_imp("col_b", 0).unwrap().into_iter().collect();
    let mut iter = col_imp_test.iter();

    assert_eq!(*iter.next().unwrap(), 18);
    assert_eq!(*iter.next().unwrap(), 0);
    assert_eq!(*iter.next().unwrap(), 0);
    assert_eq!(*iter.next().unwrap(), 0);
    assert_eq!(*iter.next().unwrap(), 3);
    assert_eq!(iter.next(), None);
}

#[test]
fn fil_col_test() {
    let datos = get_data();

    let col_fil_test: Vec<i32> = datos.col_fil("col_a").unwrap().into_iter().collect();
    let mut iter = col_fil_test.iter();

    assert_eq!(*iter.next().unwrap(), 13);
    assert_eq!(*iter.next().unwrap(), 13);
    assert_eq!(*iter.next().unwrap(), 12);
    assert_eq!(*iter.next().unwrap(), 25);
    assert_eq!(iter.next(), None);
}

#[test]
fn fil_col_test_b() {
    let datos = get_data();

    let col_fil_test: Vec<i32> = datos.col_fil("col_b").unwrap().into_iter().collect();
    let mut iter = col_fil_test.iter();

    assert_eq!(*iter.next().unwrap(), 18);
    assert_eq!(*iter.next().unwrap(), 3);
    assert_eq!(iter.next(), None);
}

fn get_data() -> RawFrame {
    let text = "col_a,col_b\n,18\n13,25a\n13,23.0\n12\n25,3\n";
    let mut rdr = csv::ReaderBuilder::new()
        .flexible(true)
        .trim(csv::Trim::All)
        .from_reader(text.as_bytes());
    let columns = rdr.headers().unwrap().clone();
    let records = rdr.records().map(|row| row.unwrap()).collect();
    RawFrame { columns, records }
}
