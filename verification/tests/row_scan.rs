use alba_core::alba_types::AlbaTypes;
use alba_core::scan::{search, typed_columns, RowScan, ScanError, SearchArguments, Window};

fn args(rows: usize, element_size: usize, header_offset: usize) -> SearchArguments {
    SearchArguments {
        element_size,
        header_offset,
        file_size: header_offset + rows * element_size,
        container_values: vec![
            ("id".to_string(), AlbaTypes::Int(0)),
            ("gap".to_string(), AlbaTypes::NONE),
            ("name".to_string(), AlbaTypes::Text(String::new())),
        ],
        container_name: "people".to_string(),
    }
}

#[test]
fn every_third_of_250_rows_fills_one_page_of_84() {
    let outcomes: Vec<bool> = (0..250).map(|i| i % 3 == 0).collect();
    let q = search(args(250, 64, 16), "token".to_string(), &outcomes);
    assert_eq!(q.pages().len(), 1);
    assert_eq!(q.pages()[0].0.len(), 84);
    assert_eq!(q.pages()[0].0, (0..250u64).filter(|i| i % 3 == 0).collect::<Vec<u64>>());
    assert_eq!(q.pages()[0].1, "people");
    assert_eq!(q.id(), "token");
    assert_eq!(q.current_page(), 0);
    assert_eq!(q.column_types().len(), 2);
}

#[test]
fn matches_are_sealed_in_pages_of_100() {
    let outcomes = vec![true; 250];
    let q = search(args(250, 8, 0), String::new(), &outcomes);
    assert_eq!(q.pages().len(), 3);
    assert_eq!(q.pages()[0].0, (0..100).collect::<Vec<u64>>());
    assert_eq!(q.pages()[1].0, (100..200).collect::<Vec<u64>>());
    assert_eq!(q.pages()[2].0, (200..250).collect::<Vec<u64>>());
    let exact = search(args(200, 8, 0), String::new(), &vec![true; 200]);
    assert_eq!(exact.pages().len(), 2);
    assert_eq!(exact.pages()[1].0.len(), 100);
    let none = search(args(30, 8, 0), String::new(), &vec![false; 30]);
    assert!(none.pages().is_empty());
    let empty = search(args(0, 8, 4), String::new(), &Vec::new());
    assert!(empty.pages().is_empty());
}

#[test]
fn windows_cover_the_file_in_bounded_reads() {
    let mut scan = RowScan::begin(args(1000, 100, 50), String::new());
    let mut seen = 0usize;
    let mut windows: Vec<Window> = Vec::new();
    while let Some(w) = scan.next_window() {
        assert_eq!(w.first_row, seen);
        windows.push(w);
        for _ in 0..w.rows {
            scan.record(false);
        }
        seen += w.rows;
    }
    assert_eq!(seen, 1000);
    assert_eq!(windows.len(), 3);
    assert_eq!(windows[0], Window { offset: 50, bytes: 40900, first_row: 0, rows: 409 });
    assert_eq!(windows[1], Window { offset: 40950, bytes: 40900, first_row: 409, rows: 409 });
    assert_eq!(windows[2], Window { offset: 81850, bytes: 18200, first_row: 818, rows: 182 });
    assert!(scan.finish().pages().is_empty());
}

#[test]
fn a_row_larger_than_the_budget_is_read_alone() {
    let scan = RowScan::begin(args(3, 50000, 0), String::new());
    assert_eq!(
        scan.next_window(),
        Some(Window { offset: 0, bytes: 50000, first_row: 0, rows: 1 })
    );
    let trailing = SearchArguments {
        element_size: 10,
        header_offset: 5,
        file_size: 5 + 3 * 10 + 9,
        container_values: Vec::new(),
        container_name: String::new(),
    };
    let scan = RowScan::begin(trailing, String::new());
    assert_eq!(scan.next_window(), Some(Window { offset: 5, bytes: 30, first_row: 0, rows: 3 }));
}

#[test]
fn partial_scan_keeps_what_matched() {
    let mut scan = RowScan::begin(args(500, 8, 0), "t".to_string());
    for i in 0..150 {
        scan.record(i != 7);
    }
    let q = scan.finish();
    assert_eq!(q.pages().len(), 2);
    assert_eq!(q.pages()[0].0.len(), 100);
    assert_eq!(q.pages()[0].0[7], 8);
    assert_eq!(q.pages()[1].0.len(), 49);
    assert_eq!(*q.pages()[1].0.last().unwrap(), 149);
}

#[test]
fn row_is_held_to_the_column_types() {
    let headers = vec![
        ("id".to_string(), AlbaTypes::Int(0)),
        ("name".to_string(), AlbaTypes::Text(String::new())),
    ];
    let good = vec![AlbaTypes::Int(5), AlbaTypes::Text("ann".to_string()), AlbaTypes::Bool(true)];
    let columns = typed_columns(&headers, &good).unwrap();
    assert_eq!(columns.len(), 2);
    assert_eq!(columns[0].0, "id");
    assert!(columns[0].1.same_as(&AlbaTypes::Int(5)));
    assert_eq!(columns[1].0, "name");
    assert!(columns[1].1.same_as(&AlbaTypes::Text("ann".to_string())));
    let wrong = vec![AlbaTypes::Int(5), AlbaTypes::NanoString("ann".to_string())];
    assert_eq!(typed_columns(&headers, &wrong).err(), Some(ScanError::TypeMismatch));
    let short = vec![AlbaTypes::Int(5)];
    assert_eq!(typed_columns(&headers, &short).err(), Some(ScanError::MissingColumn));
    let both = vec![AlbaTypes::Bool(false)];
    assert_eq!(typed_columns(&headers, &both).err(), Some(ScanError::TypeMismatch));
    assert!(typed_columns(&Vec::new(), &Vec::new()).unwrap().is_empty());
}
