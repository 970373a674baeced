use alba_core::alba_types::AlbaTypes;
use alba_core::query::{Fetched, PageRequest, Query, QueryError, PAGE_SIZE};

fn types() -> Vec<AlbaTypes> {
    vec![AlbaTypes::Int(0), AlbaTypes::NONE, AlbaTypes::Text(String::new())]
}

fn page(from: u64, count: u64, container: &str) -> (Vec<u64>, String) {
    ((from..from + count).collect(), container.to_string())
}

fn three_pages() -> Query {
    let mut q = Query::new(types(), "token".to_string());
    q.push(page(0, 100, "people"));
    q.push(page(100, 100, "people"));
    q.push(page(200, 7, "people"));
    q
}

fn same(a: &[AlbaTypes], b: &[AlbaTypes]) -> bool {
    a.len() == b.len() && a.iter().zip(b.iter()).all(|(x, y)| x.same_as(y))
}

#[test]
fn new_cursor_is_empty_and_trimmed() {
    let q = Query::new(types(), "token".to_string());
    assert!(q.pages().is_empty());
    assert_eq!(q.current_page(), 0);
    assert!(q.rows().0.is_empty());
    assert!(q.rows().1.is_empty());
    assert!(q.column_names().is_empty());
    assert_eq!(q.id(), "token");
    assert!(same(q.column_types(), &[AlbaTypes::Int(0), AlbaTypes::Text(String::new())]));
}

#[test]
fn anonymous_cursor_has_empty_id() {
    let q = Query::new_none(types());
    assert_eq!(q.id(), "");
    assert_eq!(q.column_types().len(), 2);
}

#[test]
fn trim_strips_empty_names_and_untyped_columns() {
    let mut q = Query::from_parts(
        (Vec::new(), Vec::new()),
        Vec::new(),
        0,
        vec!["a".to_string(), String::new(), "b".to_string(), String::new()],
        vec![AlbaTypes::NONE, AlbaTypes::Bool(true), AlbaTypes::NONE],
        String::new(),
    )
    .unwrap();
    q.trim();
    assert_eq!(q.column_names(), &vec!["a".to_string(), "b".to_string()]);
    assert!(same(q.column_types(), &[AlbaTypes::Bool(true)]));
    q.trim();
    assert_eq!(q.column_names(), &vec!["a".to_string(), "b".to_string()]);
}

#[test]
fn from_parts_refuses_a_page_over_the_cap() {
    let made = Query::from_parts(
        (Vec::new(), Vec::new()),
        vec![page(0, 100, "t"), page(0, 101, "t")],
        0,
        Vec::new(),
        Vec::new(),
        String::new(),
    );
    assert!(made.is_none());
    let made = Query::from_parts(
        (Vec::new(), Vec::new()),
        vec![page(0, 100, "t")],
        5,
        Vec::new(),
        Vec::new(),
        "x".to_string(),
    );
    assert_eq!(made.unwrap().current_page(), 5);
}

#[test]
fn duplicate_is_equal_in_every_part() {
    let mut q = three_pages();
    q.next();
    q.load_rows(Some(Fetched {
        column_names: vec!["n".to_string()],
        rows: vec![Some(vec![AlbaTypes::Int(4)])],
    }))
    .unwrap();
    let d = q.duplicate();
    assert_eq!(d.pages(), q.pages());
    assert_eq!(d.current_page(), 1);
    assert_eq!(d.id(), q.id());
    assert_eq!(d.column_names(), q.column_names());
    assert!(same(d.column_types(), q.column_types()));
    assert_eq!(d.rows().0, q.rows().0);
    assert_eq!(d.rows().1.len(), 1);
    assert!(same(&d.rows().1[0], &[AlbaTypes::Int(4)]));
}

#[test]
fn next_on_last_page_changes_nothing() {
    let mut q = three_pages();
    assert!(q.next().is_some());
    let request = q.next().unwrap();
    assert_eq!(q.current_page(), 2);
    assert_eq!(request.container, "people");
    assert_eq!(request.offsets, (200..207).collect::<Vec<u64>>());
    assert!(q.next().is_none());
    assert_eq!(q.current_page(), 2);
    assert_eq!(q.pages().len(), 3);
}

#[test]
fn previous_on_first_page_changes_nothing() {
    let mut q = three_pages();
    assert!(matches!(q.previous(), Ok(None)));
    assert_eq!(q.current_page(), 0);
    q.next();
    let back = q.previous().unwrap().unwrap();
    assert_eq!(q.current_page(), 0);
    assert_eq!(back.offsets.len(), 100);
    assert_eq!(back.offsets[99], 99);
}

#[test]
fn cursor_without_pages_does_not_move() {
    let mut q = Query::new(types(), "t".to_string());
    assert!(q.next().is_none());
    assert!(matches!(q.previous(), Ok(None)));
    assert!(matches!(q.page_request(), Ok(None)));
    assert!(q.load_rows(None).is_ok());
    assert_eq!(q.current_page(), 0);
}

#[test]
fn page_request_names_the_current_page() {
    let q = three_pages();
    let PageRequest { container, offsets } = q.page_request().unwrap().unwrap();
    assert_eq!(container, "people");
    assert_eq!(offsets, (0..100).collect::<Vec<u64>>());
}

#[test]
fn cursor_behind_its_pages_has_no_page() {
    let mut q = Query::from_parts(
        (Vec::new(), Vec::new()),
        vec![page(0, 3, "t")],
        4,
        Vec::new(),
        Vec::new(),
        String::new(),
    )
    .unwrap();
    assert!(matches!(q.page_request(), Err(QueryError::NoPage)));
    assert!(matches!(
        q.load_rows(Some(Fetched { column_names: Vec::new(), rows: Vec::new() })),
        Err(QueryError::NoPage)
    ));
    assert!(q.next().is_none());
    assert!(matches!(q.previous(), Err(QueryError::NoPage)));
    assert_eq!(q.current_page(), 3);
}

#[test]
fn load_rows_skips_offsets_without_a_row() {
    let mut q = three_pages();
    let outcome = q.load_rows(Some(Fetched {
        column_names: vec!["id".to_string(), String::new()],
        rows: vec![
            Some(vec![AlbaTypes::Int(1)]),
            None,
            Some(vec![AlbaTypes::Int(3)]),
            None,
        ],
    }));
    assert!(outcome.is_ok());
    assert_eq!(q.rows().0, vec!["id".to_string(), String::new()]);
    assert_eq!(q.rows().1.len(), 2);
    assert!(same(&q.rows().1[0], &[AlbaTypes::Int(1)]));
    assert!(same(&q.rows().1[1], &[AlbaTypes::Int(3)]));
    assert_eq!(q.current_page(), 0);
    let again = q.load_rows(Some(Fetched {
        column_names: vec!["id".to_string()],
        rows: vec![Some(vec![AlbaTypes::Int(1)])],
    }));
    assert!(again.is_ok());
    assert_eq!(q.rows().1.len(), 1);
}

#[test]
fn load_rows_reports_an_absent_container() {
    let mut q = three_pages();
    match q.load_rows(None) {
        Err(QueryError::NoContainer(name)) => assert_eq!(name, "people"),
        other => panic!("unexpected outcome {:?}", other),
    }
    assert!(q.rows().1.is_empty());
}

#[test]
fn join_fills_pages_up_to_the_cap() {
    let mut q = Query::new(types(), "a".to_string());
    q.push(page(0, 98, "left"));
    q.push(page(1000, 100, "left"));
    let mut other = Query::new_none(types());
    other.push(page(500, 5, "right"));
    other.push(page(600, 5, "right"));
    other.push(page(700, 5, "right"));
    q.join(other);
    assert_eq!(q.pages().len(), 3);
    let mut first: Vec<u64> = (0..98).collect();
    first.push(500);
    first.push(501);
    assert_eq!(q.pages()[0], (first, "left".to_string()));
    assert_eq!(q.pages()[1], page(1000, 100, "left"));
    assert_eq!(q.pages()[2], page(700, 5, "right"));
    assert!(q.pages().iter().all(|p| p.0.len() <= PAGE_SIZE));
    assert_eq!(q.id(), "a");
}

#[test]
fn join_with_other_column_types_changes_nothing() {
    let mut q = three_pages();
    let mut other = Query::new_none(vec![AlbaTypes::Int(0), AlbaTypes::Bool(false)]);
    other.push(page(900, 5, "right"));
    q.join(other);
    assert_eq!(q.pages().len(), 3);
    assert_eq!(q.pages()[2], page(200, 7, "people"));
    let mut nan = Query::new_none(vec![AlbaTypes::Float(f64::NAN.to_bits())]);
    let mut same_nan = Query::new_none(vec![AlbaTypes::Float(f64::NAN.to_bits())]);
    same_nan.push(page(0, 1, "t"));
    nan.join(same_nan);
    assert!(nan.pages().is_empty());
    let mut zero = Query::new_none(vec![AlbaTypes::Float(0.0f64.to_bits())]);
    let mut minus_zero = Query::new_none(vec![AlbaTypes::Float((-0.0f64).to_bits())]);
    minus_zero.push(page(0, 1, "t"));
    zero.join(minus_zero);
    assert_eq!(zero.pages().len(), 1);
}

#[test]
fn values_compare_as_their_types_say() {
    assert!(AlbaTypes::Text("a".to_string()).same_as(&AlbaTypes::Text("a".to_string())));
    assert!(!AlbaTypes::Text("a".to_string()).same_as(&AlbaTypes::NanoString("a".to_string())));
    assert!(!AlbaTypes::Text("a".to_string()).same_as(&AlbaTypes::Text("b".to_string())));
    assert!(AlbaTypes::NanoBytes(vec![1, 2]).same_as(&AlbaTypes::NanoBytes(vec![1, 2])));
    assert!(!AlbaTypes::NanoBytes(vec![1, 2]).same_as(&AlbaTypes::NanoBytes(vec![1])));
    assert!(!AlbaTypes::NanoBytes(vec![1, 2]).same_as(&AlbaTypes::NanoBytes(vec![1, 3])));
    assert!(AlbaTypes::NONE.same_as(&AlbaTypes::NONE));
    assert!(!AlbaTypes::Int(1).same_as(&AlbaTypes::Bigint(1)));
    for (a, b) in [
        (1.5f64, 1.5f64),
        (0.0, -0.0),
        (f64::NAN, f64::NAN),
        (f64::INFINITY, f64::INFINITY),
        (f64::INFINITY, f64::NEG_INFINITY),
        (1.0, 2.0),
        (f64::MIN_POSITIVE, 0.0),
    ] {
        assert_eq!(
            AlbaTypes::Float(a.to_bits()).same_as(&AlbaTypes::Float(b.to_bits())),
            a == b
        );
    }
    let ids: Vec<u8> = [
        AlbaTypes::NONE,
        AlbaTypes::Char('x'),
        AlbaTypes::Int(1),
        AlbaTypes::Bigint(1),
        AlbaTypes::Bool(true),
        AlbaTypes::Float(0),
        AlbaTypes::Text(String::new()),
        AlbaTypes::NanoString(String::new()),
        AlbaTypes::SmallString(String::new()),
        AlbaTypes::MediumString(String::new()),
        AlbaTypes::BigString(String::new()),
        AlbaTypes::LargeString(String::new()),
        AlbaTypes::NanoBytes(Vec::new()),
        AlbaTypes::SmallBytes(Vec::new()),
        AlbaTypes::MediumBytes(Vec::new()),
        AlbaTypes::BigSBytes(Vec::new()),
        AlbaTypes::LargeBytes(Vec::new()),
    ]
    .iter()
    .map(|t| t.get_id())
    .collect();
    assert_eq!(ids, (0..17).collect::<Vec<u8>>());
    let copy = AlbaTypes::LargeBytes(vec![9, 8, 7]).duplicate();
    assert!(copy.same_as(&AlbaTypes::LargeBytes(vec![9, 8, 7])));
}

#[test]
fn type_numbers_give_empty_values_back() {
    for code in 0..=16u8 {
        assert_eq!(AlbaTypes::from_id(code).unwrap().get_id(), code);
    }
    assert!(AlbaTypes::from_id(17).is_none());
    assert!(AlbaTypes::from_id(255).is_none());
    assert!(AlbaTypes::from_id(5).unwrap().same_as(&AlbaTypes::Float(0.0f64.to_bits())));
    assert!(AlbaTypes::from_id(1).unwrap().same_as(&AlbaTypes::Char('\0')));
    assert!(AlbaTypes::from_id(6).unwrap().same_as(&AlbaTypes::Text(String::new())));
}

#[test]
fn a_row_is_asked_for_as_a_range_of_one() {
    assert_eq!(PageRequest::single_row(0), Some((0, 1)));
    assert_eq!(PageRequest::single_row(41), Some((41, 42)));
    assert_eq!(PageRequest::single_row(u64::MAX - 1), Some((u64::MAX - 1, u64::MAX)));
    assert_eq!(PageRequest::single_row(u64::MAX), None);
}
