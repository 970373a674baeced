use alba_core::layout::{get_u16, get_u64, put_u16, put_u64};
use alba_core::lexer_functions::{lexer_ignore_comments_match, truncate_or_pad_bytes};

#[test]
fn comment_is_taken_up_to_its_end() {
    let mut dough = "/".to_string();
    let mut itr = "* note */ SEARCH".chars().peekable();
    assert!(!lexer_ignore_comments_match(&mut dough, &mut itr));
    assert_eq!(dough, "/* note */");
    assert_eq!(itr.collect::<String>(), " SEARCH");
}

#[test]
fn text_that_is_no_comment_is_left_alone() {
    let mut dough = "S".to_string();
    let mut itr = "EARCH */".chars().peekable();
    assert!(!lexer_ignore_comments_match(&mut dough, &mut itr));
    assert_eq!(dough, "S");
    assert_eq!(itr.collect::<String>(), "EARCH */");
    let mut empty = String::new();
    let mut itr = "*/".chars().peekable();
    assert!(!lexer_ignore_comments_match(&mut empty, &mut itr));
    assert_eq!(empty, "");
    assert_eq!(itr.next(), Some('*'));
}

#[test]
fn open_comment_takes_everything() {
    let mut dough = "/".to_string();
    let mut itr = "* never closed * /".chars();
    assert!(!lexer_ignore_comments_match(&mut dough, &mut itr));
    assert_eq!(dough, "/* never closed * /");
    assert_eq!(itr.next(), None);
    let mut at_end = "/*".to_string();
    let mut itr = "/x".chars();
    assert!(!lexer_ignore_comments_match(&mut at_end, &mut itr));
    assert_eq!(at_end, "/*/");
    assert_eq!(itr.next(), Some('x'));
    let mut short = "/".to_string();
    let mut itr = "/*/ rest".chars();
    assert!(!lexer_ignore_comments_match(&mut short, &mut itr));
    assert_eq!(short, "//*/");
    assert_eq!(itr.collect::<String>(), " rest");
}

#[test]
fn bytes_are_cut_or_filled_to_length() {
    assert_eq!(truncate_or_pad_bytes(vec![1, 2, 3, 4], 2), vec![1, 2]);
    assert_eq!(truncate_or_pad_bytes(vec![1, 2], 5), vec![1, 2, 0, 0, 0]);
    assert_eq!(truncate_or_pad_bytes(vec![7, 8, 9], 3), vec![7, 8, 9]);
    assert_eq!(truncate_or_pad_bytes(Vec::new(), 0), Vec::<u8>::new());
    assert_eq!(truncate_or_pad_bytes(vec![5], 0), Vec::<u8>::new());
}

#[test]
fn numbers_are_written_most_significant_byte_first() {
    let mut out = vec![0xaa];
    put_u64(&mut out, 0x0102030405060708);
    put_u16(&mut out, 0xfffe);
    assert_eq!(out, vec![0xaa, 1, 2, 3, 4, 5, 6, 7, 8, 0xff, 0xfe]);
    assert_eq!(out[1..9], 0x0102030405060708u64.to_be_bytes());
    assert_eq!(get_u64(&out, 1), 0x0102030405060708);
    assert_eq!(get_u16(&out, 9), 0xfffe);
    assert_eq!(get_u64(&out, 0), 0xaa01020304050607);
    let mut edge = Vec::new();
    put_u64(&mut edge, u64::MAX);
    put_u64(&mut edge, 0);
    assert_eq!(get_u64(&edge, 0), u64::MAX);
    assert_eq!(get_u64(&edge, 8), 0);
    assert_eq!(get_u64(&edge, 4), 0xffff_ffff_0000_0000);
}
