use ofx_transform::ledger::Ledger;
use ofx_transform::rewrite::{locate_date_fields, try_rewrite};
use ofx_transform::token::Token;
use ofx_transform::tokenize::tokenize;

fn ch(text: &str) -> Token {
    Token::Character { text: text.to_string() }
}

#[test]
fn rewrites_a_trailing_date() {
    let r = try_rewrite("GROCERY STORE 24.03.22").unwrap();
    assert_eq!(r.0, "20220324");
    assert_eq!(r.1, "GROCERY STORE");
}

#[test]
fn no_trailing_date_is_a_miss() {
    assert!(try_rewrite("NO DATE HERE").is_none());
}

#[test]
fn no_space_is_a_miss() {
    assert!(try_rewrite("NOSPACE").is_none());
    assert!(try_rewrite("20220324").is_none());
}

#[test]
fn single_digit_fields_are_a_miss() {
    assert!(try_rewrite("SHOP 5.3.22").is_none());
}

#[test]
fn impossible_calendar_day_is_a_miss() {
    assert!(try_rewrite("SHOP 31.02.22").is_none());
    assert!(try_rewrite("SHOP 00.01.22").is_none());
    assert!(try_rewrite("SHOP 01.13.22").is_none());
}

#[test]
fn leap_years_are_honoured() {
    assert_eq!(try_rewrite("SHOP 29.02.20").unwrap().0, "20200229");
    assert!(try_rewrite("SHOP 29.02.21").is_none());
    // a century year in range: 2000 is a leap year
    assert_eq!(try_rewrite("SHOP 29.02.00").unwrap().0, "20000229");
}

#[test]
fn century_pivot_is_sixty_nine() {
    assert_eq!(try_rewrite("SHOP 01.01.69").unwrap().0, "20690101");
    assert_eq!(try_rewrite("SHOP 01.01.70").unwrap().0, "19700101");
    assert_eq!(try_rewrite("SHOP 31.12.99").unwrap().0, "19991231");
}

#[test]
fn cleaned_name_is_trimmed() {
    let r = try_rewrite("  PADDED NAME  24.03.22").unwrap();
    assert_eq!(r.1, "PADDED NAME");
}

#[test]
fn locator_finds_canonical_fields() {
    let ts = tokenize("<OFX><NAME>first</NAME><OTHER>x<NAME>second", true).unwrap();
    // token indices: 0 <OFX, 1 >, 2 <NAME, 3 >, 4 "first", 5 </NAME>,
    // 6 <OTHER, 7 >, 8 "x", 9 <NAME, 10 >, 11 "second"
    let m = locate_date_fields(&ts);
    assert_eq!(m, vec![(2, 4), (9, 11)]);
}

#[test]
fn locator_skips_the_leading_token() {
    // the very first token is taken for a document wrapper and never matches
    let ts = tokenize("<NAME>text", true).unwrap();
    let m = locate_date_fields(&ts);
    assert_eq!(m, vec![]);
}

#[test]
fn ledger_removes_and_inserts_against_original_indices() {
    let ts = vec![ch("a"), ch("b"), ch("c")];
    let mut led = Ledger::new();
    led.remove_at(1);
    led.insert_at(1, ch("B"));
    led.insert_at(3, ch("d"));
    let r = led.apply(ts);
    assert_eq!(r, vec![ch("a"), ch("B"), ch("c"), ch("d")]);
}

#[test]
fn ledger_duplicate_removal_is_a_single_removal() {
    let ts = vec![ch("a"), ch("b"), ch("c")];
    let mut led = Ledger::new();
    led.remove_at(1);
    led.remove_at(1);
    let r = led.apply(ts);
    assert_eq!(r, vec![ch("a"), ch("c")]);
}

#[test]
fn ledger_insertions_at_one_index_keep_staging_order() {
    let ts = vec![ch("a")];
    let mut led = Ledger::new();
    led.insert_at(0, ch("x"));
    led.insert_at(0, ch("y"));
    let r = led.apply(ts);
    assert_eq!(r, vec![ch("x"), ch("y"), ch("a")]);
}

#[test]
fn ledger_later_edits_do_not_shift_earlier_coordinates() {
    let ts = vec![ch("a"), ch("b"), ch("c"), ch("d")];
    let mut led = Ledger::new();
    led.insert_at(1, ch("x"));
    led.remove_at(3);
    let r = led.apply(ts);
    assert_eq!(r, vec![ch("a"), ch("x"), ch("b"), ch("c")]);
}
