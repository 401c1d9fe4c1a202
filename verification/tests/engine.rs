use ofx_transform::engine::convert_document;
use ofx_transform::render::render;
use ofx_transform::rewrite::convert_tokens;
use ofx_transform::tokenize::tokenize;

const SAMPLE: &str = "<OFX><STMTTRN><DTPOSTED>20220301<TRNAMT>-12.34<FITID>42\
<NAME>GROCERY STORE 24.03.22</STMTTRN></OFX>";

const SAMPLE_CONVERTED: &str = "<OFX><STMTTRN><DTPOSTED>20220324<TRNAMT>-12.34<FITID>42\
<NAME>GROCERY STORE</STMTTRN></OFX>";

#[test]
fn converts_the_posted_date_and_cleans_the_name() {
    let out = convert_document(SAMPLE).unwrap();
    assert_eq!(out, SAMPLE_CONVERTED);
}

#[test]
fn whitespace_only_layout_is_dropped_but_fields_still_convert() {
    let input = "<OFX>\n<STMTTRN>\n<DTPOSTED>20220301\n<TRNAMT>-12.34\n<FITID>42\n\
<NAME>GROCERY STORE 24.03.22\n</STMTTRN>\n</OFX>";
    let out = convert_document(input).unwrap();
    assert_eq!(out, SAMPLE_CONVERTED);
}

#[test]
fn field_without_date_passes_through_unchanged() {
    let input = "<OFX><STMTTRN><DTPOSTED>20220301<TRNAMT>-12.34<FITID>42\
<NAME>NO DATE HERE</STMTTRN></OFX>";
    let out = convert_document(input).unwrap();
    assert_eq!(out, input);
}

#[test]
fn malformed_document_produces_no_output() {
    assert!(convert_document("<NAME").is_err());
    assert!(convert_document("<OFX><NAME>x &bad; y</OFX>").is_err());
}

#[test]
fn conversion_is_idempotent_on_its_own_output() {
    let once = convert_document(SAMPLE).unwrap();
    let twice = convert_document(&once).unwrap();
    assert_eq!(twice, once);
}

#[test]
fn normalized_dates_are_left_as_is() {
    let out = convert_document(SAMPLE_CONVERTED).unwrap();
    assert_eq!(out, SAMPLE_CONVERTED);
}

#[test]
fn render_tokenize_round_trip_reproduces_the_tokens() {
    let inputs = [
        SAMPLE,
        "OFXHEADER:100\n<OFX>a &amp; b<NAME>X 24.03.22</OFX>",
        "<A HREF=\"x&amp;y\" B>t &lt;u&gt;</A><?p?><!DOCTYPE ofx>",
    ];
    for input in inputs {
        let ts = tokenize(input, true).unwrap();
        let rendered = render(&ts);
        let ts2 = tokenize(&rendered, true).unwrap();
        assert_eq!(ts2, ts);
    }
}

#[test]
fn fields_too_close_to_the_start_are_skipped() {
    // the date slot seven tokens back does not exist, so the field is a miss
    let input = "<OFX><NAME>SHOP 24.03.22</OFX>";
    let out = convert_document(input).unwrap();
    assert_eq!(out, input);
}

#[test]
fn two_transactions_convert_independently() {
    let input = "<OFX><STMTTRN><DTPOSTED>20220301<TRNAMT>-1.00<FITID>1\
<NAME>SHOP A 24.03.22</STMTTRN><STMTTRN><DTPOSTED>20220401<TRNAMT>-2.00<FITID>2\
<NAME>SHOP B 01.01.70</STMTTRN></OFX>";
    let expected = "<OFX><STMTTRN><DTPOSTED>20220324<TRNAMT>-1.00<FITID>1\
<NAME>SHOP A</STMTTRN><STMTTRN><DTPOSTED>19700101<TRNAMT>-2.00<FITID>2\
<NAME>SHOP B</STMTTRN></OFX>";
    assert_eq!(convert_document(input).unwrap(), expected);
}

#[test]
fn convert_tokens_replaces_exactly_the_two_slots() {
    let ts = tokenize(SAMPLE, true).unwrap();
    let out = convert_tokens(ts.clone());
    assert_eq!(out.len(), ts.len());
    for (k, tok) in out.iter().enumerate() {
        match k {
            6 => assert_eq!(*tok, ofx_transform::token::Token::Character {
                text: "20220324".to_string(),
            }),
            15 => assert_eq!(*tok, ofx_transform::token::Token::Character {
                text: "GROCERY STORE".to_string(),
            }),
            _ => assert_eq!(*tok, ts[k]),
        }
    }
}

#[test]
fn entity_heavy_field_converts() {
    // the cleaned name keeps the expanded entities, re-escaped on render
    let input = "<OFX><STMTTRN><DTPOSTED>20220301<TRNAMT>-1.00<FITID>1\
<NAME>A &amp; B 24.03.22</STMTTRN></OFX>";
    let expected = "<OFX><STMTTRN><DTPOSTED>20220324<TRNAMT>-1.00<FITID>1\
<NAME>A &amp; B</STMTTRN></OFX>";
    assert_eq!(convert_document(input).unwrap(), expected);
}
