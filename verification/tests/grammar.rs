use nrtm_parser::streaming::{decode_chunk, NRTMDec, NRTMStreamError};
use nrtm_parser::{
    NRTMParser, NRTMV2Parser, NRTMV3Parser, OpType, ParseError, ProtocolVersion, Verb,
};

const OBJECT: &str = "some: property\nand: another one\n\n";

#[test]
fn v3_del_message_and_largest_serial() {
    let input = format!("DEL 18446744073709551615\n\n{}", OBJECT);
    let m = NRTMV3Parser::try_parse(&input).unwrap();
    assert_eq!(m.update, OpType::V3(Verb::DEL, u64::MAX));
    assert_eq!(m.rpsl, OBJECT);
    assert_eq!(m.span.start_b, 0);
    assert_eq!(m.span.end_b, input.len());
    assert_eq!(m.span.str, input);
}

#[test]
fn serial_with_leading_zeros() {
    let input = format!("ADD 007\n\n{}", OBJECT);
    let m = NRTMV3Parser::try_parse(&input).unwrap();
    assert_eq!(m.update, OpType::V3(Verb::ADD, 7));
}

#[test]
fn serial_past_u64_is_malformed() {
    let input = format!("ADD 18446744073709551616\n\n{}", OBJECT);
    match NRTMV3Parser::try_parse(&input) {
        Err(ParseError::MalformedSerial(span, _)) => {
            assert_eq!(span.start_b, 4);
            assert_eq!(span.end_b, 24);
            assert_eq!(span.str, "18446744073709551616");
        }
        other => panic!("unexpected {:?}", other),
    }
}

#[test]
fn v2_del_message() {
    let input = format!("DEL\n\n{}", OBJECT);
    let m = NRTMV2Parser::try_parse(&input).unwrap();
    assert_eq!(m.update, OpType::V2(Verb::DEL));
    assert_eq!(m.rpsl, OBJECT);
}

#[test]
fn comment_prelude_is_no_garbage() {
    let prelude = "% The RIPE Database is subject to Terms and Conditions.\n\n%START Version: 3 RIPE 1-2\n# note\n\n";
    let input = format!("{}ADD 1\n\n{}", prelude, OBJECT);
    let m = NRTMV3Parser::try_parse(&input).unwrap();
    assert_eq!(m.update, OpType::V3(Verb::ADD, 1));
    assert_eq!(m.span.start_b, prelude.len());
    assert_eq!(m.span.end_b, input.len());
    assert_eq!(m.span.str, format!("ADD 1\n\n{}", OBJECT));
}

#[test]
fn garbage_after_comments_is_reported_from_its_line() {
    let input = format!("% comment\nnot: allowed here\n\nADD 1\n\n{}", OBJECT);
    match NRTMV3Parser::try_parse(&input) {
        Err(ParseError::LeadingGarbage(span)) => {
            assert_eq!(span.start_b, 10);
            assert_eq!(span.end_b, input.find("ADD").unwrap());
            assert_eq!(span.str, "not: allowed here\n\n");
        }
        other => panic!("unexpected {:?}", other),
    }
}

#[test]
fn versions_exclusive() {
    // a header of the other version is garbage, and no operation follows it
    let v3 = format!("ADD 12\n\n{}", OBJECT);
    assert!(matches!(NRTMV2Parser::try_parse(&v3), Err(ParseError::Incomplete)));
    let v2 = format!("ADD\n\n{}", OBJECT);
    assert!(matches!(NRTMV3Parser::try_parse(&v2), Err(ParseError::Incomplete)));
    // ... and garbage before an operation of the version read
    let both = format!("{}{}", v2, v3);
    match NRTMV3Parser::try_parse(&both) {
        Err(ParseError::LeadingGarbage(span)) => {
            assert_eq!(span.start_b, 0);
            assert_eq!(span.end_b, v2.len());
        }
        other => panic!("unexpected {:?}", other),
    }
}

#[test]
fn lines_that_only_look_like_headers_are_garbage() {
    assert!(matches!(
        NRTMV3Parser::try_parse("ADDRESS: x\n\n"),
        Err(ParseError::Incomplete)
    ));
    let input = format!("ADDRESS: x\n\nADD 1\n\n{}", OBJECT);
    match NRTMV3Parser::try_parse(&input) {
        Err(ParseError::LeadingGarbage(span)) => {
            assert_eq!(span.start_b, 0);
            assert_eq!(span.end_b, 12);
            assert_eq!(span.str, "ADDRESS: x\n\n");
        }
        other => panic!("unexpected {:?}", other),
    }
    // headers cut short are no headers either
    for start in ["ADD \n\n", "ADD 1x\n\n", "ADD 1\nsome: x\n"] {
        let input = format!("{}ADD 2\n\n{}", start, OBJECT);
        assert!(
            matches!(NRTMV3Parser::try_parse(&input), Err(ParseError::LeadingGarbage(_))),
            "input {:?}",
            input
        );
    }
}

#[test]
fn object_lines_of_every_kind() {
    let object = "inetnum:  192.0.2.0 - 192.0.2.255\n          continued\n\tcontinued\n+\n# comment\nremarks:\nsource:   RIPE\n\n";
    let input = format!("ADD 5\n\n{}", object);
    let m = NRTMV3Parser::try_parse(&input).unwrap();
    assert_eq!(m.rpsl, object);
}

#[test]
fn faults_and_their_positions() {
    let cases: [(&str, usize); 3] = [
        ("ADD 1\n\n\n", 7),                   // empty object
        ("ADD 1\n\n continued\n\n", 7),       // object starts with a continuation line
        ("ADD 1\n\nsome thing\n\n", 11),      // attribute name without a colon
    ];
    for (input, pos) in cases {
        match NRTMV3Parser::try_parse(input) {
            Err(ParseError::Parser(e)) => assert_eq!(e.pos, pos, "input {:?}", input),
            other => panic!("unexpected {:?} for {:?}", other, input),
        }
    }
}

#[test]
fn incomplete_inputs() {
    for input in ["", "AD", "ADD", "ADD 12", "ADD 12\n", "ADD 12\n\nsome", "ADD 12\n\nsome: x\n", "garbage\n"] {
        assert!(
            matches!(NRTMV3Parser::try_parse(input), Err(ParseError::Incomplete)),
            "input {:?}",
            input
        );
    }
}

#[test]
fn non_ascii_values_keep_byte_positions() {
    let object = "descr: Zürich Straße\n\n";
    let input = format!("% ümlaut comment\nADD 3\n\n{}", object);
    let m = NRTMV3Parser::try_parse(&input).unwrap();
    assert_eq!(m.rpsl, object);
    assert_eq!(m.span.start_b, "% ümlaut comment\n".len());
    assert_eq!(m.span.end_b, input.len());
}

#[test]
fn verdict_survives_appending() {
    let first = format!("ADD 1\n\n{}", OBJECT);
    let m1 = NRTMV3Parser::try_parse(&first).unwrap();
    let longer = format!("{}ADD 2\n\n{}garbage", first, OBJECT);
    let m2 = NRTMV3Parser::try_parse(&longer).unwrap();
    assert_eq!(m1.update, m2.update);
    assert_eq!(m1.rpsl, m2.rpsl);
    assert_eq!(m1.span.start_b, m2.span.start_b);
    assert_eq!(m1.span.end_b, m2.span.end_b);

    let broken = "ADD 1\n\n\\bad: line\n";
    let e1 = NRTMV3Parser::try_parse(broken);
    let e2 = NRTMV3Parser::try_parse(&format!("{}more: lines\n\n", broken));
    match (e1, e2) {
        (Err(ParseError::Parser(a)), Err(ParseError::Parser(b))) => assert_eq!(a, b),
        other => panic!("unexpected {:?}", other),
    }
}

#[test]
fn incomplete_has_no_fault_yet() {
    let start = "ADD 1\n\nsome: x\n";
    assert!(matches!(NRTMV3Parser::try_parse(start), Err(ParseError::Incomplete)));
    let longer = format!("{}\\bad\n\n", start);
    match NRTMV3Parser::try_parse(&longer) {
        Err(ParseError::Parser(e)) => assert!(e.pos >= start.len()),
        other => panic!("unexpected {:?}", other),
    }
}

#[test]
fn operation_text_reads_alone() {
    let input = format!("%START\n\nADD 9\n\n{}ADD 10\n", OBJECT);
    let m = NRTMV3Parser::try_parse(&input).unwrap();
    let again = NRTMV3Parser::try_parse(&m.span.str).unwrap();
    assert_eq!(again.update, m.update);
    assert_eq!(again.rpsl, m.rpsl);
    assert_eq!(again.span.start_b, 0);
    assert_eq!(again.span.end_b, m.span.end_b - m.span.start_b);
}

#[test]
fn parsed_operation_shape() {
    let input = format!("ADD 4\n\n{}", OBJECT);
    let m = NRTMV3Parser::try_parse(&input).unwrap();
    assert!(m.rpsl.ends_with("\n\n"));
    assert!(m.span.str.starts_with("ADD"));
    assert!(m.span.str.ends_with(&m.rpsl));
}

#[test]
fn io_error_converts() {
    let e: ParseError = std::io::Error::new(std::io::ErrorKind::BrokenPipe, "closed").into();
    assert!(matches!(e, ParseError::IoError(_)));
}

#[test]
fn decoders_and_parsers() {
    let d2 = NRTMDec::new_v2(10);
    assert_eq!(d2.protocol(), ProtocolVersion::V2);
    assert_eq!(d2.chunk_limit(), 10);
    let d3 = NRTMDec::new_v3(20);
    assert_eq!(d3.protocol(), ProtocolVersion::V3);
    assert_eq!(d3.chunk_limit(), 20);
    // the codec is built from the fixed delimiter, which compiles
    let _codec = d3.preparser();
    let _codec = nrtm_parser::streaming::new_nrtm_preparser(1234);
    let p3 = NRTMV3Parser::new(30);
    assert_eq!(p3.inner_decoder().protocol(), ProtocolVersion::V3);
    assert_eq!(p3.inner_decoder().chunk_limit(), 30);
    let p2 = NRTMV2Parser::new(40);
    assert_eq!(p2.inner_decoder().protocol(), ProtocolVersion::V2);
    assert_eq!(p2.inner_decoder().chunk_limit(), 40);
}

#[test]
fn parse_chunk_wraps_errors() {
    let d3 = NRTMDec::new_v3(1000);
    let ok = d3.parse_chunk(&format!("ADD 1\n\n{}", OBJECT)).unwrap();
    assert_eq!(ok.update, OpType::V3(Verb::ADD, 1));
    assert!(matches!(
        d3.parse_chunk("ADD 1\n\n"),
        Err(NRTMStreamError::Parser(ParseError::Incomplete))
    ));
    assert!(matches!(
        d3.parse_chunk("ADD 1\n\n\\bad: x\n\n"),
        Err(NRTMStreamError::Parser(ParseError::Parser(_)))
    ));
}

#[test]
fn decode_chunk_guesses_charsets() {
    assert_eq!(decode_chunk(b"ADD 1\n\nsome: x\n\n"), "ADD 1\n\nsome: x\n\n");
    assert_eq!(decode_chunk("descr: Zürich\n".as_bytes()), "descr: Zürich\n");
    // latin-1 bytes are no UTF-8; the guess turns them into text
    let latin1 = b"descr: Z\xfcrich Stra\xdfe\n";
    assert_eq!(decode_chunk(latin1), "descr: Zürich Straße\n");
}

#[test]
fn incomplete_can_be_completed() {
    for (start, rest) in [
        ("", "ADD 1\n\na:\n\n"),
        ("% prelude\nAD", "\nADD 1\n\na:\n\n"),
        ("ADD", " 1\n\na:\n\n"),
        ("ADD 12", "\n\na:\n\n"),
        ("ADD 12\n\nsom", "e: x\n\n"),
        ("ADD 12\n\nsome: x\n", "\n"),
    ] {
        assert!(matches!(NRTMV3Parser::try_parse(start), Err(ParseError::Incomplete)));
        let whole = format!("{}{}", start, rest);
        let r = NRTMV3Parser::try_parse(&whole);
        assert!(
            matches!(r, Ok(_) | Err(ParseError::LeadingGarbage(_))),
            "{:?} gives {:?}",
            whole,
            r
        );
    }
}

#[test]
fn leading_comments_are_transparent() {
    let prelude = "%START Version: 3 RIPE 1-2\n\n# note\n";
    for op in [
        format!("ADD 1\n\n{}", OBJECT),
        "ADD 1\n\n\\bad\n\n".to_string(),
        "ADD 1\n\nsome: x\n".to_string(),
        format!("ADD 99999999999999999999\n\n{}", OBJECT),
    ] {
        let whole = format!("{}{}", prelude, op);
        let shift = prelude.len();
        match (NRTMV3Parser::try_parse(&whole), NRTMV3Parser::try_parse(&op)) {
            (Ok(a), Ok(b)) => {
                assert_eq!(a.update, b.update);
                assert_eq!(a.rpsl, b.rpsl);
                assert_eq!(a.span.start_b, b.span.start_b + shift);
                assert_eq!(a.span.end_b, b.span.end_b + shift);
            }
            (Err(ParseError::Parser(a)), Err(ParseError::Parser(b))) => {
                assert_eq!(a.pos, b.pos + shift)
            }
            (Err(ParseError::Incomplete), Err(ParseError::Incomplete)) => {}
            (Err(ParseError::MalformedSerial(a, _)), Err(ParseError::MalformedSerial(b, _))) => {
                assert_eq!(a.start_b, b.start_b + shift);
                assert_eq!(a.str, b.str);
            }
            other => panic!("unexpected {:?}", other),
        }
    }
}
