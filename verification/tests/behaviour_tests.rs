use lib::{parse, parse_checked, BDict, BNode, Lexer, Token};

fn error_of(input: &str) -> (i64, String) {
    match parse(input.as_bytes()) {
        Ok(_) => panic!("{} should fail", input),
        Err(e) => (e.position, e.msg),
    }
}

fn encode(node: &BNode) -> Vec<u8> {
    let mut buf = vec![];
    node.marshal(&mut buf);
    buf
}

#[test]
fn negative_zero_is_reported_at_the_zero() {
    assert_eq!(error_of("i-0e"), (2, "Negative zero is not permitted".to_string()));
}

#[test]
fn leading_zero_is_reported_at_the_second_digit() {
    assert_eq!(error_of("i00e"), (2, "Leading zero is not permitted".to_string()));
    assert_eq!(error_of("i01e"), (2, "Leading zero is not permitted".to_string()));
    assert_eq!(error_of("i-01e"), (2, "Negative zero is not permitted".to_string()));
}

#[test]
fn second_minus_is_reported() {
    assert_eq!(
        error_of("i--1e"),
        (2, "`-` can only appear in the head of the number".to_string())
    );
}

#[test]
fn stray_byte_in_number_is_reported() {
    assert_eq!(error_of("i1xe"), (2, "invalid number".to_string()));
    assert_eq!(error_of("i12"), (3, "invalid number".to_string()));
}

#[test]
fn empty_number_is_reported_at_its_end() {
    assert_eq!(error_of("ie"), (1, "Number cannot be empty".to_string()));
}

#[test]
fn stray_end_colon_and_unknown_bytes_are_reported() {
    assert_eq!(
        error_of("e"),
        (0, "`e` should be the end of number, list and dictionary.".to_string())
    );
    assert_eq!(
        error_of(":"),
        (0, "`:` should be after the length of stream.".to_string())
    );
    assert_eq!(error_of("x"), (0, "unknown token: 120".to_string()));
    assert_eq!(error_of("l5:abcdeXe"), (8, "unknown token: 88".to_string()));
}

#[test]
fn short_byte_string_is_reported_past_the_end() {
    assert_eq!(
        error_of("5:abc"),
        (5, "stream's length is expected to be 5, but it's 3.".to_string())
    );
    assert_eq!(
        error_of("12:"),
        (3, "stream's length is expected to be 12, but it's 0.".to_string())
    );
}

#[test]
fn missing_values_are_reported() {
    assert_eq!(error_of(""), (0, "invalid input".to_string()));
    assert_eq!(error_of("l"), (1, "invalid list".to_string()));
    assert_eq!(error_of("d"), (1, "invalid dictionary".to_string()));
    assert_eq!(error_of("di1ee"), (1, "invalid dictionary".to_string()));
    assert_eq!(error_of("d1:ae"), (4, "invalid input".to_string()));
}

#[test]
fn trailing_bytes_are_reported() {
    assert_eq!(error_of("i1ei2e"), (3, "Expect EOF".to_string()));
    assert_eq!(error_of("i1e12:ab"), (5, "Expect EOF".to_string()));
    assert_eq!(
        error_of("i1ee"),
        (3, "`e` should be the end of number, list and dictionary.".to_string())
    );
}

#[test]
fn numbers_read_their_value() {
    match parse("i-9223372036854775807e".as_bytes()).unwrap() {
        BNode::Int(v) => assert_eq!(v, -9223372036854775807),
        _ => panic!("expected an integer"),
    }
    match parse("i9223372036854775807e".as_bytes()).unwrap() {
        BNode::Int(v) => assert_eq!(v, 9223372036854775807),
        _ => panic!("expected an integer"),
    }
    match parse("i0e".as_bytes()).unwrap() {
        BNode::Int(v) => assert_eq!(v, 0),
        _ => panic!("expected an integer"),
    }
}

#[test]
fn marshal_writes_the_encoding() {
    assert_eq!(encode(&BNode::Int(-42)), b"i-42e".to_vec());
    assert_eq!(encode(&BNode::Int(0)), b"i0e".to_vec());
    assert_eq!(
        encode(&BNode::Int(i64::MIN)),
        b"i-9223372036854775808e".to_vec()
    );
    assert_eq!(encode(&BNode::Bytes(b"0123456789".to_vec())), b"10:0123456789".to_vec());
    assert_eq!(encode(&BNode::Bytes(vec![])), b"0:".to_vec());
    assert_eq!(
        encode(&BNode::List(vec![BNode::Int(1), BNode::List(vec![])])),
        b"li1elee".to_vec()
    );
}

#[test]
fn the_extreme_integers_read_back() {
    for v in [i64::MIN, i64::MAX, -1, 1] {
        match parse(&encode(&BNode::Int(v))).unwrap() {
            BNode::Int(w) => assert_eq!(w, v),
            _ => panic!("expected an integer"),
        }
    }
}

#[test]
fn reading_then_writing_gives_an_ordered_input_back() {
    let input = b"d3:bari-7e3:fooli1e3:abcd0:i0eee1:zlee".to_vec();
    assert_eq!(encode(&parse(&input).unwrap()), input);
    let unordered = b"d1:bi1e1:ai2ee".to_vec();
    assert_eq!(encode(&parse(&unordered).unwrap()), b"d1:ai2e1:bi1ee".to_vec());
}

#[test]
fn marshal_orders_dictionary_keys() {
    let mut dict = BDict::new();
    dict.insert("zeta".to_string(), BNode::Int(1));
    dict.insert("alpha".to_string(), BNode::Int(2));
    dict.insert("beta".to_string(), BNode::Int(3));
    dict.insert("alpha".to_string(), BNode::Int(4));
    assert_eq!(dict.len(), 3);
    assert_eq!(
        encode(&BNode::Dict(dict)),
        b"d5:alphai4e4:betai3e4:zetai1ee".to_vec()
    );
}

#[test]
fn parse_reads_back_what_marshal_wrote() {
    let mut inner = BDict::new();
    inner.insert("k".to_string(), BNode::Bytes(b"v:e".to_vec()));
    inner.insert("".to_string(), BNode::Int(-7));
    let node = BNode::List(vec![
        BNode::Int(9223372036854775807),
        BNode::Bytes(vec![0, 255, b'e']),
        BNode::Dict(inner),
        BNode::List(vec![]),
    ]);
    let written = encode(&node);
    let read = parse(&written).unwrap();
    assert_eq!(encode(&read), written);
}

#[test]
fn later_dictionary_keys_replace_earlier_ones() {
    match parse("d1:bi1e1:ai2e1:bi3ee".as_bytes()).unwrap() {
        BNode::Dict(dict) => {
            assert_eq!(dict.len(), 2);
            match dict.get("b").unwrap() {
                BNode::Int(v) => assert_eq!(*v, 3),
                _ => panic!("expected an integer"),
            }
            assert!(dict.get("c").is_none());
            assert_eq!(encode(&BNode::Dict(dict)), b"d1:ai2e1:bi3ee".to_vec());
        }
        _ => panic!("expected a dictionary"),
    }
}

#[test]
fn dictionary_keys_are_decoded_as_utf8() {
    let input = "d2:\u{e9}i1ee".as_bytes().to_vec();
    match parse(&input).unwrap() {
        BNode::Dict(dict) => {
            let entries = dict.entries();
            assert_eq!(entries[0].0, "\u{e9}".to_string());
            assert!(dict.get("\u{e9}").is_some());
        }
        _ => panic!("expected a dictionary"),
    }
}

#[test]
fn lengths_have_no_leading_zero() {
    assert_eq!(error_of("00:"), (1, "Leading zero is not permitted".to_string()));
    assert_eq!(error_of("01:a"), (1, "Leading zero is not permitted".to_string()));
    assert_eq!(error_of("001:a"), (2, "Leading zero is not permitted".to_string()));
    match parse("10:0123456789".as_bytes()).unwrap() {
        BNode::Bytes(b) => assert_eq!(b, b"0123456789".to_vec()),
        _ => panic!("expected a byte string"),
    }
    match parse("0:".as_bytes()).unwrap() {
        BNode::Bytes(b) => assert!(b.is_empty()),
        _ => panic!("expected a byte string"),
    }
}

#[test]
fn a_minus_needs_digits_after_it() {
    assert_eq!(error_of("i-e"), (2, "invalid number".to_string()));
}

#[test]
fn a_minus_only_at_the_head() {
    let misplaced = "`-` can only appear in the head of the number".to_string();
    assert_eq!(error_of("i1-2e"), (2, misplaced.clone()));
    assert_eq!(error_of("0-:"), (2, "invalid number".to_string()));
    assert_eq!(error_of("1--2:ab"), (2, misplaced.clone()));
    assert_eq!(error_of("1-2:ab"), (1, misplaced.clone()));
    let mut lexer = Lexer::new("1-2e".as_bytes());
    let e = lexer.read_i64_before(0, b'e').unwrap_err();
    assert_eq!((e.position, e.msg), (1, misplaced));
}

#[test]
fn checked_reading_reports_what_no_reading_completes() {
    let checked_error = |input: &[u8]| match parse_checked(input) {
        Ok(_) => panic!("should fail"),
        Err(e) => (e.position, e.msg),
    };
    assert_eq!(
        checked_error("i9223372036854775808e".as_bytes()),
        (19, "number out of range".to_string())
    );
    assert_eq!(
        checked_error("i-9223372036854775809e".as_bytes()),
        (20, "number out of range".to_string())
    );
    assert_eq!(
        checked_error(b"d1:\xffi1ee"),
        (3, "dictionary key is not UTF-8".to_string())
    );
    match parse_checked("li1ee".as_bytes()).unwrap() {
        BNode::List(l) => assert_eq!(l.len(), 1),
        _ => panic!("expected a list"),
    }
}

#[test]
fn look_ahead_shows_the_token_taken_next() {
    let mut lexer = Lexer::new("li1ee".as_bytes());
    assert_eq!(lexer.look_ahead().unwrap(), Token::ListBegin);
    assert_eq!(lexer.look_ahead().unwrap(), Token::ListBegin);
    assert_eq!(lexer.position(), 0);
}

#[test]
fn reading_past_the_end_counts_each_read() {
    let mut lexer = Lexer::new("ab".as_bytes());
    let e = lexer.read_bytes(5).unwrap_err();
    assert_eq!(e.position, 2);
    assert_eq!(e.msg, "stream's length is expected to be 5, but it's 2.");
    let e = lexer.read_bytes(1).unwrap_err();
    assert_eq!(e.position, 3);
    assert_eq!(lexer.read_bytes(0).unwrap(), Vec::<u8>::new());
}

#[test]
fn read_i64_before_hands_back_the_symbol() {
    let mut lexer = Lexer::new("-12:x".as_bytes());
    assert_eq!(lexer.read_i64_before(0, b':').unwrap(), (-12, 3));
    assert_eq!(lexer.position(), 3);
    assert_eq!(lexer.read_bytes(2).unwrap(), b":x".to_vec());
    assert_eq!(lexer.position(), 4);
}

#[test]
fn a_lone_minus_is_not_a_number() {
    let lexer = Lexer::new("i-e".as_bytes());
    let e = lib::parse_number(lexer).unwrap_err();
    assert_eq!((e.position, e.msg), (2, "invalid number".to_string()));
}

#[test]
fn the_first_byte_decides_the_kind() {
    assert!(matches!(parse("i7e".as_bytes()).unwrap(), BNode::Int(7)));
    assert!(matches!(parse("1:x".as_bytes()).unwrap(), BNode::Bytes(_)));
    assert!(matches!(parse("le".as_bytes()).unwrap(), BNode::List(_)));
    assert!(matches!(parse("de".as_bytes()).unwrap(), BNode::Dict(_)));
    assert_eq!(error_of("z"), (0, "unknown token: 122".to_string()));
}

#[test]
fn bytes_after_a_value_are_rejected() {
    for input in ["i1ex", "le0:", "dei1e", "3:abcl"] {
        let (position, _) = error_of(input);
        assert!(0 <= position && position as usize <= input.len());
    }
}

#[test]
fn reading_a_value_reads_exactly_its_encoding() {
    let (node, mut lexer) = lib::parse_internal(Lexer::new("i1e3:abc".as_bytes())).unwrap();
    assert!(matches!(node, BNode::Int(1)));
    assert_eq!(lexer.position(), 2);
    assert_eq!(lexer.look_ahead().unwrap(), Token::Length(3));
}
