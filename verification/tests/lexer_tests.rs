use lib::{parse_number, Lexer, Token};

#[test]
fn test_lexer_read_i64_before() {
    let raws = ["2147483648e", "0e"];
    let ret = [2147483648, 0];

    for i in 0..raws.len() {
        let raw = raws[i];
        let mut lexer = Lexer::new(raw.as_bytes());

        let (value, _) = lexer.read_i64_before(0, b'e').unwrap();
        assert_eq!(ret[i], value);
    }
}

#[test]
fn test_lexer_read_negative_zero() {
    let raw = "-0e";

    let mut lexer = Lexer::new(raw.as_bytes());

    let _ = lexer
        .read_i64_before(0, b'e')
        .expect_err("Negative zero is not permitted");
}

#[test]
fn test_lexer_no_leading_zero() {
    let raws = ["00e", "01e"];

    for raw in raws.iter() {
        let mut lexer = Lexer::new(raw.as_bytes());

        let _ = lexer
            .read_i64_before(0, b'e')
            .expect_err("Leading zero is not permitted");
    }
}

#[test]
fn test_lexer_read_nbytes() {
    let raw = "bencode";

    let mut lexer = Lexer::new(raw.as_bytes());

    let raw_bytes = lexer.read_bytes(3).unwrap();
    assert_eq!("ben".as_bytes(), &raw_bytes);

    let raw_bytes = lexer.read_bytes(4).unwrap();
    assert_eq!("code".as_bytes(), &raw_bytes);
}

#[test]
fn test_lexer_position_case1() {
    let raw = "bencode";

    let mut lexer = Lexer::new(raw.as_bytes());

    let _ = lexer.read_bytes(3).unwrap();
    assert_eq!(2, lexer.position());

    let _ = lexer.read_bytes(4).unwrap();
    assert_eq!(6, lexer.position());
}

#[test]
fn test_lexer_position_case2() {
    let raw = "i56e";

    let mut lexer = Lexer::new(raw.as_bytes());

    let _ = lexer.look_ahead().unwrap();
    assert_eq!(0, lexer.position());

    let _ = lexer.look_ahead().unwrap();
    assert_eq!(0, lexer.position());
}

#[test]
fn test_lexer_position_case3() {
    let raw = "7:bencode";

    let mut lexer = Lexer::new(raw.as_bytes());

    let _ = lexer.look_ahead().unwrap();
    assert_eq!(1, lexer.position());
}

#[test]
fn test_lexer_position_case4() {
    let raw = "i-2-0e";

    let lexer = Lexer::new(raw.as_bytes());

    assert_eq!(3, parse_number(lexer).unwrap_err().position)
}

#[test]
fn test_lexer_look_ahead() {
    let raw = "i256e";

    let mut lexer = Lexer::new(raw.as_bytes());

    assert_eq!(Token::IntBegin, lexer.look_ahead().unwrap());
    assert_eq!(Token::IntBegin, lexer.look_ahead().unwrap());
}
