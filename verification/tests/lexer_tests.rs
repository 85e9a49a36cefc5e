use nemesis::lexer::{lex, Token};

#[test]
fn lex_tp8_nvl12() {
    let tokens = lex("TP8_NVL12").unwrap();
    assert_eq!(tokens, vec![Token::Tp, Token::Number(8), Token::NvlMin(12)]);
}

#[test]
fn lex_operators() {
    let tokens = lex("+|").unwrap();
    assert_eq!(tokens, vec![Token::Plus, Token::Pipe]);
}

#[test]
fn lex_unknown_dim_errors() {
    assert!(lex("XP8").is_err());
}

#[test]
fn lex_full_expression() {
    let tokens = lex("TP8_NVL12+PP4_IB2_NUMA|DP16").unwrap();
    assert_eq!(
        tokens,
        vec![
            Token::Tp,
            Token::Number(8),
            Token::NvlMin(12),
            Token::Plus,
            Token::Pp,
            Token::Number(4),
            Token::IbMax(2),
            Token::Numa,
            Token::Pipe,
            Token::Dp,
            Token::Number(16),
        ]
    );
}

#[test]
fn lex_empty_input_is_empty() {
    assert_eq!(lex("").unwrap(), Vec::<Token>::new());
}

#[test]
fn lex_error_messages() {
    assert_eq!(lex("9"), Err("unexpected character '9'".to_string()));
    assert_eq!(lex("XP8"), Err("unknown parallel dim XP".to_string()));
    assert_eq!(lex("TP"), Err("expected number after TP".to_string()));
    assert_eq!(lex("TP8_NVL"), Err("_NVL must be followed by a number".to_string()));
    assert_eq!(lex("TP8_IB"), Err("_IB must be followed by a number".to_string()));
    assert_eq!(lex("TP8_IB99999999999"), Err("bad IB number".to_string()));
    assert_eq!(lex("TP8_FOO"), Err("unknown constraint _FOO".to_string()));
    assert_eq!(lex("TP99999999999"), Err("expected number after TP".to_string()));
    assert_eq!(lex("ΩP8"), Err("unknown parallel dim ΩP".to_string()));
}
