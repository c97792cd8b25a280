use flatten::svg::{scan_num, scan_ident, Lexer, Token};

#[test]
fn scan_num_plain_integer() {
    assert_eq!(scan_num(b"123"), 3);
    assert_eq!(scan_num(b"123,456"), 3);
}

#[test]
fn scan_num_signed_fraction_exponent() {
    assert_eq!(scan_num(b"-1.5e-3"), 7);
    assert_eq!(scan_num(b"-1.5E+3)"), 7);
    assert_eq!(scan_num(b"2e10"), 4);
}

#[test]
fn scan_num_multiple_points_tolerated() {
    // the scanner is deliberately loose about repeated decimal points
    assert_eq!(scan_num(b"1.2.3"), 5);
}

#[test]
fn scan_num_dangling_exponent() {
    // the exponent marker and a following sign are consumed even when no
    // digits follow them
    assert_eq!(scan_num(b"1e"), 2);
    assert_eq!(scan_num(b"1e-x"), 3);
    assert_eq!(scan_num(b"1ex"), 2);
}

#[test]
fn scan_num_bare_signs() {
    assert_eq!(scan_num(b"-"), 1);
    assert_eq!(scan_num(b"+1"), 0);
    assert_eq!(scan_num(b"."), 1);
}

#[test]
fn scan_ident_runs() {
    assert_eq!(scan_ident(b"scale("), 5);
    assert_eq!(scan_ident(b"a_b9 x"), 4);
    assert_eq!(scan_ident(b"m"), 1);
    // the first byte is taken unconditionally
    assert_eq!(scan_ident(b"^ab"), 3);
}

#[test]
fn lexer_scale_call() {
    let mut lx = Lexer::new(b"scale(1.5)".to_vec());
    assert_eq!(lx.next(), Some(Token::Ident(0, 5)));
    assert_eq!(lx.next(), Some(Token::Symbol(b'(')));
    assert_eq!(lx.next(), Some(Token::Number(6, 9)));
    assert_eq!(lx.next(), Some(Token::Symbol(b')')));
    assert_eq!(lx.next(), None);
}

#[test]
fn lexer_matrix_with_spaces() {
    let s = b" matrix(2 0 0 2 10 -3)".to_vec();
    let mut lx = Lexer::new(s);
    assert_eq!(lx.next(), Some(Token::Ident(1, 7)));
    assert_eq!(lx.next(), Some(Token::Symbol(b'(')));
    assert_eq!(lx.next(), Some(Token::Number(8, 9)));
    assert_eq!(lx.next(), Some(Token::Number(10, 11)));
    assert_eq!(lx.next(), Some(Token::Number(12, 13)));
    assert_eq!(lx.next(), Some(Token::Number(14, 15)));
    assert_eq!(lx.next(), Some(Token::Number(16, 18)));
    assert_eq!(lx.next(), Some(Token::Number(19, 21)));
    assert_eq!(lx.next(), Some(Token::Symbol(b')')));
    assert_eq!(lx.next(), None);
}

#[test]
fn lexer_always_advances_on_bare_plus() {
    // a lone plus scans as an empty number lexeme; the lexer still steps
    // past it instead of spinning
    let mut lx = Lexer::new(b"+)".to_vec());
    assert_eq!(lx.next(), Some(Token::Number(0, 0)));
    assert_eq!(lx.next(), Some(Token::Symbol(b')')));
    assert_eq!(lx.next(), None);
}

#[test]
fn lexer_peek_and_whitespace() {
    let mut lx = Lexer::new(b"   x".to_vec());
    assert_eq!(lx.peek(), Some(b' '));
    lx.skip_whitespace();
    assert_eq!(lx.peek(), Some(b'x'));
    assert_eq!(lx.next(), Some(Token::Ident(3, 4)));
    assert_eq!(lx.peek(), None);
}
