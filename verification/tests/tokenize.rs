use rusty_rpn::tokenise;
use rusty_rpn::Node;
use rusty_rpn::ParseFailure;

#[test]
fn tokenize_test() {
    assert_eq!(tokenise("123".to_string()).unwrap(), vec![Node::Val(123)]);
    assert_eq!(tokenise(" 123".to_string()).unwrap(), vec![Node::Val(123)]);
    // a field that is neither a lone operator nor an integer is rejected
    assert!(tokenise("1++".to_string()).is_err());
    assert!(tokenise("+-*/".to_string()).is_err());
    assert_eq!(tokenise("".to_string()).unwrap(), vec![]);
    assert_eq!(tokenise("     ".to_string()).unwrap(), vec![]);
}

#[test]
fn tokenise_err_test() {
    assert!(tokenise("..".to_string()).is_err());
}

#[test]
fn single_integer_literal() {
    assert_eq!(tokenise("42".to_string()).unwrap(), vec![Node::Val(42)]);
    assert_eq!(tokenise(" 42\n".to_string()).unwrap(), vec![Node::Val(42)]);
    assert_eq!(tokenise("-7".to_string()).unwrap(), vec![Node::Val(-7)]);
    assert_eq!(tokenise("+0".to_string()).unwrap(), vec![Node::Val(0)]);
}

#[test]
fn whitespace_only_inputs() {
    assert_eq!(tokenise("".to_string()).unwrap(), vec![]);
    assert_eq!(tokenise("   ".to_string()).unwrap(), vec![]);
    assert_eq!(tokenise("\t \r\n".to_string()).unwrap(), vec![]);
    assert_eq!(tokenise("\u{00A0}\u{2003}".to_string()).unwrap(), vec![]);
}

#[test]
fn unicode_whitespace_is_trimmed() {
    assert_eq!(
        tokenise("\u{000B}5".to_string()).unwrap(),
        vec![Node::Val(5)]
    );
    assert_eq!(
        tokenise("\u{00A0}7 2 +\u{3000}\n".to_string()).unwrap(),
        vec![Node::Val(7), Node::Val(2), Node::Plus]
    );
    // inner non-space whitespace is no delimiter and no digit
    let e = tokenise("1\t2".to_string()).unwrap_err();
    assert_eq!(e.field.as_str(), "1\t2");
    assert_eq!(e.reason, ParseFailure::InvalidDigit);
}

#[test]
fn double_space_gives_empty_field() {
    let e = tokenise("1  +".to_string()).unwrap_err();
    assert_eq!(e.field.as_str(), "");
    assert_eq!(e.reason, ParseFailure::EmptyField);
}

#[test]
fn operators_tokenize_alone() {
    assert_eq!(tokenise("+".to_string()).unwrap(), vec![Node::Plus]);
    assert_eq!(
        tokenise("+ - * /".to_string()).unwrap(),
        vec![Node::Plus, Node::Minus, Node::Mul, Node::Div]
    );
    // the tokenizer never checks arity; two operators in a row are fine
    assert_eq!(
        tokenise("1 + +".to_string()).unwrap(),
        vec![Node::Val(1), Node::Plus, Node::Plus]
    );
}

#[test]
fn invalid_digit_field() {
    let e = tokenise("12x".to_string()).unwrap_err();
    assert_eq!(e.field.as_str(), "12x");
    assert_eq!(e.reason, ParseFailure::InvalidDigit);
    // a sign with no digits after it is not an integer
    let e = tokenise("3 +x".to_string()).unwrap_err();
    assert_eq!(e.field.as_str(), "+x");
    assert_eq!(e.reason, ParseFailure::InvalidDigit);
}

#[test]
fn out_of_range_field() {
    let e = tokenise("2147483648".to_string()).unwrap_err();
    assert_eq!(e.field.as_str(), "2147483648");
    assert_eq!(e.reason, ParseFailure::OutOfRange);
    let e = tokenise("-2147483649".to_string()).unwrap_err();
    assert_eq!(e.field.as_str(), "-2147483649");
    assert_eq!(e.reason, ParseFailure::OutOfRange);
    let e = tokenise("99999999999999999999".to_string()).unwrap_err();
    assert_eq!(e.reason, ParseFailure::OutOfRange);
}

#[test]
fn i32_boundary_literals() {
    assert_eq!(
        tokenise("2147483647".to_string()).unwrap(),
        vec![Node::Val(i32::MAX)]
    );
    assert_eq!(
        tokenise("-2147483648".to_string()).unwrap(),
        vec![Node::Val(i32::MIN)]
    );
}

#[test]
fn first_bad_field_wins() {
    let e = tokenise("1 x 2".to_string()).unwrap_err();
    assert_eq!(e.field.as_str(), "x");
    assert_eq!(e.reason, ParseFailure::InvalidDigit);
}
