use bda::number::Rational;
use bda::scanner::{scan, Token};



#[test]
fn test_double_quoted_escaped_string() {
    let test = r#""\"Escaped\" \\\a \ \"\"\"""#;
    let want = Token::Text(r#""Escaped" \a  """"#.to_owned());
    match scan(test).get(0) {
        Some(t) => assert_eq!(*t, want),
        None => panic!("no token"),
    }
}
#[test]
fn test_single_quoted_escaped_string() {
    let test = r#"'a \'text\''  sdf sdfjasdfksad jasdfças d"#;
    let want = Token::Text(r#"a 'text'"#.to_owned());
    match scan(test).get(0) {
        Some(t) => assert_eq!(*t, want),
        _ => panic!("no token"),
    }
}
#[test]
fn test_unclosed_string() {
    match scan(r#""Start a string but never finish it"#).get(0) {
        Some(t) => assert_eq!(
            *t,
            Token::UnclosedText(r#"Start a string but never finish it"#.to_owned())
        ),
        _ => panic!("no token"),
    }
}
#[test]
fn test_integral_number() {
    let test = r#"43223212"#;
    let want = Token::Number(Rational::parse("43223212").unwrap());
    match scan(test).get(0) {
        Some(t) => assert_eq!(*t, want),
        _ => panic!("no token"),
    }
}

#[test]
fn test_decimal_number() {
    let test = r#"432232.12"#;
    let want = Token::Number(Rational::parse("432232.12").unwrap());
    match scan(test).get(0) {
        Some(t) => assert_eq!(*t, want),
        _ => panic!("no token"),
    }
}
#[test]
fn test_negative_number() {
    let test = r#"-43223212"#;
    let want = Token::Number(Rational::parse("-43223212").unwrap());
    match scan(test).get(0) {
        Some(t) => assert_eq!(*t, want),
        _ => panic!("no token"),
    }
}
#[test]
fn test_wrong_negative_number() {
    let test = r#"--43223212"#;
    let want = Token::Illegal('-');
    match scan(test).get(0) {
        Some(t) => assert_eq!(*t, want),
        _ => panic!("no token"),
    }
}

#[test]
fn test_ws() {
    let test = r#"       anything"#;
    let want = Token::Ws;
    match scan(test).get(0) {
        Some(t) => assert_eq!(*t, want),
        _ => panic!("no token"),
    }
}

#[test]
fn test_eof() {
    let test = r#""#;
    let want = Token::Eof;
    match scan(test).get(0) {
        Some(t) => assert_eq!(*t, want),
        _ => panic!("no token"),
    }
}

#[test]
fn test_comma() {
    let test = r#", anything after"#;
    let want = Token::Comma;
    match scan(test).get(0) {
        Some(t) => assert_eq!(*t, want),
        _ => panic!("no token"),
    }
}

#[test]
fn test_eq_as_symbol() {
    let test = r#"==5"#;
    let want = Token::Eq;
    match scan(test).get(0) {
        Some(t) => assert_eq!(*t, want),
        _ => panic!("no token"),
    }
}

#[test]
fn test_eq_insensitive() {
    let test = r#"eQ 5"#;
    let want = Token::Eq;
    match scan(test).get(0) {
        Some(t) => assert_eq!(*t, want),
        _ => panic!("no token"),
    }
}

#[test]
fn test_ne_as_symbol() {
    let test = r#"!=5"#;
    let want = Token::Ne;
    match scan(test).get(0) {
        Some(t) => assert_eq!(*t, want),
        _ => panic!("no token"),
    }
}

#[test]
fn test_ne_insensitive() {
    let test = r#"nE 5"#;
    let want = Token::Ne;
    match scan(test).get(0) {
        Some(t) => assert_eq!(*t, want),
        _ => panic!("no token"),
    }
}

#[test]
fn test_lt_as_symbol() {
    let test = r#"<5"#;
    let want = Token::Lt;
    match scan(test).get(0) {
        Some(t) => assert_eq!(*t, want),
        _ => panic!("no token"),
    }
}

#[test]
fn test_lt_insensitive() {
    let test = r#"lT 5"#;
    let want = Token::Lt;
    match scan(test).get(0) {
        Some(t) => assert_eq!(*t, want),
        _ => panic!("no token"),
    }
}
#[test]
fn test_lte_as_symbol() {
    let test = r#"<=5"#;
    let want = Token::Lte;
    match scan(test).get(0) {
        Some(t) => assert_eq!(*t, want),
        _ => panic!("no token"),
    }
}

#[test]
fn test_lte_insensitive() {
    let test = r#"lTe 5"#;
    let want = Token::Lte;
    match scan(test).get(0) {
        Some(t) => assert_eq!(*t, want),
        _ => panic!("no token"),
    }
}

#[test]
fn test_gt_as_symbol() {
    let test = r#">5"#;
    let want = Token::Gt;
    match scan(test).get(0) {
        Some(t) => assert_eq!(*t, want),
        _ => panic!("no token"),
    }
}

#[test]
fn test_gt_insensitive() {
    let test = r#"gT 5"#;
    let want = Token::Gt;
    match scan(test).get(0) {
        Some(t) => assert_eq!(*t, want),
        _ => panic!("no token"),
    }
}
#[test]
fn test_gte_as_symbol() {
    let test = r#">=5"#;
    let want = Token::Gte;
    match scan(test).get(0) {
        Some(t) => assert_eq!(*t, want),
        _ => panic!("no token"),
    }
}

#[test]
fn test_gte_insensitive() {
    let test = r#"gTe 5"#;
    let want = Token::Gte;
    match scan(test).get(0) {
        Some(t) => assert_eq!(*t, want),
        _ => panic!("no token"),
    }
}
#[test]
fn test_not_as_symbol_with_space() {
    let test = r#"! something to negate"#;
    let want = Token::Not;
    match scan(test).get(0) {
        Some(t) => assert_eq!(*t, want),
        _ => panic!("no token"),
    }
}
#[test]
fn test_not_as_symbol_without_space() {
    let test = r#"!something to negate"#;
    let want = Token::Not;
    match scan(test).get(0) {
        Some(t) => assert_eq!(*t, want),
        _ => panic!("no token"),
    }
}

#[test]
fn test_not_insensitive() {
    let test = r#"NoT Something to negate"#;
    let want = Token::Not;
    match scan(test).get(0) {
        Some(t) => assert_eq!(*t, want),
        _ => panic!("no token"),
    }
}

#[test]
fn test_null_insensitive() {
    let test = r#"NuLl Something to negate"#;
    let want = Token::Nothing;
    match scan(test).get(0) {
        Some(t) => assert_eq!(*t, want),
        _ => panic!("no token"),
    }
}
#[test]
fn test_nil_insensitive() {
    let test = r#"NiL Something to negate"#;
    let want = Token::Nothing;
    match scan(test).get(0) {
        Some(t) => assert_eq!(*t, want),
        _ => panic!("no token"),
    }
}
#[test]
fn test_nothing_insensitive() {
    let test = r#"NoThInG Something to negate"#;
    let want = Token::Nothing;
    match scan(test).get(0) {
        Some(t) => assert_eq!(*t, want),
        _ => panic!("no token"),
    }
}
#[test]
fn test_defined_insensitive() {
    let test = r#"DefiNed Something to negate"#;
    let want = Token::Defined;
    match scan(test).get(0) {
        Some(t) => assert_eq!(*t, want),
        _ => panic!("no token"),
    }
}
#[test]
fn test_true_insensitive() {
    let test = r#"TruE ..."#;
    let want = Token::True;
    match scan(test).get(0) {
        Some(t) => assert_eq!(*t, want),
        _ => panic!("no token"),
    }
}
#[test]
fn test_yes_insensitive() {
    let test = r#"YeS ..."#;
    let want = Token::True;
    match scan(test).get(0) {
        Some(t) => assert_eq!(*t, want),
        _ => panic!("no token"),
    }
}

#[test]
fn test_false_insensitive() {
    let test = r#"FalsE ..."#;
    let want = Token::False;
    match scan(test).get(0) {
        Some(t) => assert_eq!(*t, want),
        _ => panic!("no token"),
    }
}
#[test]
fn test_in_insensitive() {
    let test = r#"In ..."#;
    let want = Token::In;
    match scan(test).get(0) {
        Some(t) => assert_eq!(*t, want),
        _ => panic!("no token"),
    }
}
#[test]
fn test_in_as_at_symbol() {
    let test = r#"@ALL ..."#;
    let want = Token::In;
    match scan(test).get(0) {
        Some(t) => assert_eq!(*t, want),
        _ => panic!("no token"),
    }
}
#[test]
fn test_in_as_hashtag_symbol() {
    let test = r#"#ALL ..."#;
    let want = Token::In;
    match scan(test).get(0) {
        Some(t) => assert_eq!(*t, want),
        _ => panic!("no token"),
    }
}
#[test]
fn test_all_insensitive() {
    let test = r#"AlL[4,3,2]"#;
    let want = Token::All;
    match scan(test).get(0) {
        Some(t) => assert_eq!(*t, want),
        _ => panic!("no token"),
    }
}
#[test]
fn test_any_insensitive() {
    let test = r#"AnY[4,3,2]"#;
    let want = Token::Any;
    match scan(test).get(0) {
        Some(t) => assert_eq!(*t, want),
        _ => panic!("no token"),
    }
}

#[test]
fn test_and_insensitive() {
    let test = r#"AnD [4,3,2]"#;
    let want = Token::And;
    match scan(test).get(0) {
        Some(t) => assert_eq!(*t, want),
        _ => panic!("no token"),
    }
}

#[test]
fn test_and_with_symbol() {
    let test = r#"&&[4,3,2]"#;
    let want = Token::And;
    match scan(test).get(0) {
        Some(t) => assert_eq!(*t, want),
        _ => panic!("no token"),
    }
}

#[test]
fn test_or_insensitive() {
    let test = r#"Or [4,3,2]"#;
    let want = Token::Or;
    match scan(test).get(0) {
        Some(t) => assert_eq!(*t, want),
        _ => panic!("no token"),
    }
}

#[test]
fn test_or_with_symbol() {
    let test = r#"||[4,3,2]"#;
    let want = Token::Or;
    match scan(test).get(0) {
        Some(t) => assert_eq!(*t, want),
        _ => panic!("no token"),
    }
}

#[test]
fn test_lt_bracket() {
    let test = r#"[4,3,2]"#;
    let want = Token::LtBracket;
    match scan(test).get(0) {
        Some(t) => assert_eq!(*t, want),
        _ => panic!("no token"),
    }
}

#[test]
fn test_rt_bracket() {
    let test = r#"] sda"#;
    let want = Token::RtBracket;
    match scan(test).get(0) {
        Some(t) => assert_eq!(*t, want),
        _ => panic!("no token"),
    }
}

#[test]
fn test_lt_parenthesis() {
    let test = r#"(4,3,2)"#;
    let want = Token::LtParentheses;
    match scan(test).get(0) {
        Some(t) => assert_eq!(*t, want),
        _ => panic!("no token"),
    }
}

#[test]
fn test_rt_parenthesis() {
    let test = r#") sda"#;
    let want = Token::RtParentheses;
    match scan(test).get(0) {
        Some(t) => assert_eq!(*t, want),
        _ => panic!("no token"),
    }
}

#[test]
fn test_ident_dotted() {
    let test = r#".field.name sdf"#;
    let want = Token::Ident(r#".field.name"#.to_owned());
    match scan(test).get(0) {
        Some(t) => assert_eq!(*t, want),
        _ => panic!("no token"),
    }
}
#[test]
fn test_ident() {
    let test = r#"field.name sdf"#;
    let want = Token::Ident(r#"field.name"#.to_owned());
    match scan(test).get(0) {
        Some(t) => assert_eq!(*t, want),
        _ => panic!("no token"),
    }
}
