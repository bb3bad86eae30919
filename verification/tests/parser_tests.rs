use bda::bql::{Value, BQL};
use bda::number::Rational;
use bda::parser::{parse, scan_ignore_spaces};
use bda::scanner::{scan, Token};

#[test]
fn parser_test_scan_ignore_spaces() {
    let v = scan("    .field     .another.field");
    let (t, i) = scan_ignore_spaces(&v, 0).unwrap();
    assert_eq!(t, Token::Ident(".field".to_owned()));
    assert_eq!(v[i], Token::Ident(".field".to_owned()));

    let (t, j) = scan_ignore_spaces(&v, i + 1).unwrap();
    assert_eq!(t, Token::Ident(".another.field".to_owned()));
    assert_eq!(v[j], Token::Ident(".another.field".to_owned()));
}

#[test]
fn test_all_relation() {
    assert_eq!(BQL::IsPresent, parse(r#"all"#).unwrap());
}
#[test]
fn test_defined_relation_single_field() {
    assert_eq!(
        BQL::IsDefined {
            field: "field".to_owned(),
        },
        parse(r#"field"#).unwrap()
    );
}
#[test]
fn test_not_defined_relation_with_exclamation() {
    assert_eq!(
        BQL::Not(Box::new(BQL::IsDefined {
            field: "field".to_owned(),
        })),
        parse(r#"!field"#).unwrap()
    );
}
#[test]
fn test_not_defined_relation_with_exclamation_and_space() {
    assert_eq!(
        BQL::Not(Box::new(BQL::IsDefined {
            field: "field".to_owned(),
        })),
        parse(r#"! field"#).unwrap()
    );
}

#[test]
fn test_not_defined_relation_with_not() {
    assert_eq!(
        BQL::Not(Box::new(BQL::IsDefined {
            field: "field".to_owned(),
        })),
        parse(r#"not field"#).unwrap()
    );
}

#[test]
fn test_defined_relation() {
    assert_eq!(
        BQL::IsDefined {
            field: "field".to_owned(),
        },
        parse(r#"field == defined"#).unwrap()
    );
}
#[test]
fn test_not_defined_relation() {
    assert_eq!(
        BQL::Not(Box::new(BQL::IsDefined {
            field: "field".to_owned(),
        })),
        parse(r#"field != defined"#).unwrap()
    );
}

#[test]
fn test_not_defined_relation_single_quoted() {
    assert_eq!(
        BQL::Not(Box::new(BQL::IsDefined {
            field: "field".to_owned(),
        })),
        parse(r#"'field' != defined"#).unwrap()
    );
}
#[test]
fn test_defined_relation_double_quoted() {
    assert_eq!(
        BQL::IsDefined {
            field: "field".to_owned(),
        },
        parse(r#""field" == defined"#).unwrap()
    );
}

#[test]
fn test_defined_relation_and_eq() {
    assert_eq!(
        BQL::IsDefined {
            field: "field".to_owned(),
        },
        parse(r#"field eq defined"#).unwrap()
    );
}

#[test]
fn test_not_defined_relation_and_ne() {
    assert_eq!(
        BQL::Not(Box::new(BQL::IsDefined {
            field: "field".to_owned(),
        })),
        parse(r#"field ne defined"#).unwrap()
    );
}

#[test]
fn test_eq_relation_with_eq_str() {
    assert_eq!(
        BQL::Eq {
            field: "field".to_owned(),
            value: Value::Text("abc".to_owned())
        },
        parse(r#"field eq "abc""#).unwrap()
    );
}
#[test]
fn test_eq_relation_with_ne_str() {
    assert_eq!(
        BQL::Not(Box::new(BQL::Eq {
            field: "field".to_owned(),
            value: Value::Text("abc".to_owned())
        })),
        parse(r#"field ne "abc""#).unwrap()
    );
}

#[test]
fn test_eq_relation_with_eq_number() {
    assert_eq!(
        BQL::Eq {
            field: "field".to_owned(),
            value: Value::Rational(Rational::parse("5").unwrap())
        },
        parse(r#"field eq 5"#).unwrap()
    );
}

#[test]
fn test_eq_relation_with_eq_negative_number() {
    assert_eq!(
        BQL::Eq {
            field: "field".to_owned(),
            value: Value::Rational(Rational::parse("-5").unwrap())
        },
        parse(r#"field eq -5"#).unwrap()
    );
}

#[test]
fn test_eq_relation_with_ne_number() {
    assert_eq!(
        BQL::Not(Box::new(BQL::Eq {
            field: "field".to_owned(),
            value: Value::Rational(Rational::parse("5").unwrap())
        })),
        parse(r#"field ne 5"#).unwrap()
    );
}

#[test]
fn test_eq_relation_with_eq_true() {
    assert_eq!(
        BQL::Eq {
            field: "field".to_owned(),
            value: Value::Boolean(true)
        },
        parse(r#"field eq true"#).unwrap()
    );
}
#[test]
fn test_eq_relation_with_ne_true() {
    assert_eq!(
        BQL::Not(Box::new(BQL::Eq {
            field: "field".to_owned(),
            value: Value::Boolean(true)
        })),
        parse(r#"field ne true"#).unwrap()
    );
}

#[test]
fn test_eq_relation_with_eq_false() {
    assert_eq!(
        BQL::Eq {
            field: "field".to_owned(),
            value: Value::Boolean(false)
        },
        parse(r#"field eq false"#).unwrap()
    );
}

#[test]
fn test_eq_relation_with_is_false() {
    assert_eq!(
        BQL::Eq {
            field: "field".to_owned(),
            value: Value::Boolean(false)
        },
        parse(r#"field is false"#).unwrap()
    );
}

#[test]
fn test_eq_relation_with_ne_false() {
    assert_eq!(
        BQL::Not(Box::new(BQL::Eq {
            field: "field".to_owned(),
            value: Value::Boolean(false)
        })),
        parse(r#"field ne false"#).unwrap()
    );
}

#[test]
fn test_eq_relation_with_is_null() {
    assert_eq!(
        BQL::Eq {
            field: "field".to_owned(),
            value: Value::Bottom,
        },
        parse(r#"field is null"#).unwrap()
    );
}
#[test]
fn test_eq_relation_with_is_nil() {
    assert_eq!(
        BQL::Eq {
            field: "field".to_owned(),
            value: Value::Bottom,
        },
        parse(r#"field is nil"#).unwrap()
    );
}
#[test]
fn test_eq_relation_with_is_nothing() {
    assert_eq!(
        BQL::Eq {
            field: "field".to_owned(),
            value: Value::Bottom,
        },
        parse(r#"field is nothing"#).unwrap()
    );
}

#[test]
fn test_lt_relation_with_symbol() {
    assert_eq!(
        BQL::LT {
            field: "field".to_owned(),
            value: Value::Rational(Rational::parse("5").unwrap())
        },
        parse(r#"field < 5"#).unwrap()
    );
}
#[test]
fn test_lt_relation_with_str() {
    assert_eq!(
        BQL::LT {
            field: "field".to_owned(),
            value: Value::Rational(Rational::parse("5").unwrap())
        },
        parse(r#"field lt 5"#).unwrap()
    );
}

#[test]
fn test_lte_relation_with_symbol() {
    assert_eq!(
        BQL::LE {
            field: "field".to_owned(),
            value: Value::Rational(Rational::parse("5").unwrap())
        },
        parse(r#"field <= 5"#).unwrap()
    );
}
#[test]
fn test_lte_relation_with_str() {
    assert_eq!(
        BQL::LE {
            field: "field".to_owned(),
            value: Value::Rational(Rational::parse("5").unwrap())
        },
        parse(r#"field lte 5"#).unwrap()
    );
}

#[test]
fn test_gt_relation_with_symbol() {
    assert_eq!(
        BQL::GT {
            field: "field".to_owned(),
            value: Value::Rational(Rational::parse("5").unwrap())
        },
        parse(r#"field > 5"#).unwrap()
    );
}
#[test]
fn test_gt_relation_with_str() {
    assert_eq!(
        BQL::GT {
            field: "field".to_owned(),
            value: Value::Rational(Rational::parse("5").unwrap())
        },
        parse(r#"field gt 5"#).unwrap()
    );
}

#[test]
fn test_gte_relation_with_symbol() {
    assert_eq!(
        BQL::GE {
            field: "field".to_owned(),
            value: Value::Rational(Rational::parse("5").unwrap())
        },
        parse(r#"field >= 5"#).unwrap()
    );
}
#[test]
fn test_gte_relation_with_str() {
    assert_eq!(
        BQL::GE {
            field: "field".to_owned(),
            value: Value::Rational(Rational::parse("5").unwrap())
        },
        parse(r#"field gte 5"#).unwrap()
    );
}

#[test]
fn test_in_all_relation_mixed_values() {
    assert_eq!(
        BQL::All {
            field: "field".to_owned(),
            values: vec![
                Value::Text("a".to_owned()),
                Value::Rational(Rational::parse("42.05").unwrap()),
                Value::Boolean(true),
                Value::Bottom,
            ],
        },
        parse(r#"field in all ["a",42.05,true,nil]"#).unwrap()
    );
}

#[test]
fn test_in_all_relation_mixed_values_and_no_spaces() {
    assert_eq!(
        BQL::All {
            field: "field".to_owned(),
            values: vec![
                Value::Text("a".to_owned()),
                Value::Rational(Rational::parse("42.05").unwrap()),
                Value::Boolean(true),
                Value::Bottom,
            ],
        },
        parse(r#"field#all["a",42.05,true,nil]"#).unwrap()
    );
}

#[test]
fn test_not_in_all_relation_mixed_values() {
    assert_eq!(
        BQL::Not(Box::new(BQL::All {
            field: "field".to_owned(),
            values: vec![
                Value::Text("a".to_owned()),
                Value::Rational(Rational::parse("42.05").unwrap()),
                Value::Boolean(true),
                Value::Bottom,
            ],
        })),
        parse(r#"field not in all ["a",42.05,true,nil]"#).unwrap()
    );
}

#[test]
fn test_not_in_all_relation_mixed_values_and_no_spaces() {
    assert_eq!(
        BQL::Not(Box::new(BQL::All {
            field: "field".to_owned(),
            values: vec![
                Value::Text("a".to_owned()),
                Value::Rational(Rational::parse("42.05").unwrap()),
                Value::Boolean(true),
                Value::Bottom,
            ],
        })),
        parse(r#"field!@all["a",42.05,true,nil]"#).unwrap()
    );
}

#[test]
fn test_in_any_relation_mixed_values() {
    assert_eq!(
        BQL::Any {
            field: "field".to_owned(),
            values: vec![
                Value::Text("a".to_owned()),
                Value::Rational(Rational::parse("42.05").unwrap()),
                Value::Boolean(true),
                Value::Bottom,
            ],
        },
        parse(r#"field in any ["a",42.05,true,nil]"#).unwrap()
    );
}

#[test]
fn test_in_any_relation_mixed_values_and_no_spaces() {
    assert_eq!(
        BQL::Any {
            field: "field".to_owned(),
            values: vec![
                Value::Text("a".to_owned()),
                Value::Rational(Rational::parse("42.05").unwrap()),
                Value::Boolean(true),
                Value::Bottom,
            ],
        },
        parse(r#"field#any["a",42.05,true,nil]"#).unwrap()
    );
}

#[test]
fn test_not_in_any_relation_mixed_values() {
    assert_eq!(
        BQL::Not(Box::new(BQL::Any {
            field: "field".to_owned(),
            values: vec![
                Value::Text("a".to_owned()),
                Value::Rational(Rational::parse("42.05").unwrap()),
                Value::Boolean(true),
                Value::Bottom,
            ],
        })),
        parse(r#"field not in any ["a",42.05,true,nil]"#).unwrap()
    );
}

#[test]
fn test_not_in_any_relation_mixed_values_and_no_spaces() {
    assert_eq!(
        BQL::Not(Box::new(BQL::Any {
            field: "field".to_owned(),
            values: vec![
                Value::Text("a".to_owned()),
                Value::Rational(Rational::parse("42.05").unwrap()),
                Value::Boolean(true),
                Value::Bottom,
            ],
        })),
        parse(r#"field!@any["a",42.05,true,nil]"#).unwrap()
    );
}

#[test]
fn test_union_of_three_predicates() {
    assert_eq!(
        BQL::Or(
            Box::new(BQL::Or(
                Box::new(BQL::Eq {
                    field: "field".to_owned(),
                    value: Value::Rational(Rational::parse("42").unwrap()),
                }),
                Box::new(BQL::Eq {
                    field: "field".to_owned(),
                    value: Value::Bottom,
                }),
            )),
            Box::new(BQL::IsDefined {
                field: "field".to_owned(),
            }),
        ),
        parse(r#"field == defined  or  field == null or field == 42"#).unwrap()
    );
}

#[test]
fn test_intersection_of_three_predicates() {
    assert_eq!(
        BQL::And(
            Box::new(BQL::Eq {
                field: "field".to_owned(),
                value: Value::Rational(Rational::parse("42").unwrap()),
            }),
            Box::new(BQL::And(
                Box::new(BQL::Eq {
                    field: "field".to_owned(),
                    value: Value::Bottom,
                }),
                Box::new(BQL::IsDefined {
                    field: "field".to_owned(),
                }),
            )),
        ),
        parse(r#"field == defined  and  field == null and field == 42"#).unwrap()
    );
}
#[test]
fn test_intersection_and_union_with_parentheses() {
    assert_eq!(
        BQL::And(
            Box::new(BQL::Or(
                Box::new(BQL::Eq {
                    field: "field".to_owned(),
                    value: Value::Rational(Rational::parse("42").unwrap()),
                }),
                Box::new(BQL::Eq {
                    field: "field".to_owned(),
                    value: Value::Bottom,
                }),
            )),
            Box::new(BQL::IsDefined {
                field: "field".to_owned(),
            })
        ),
        parse(r#"(field == defined ) and  ( field == null or field == 42 ) "#).unwrap()
    );
}

#[test]
fn test_intersection_and_union_with_parenthesesand_ne() {
    assert_eq!(
        BQL::And(
            Box::new(BQL::Not(Box::new(BQL::Or(
                Box::new(BQL::Not(Box::new(BQL::LT {
                    field: "field".to_owned(),
                    value: Value::Rational(Rational::parse("42").unwrap()),
                }))),
                Box::new(BQL::Eq {
                    field: "field".to_owned(),
                    value: Value::Bottom,
                }),
            )))),
            Box::new(BQL::Not(Box::new(BQL::IsDefined {
                field: "field".to_owned(),
            })))
        ),
        parse(r#"!(field)&&!(field==null||!field<42)"#).unwrap()
    );
}
