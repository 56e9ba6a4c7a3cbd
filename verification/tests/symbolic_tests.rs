use tensor_calc::{Scalar, SymbolicExpr};

#[test]
fn test_parse_simple() {
    assert_eq!(
        SymbolicExpr::parse("x").unwrap(),
        SymbolicExpr::Variable("x".to_string())
    );
    assert_eq!(
        SymbolicExpr::parse("42").unwrap(),
        SymbolicExpr::Constant(Scalar {
            mantissa: 42,
            scale: 0
        })
    );
    assert_eq!(SymbolicExpr::parse("0").unwrap(), SymbolicExpr::Zero);
    assert_eq!(SymbolicExpr::parse("1").unwrap(), SymbolicExpr::One);
}

#[test]
fn test_parse_power() {
    match SymbolicExpr::parse("r^2").unwrap() {
        SymbolicExpr::Power(base, exp) => {
            assert_eq!(*base, SymbolicExpr::Variable("r".to_string()));
            assert_eq!(
                *exp,
                SymbolicExpr::Constant(Scalar {
                    mantissa: 2,
                    scale: 0
                })
            );
        }
        _ => panic!("Expected power expression"),
    }
}

#[test]
fn test_simplify() {
    let expr = SymbolicExpr::Add(
        Box::new(SymbolicExpr::Constant(Scalar {
            mantissa: 2,
            scale: 0,
        })),
        Box::new(SymbolicExpr::Constant(Scalar {
            mantissa: 3,
            scale: 0,
        })),
    );
    assert_eq!(
        expr.simplify(),
        SymbolicExpr::Constant(Scalar {
            mantissa: 5,
            scale: 0
        })
    );
}

#[test]
fn test_derivative() {
    let expr = SymbolicExpr::Variable("x".to_string());
    assert_eq!(expr.derivative("x"), SymbolicExpr::One);
    assert_eq!(expr.derivative("y"), SymbolicExpr::Zero);
}

#[test]
fn test_parse_function() {
    assert_eq!(
        SymbolicExpr::parse("sin(theta)").unwrap(),
        SymbolicExpr::Function(
            "sin".to_string(),
            vec![SymbolicExpr::Variable("theta".to_string())]
        )
    );
}

#[test]
fn test_parse_fallback_is_verbatim_variable() {
    // arbitrary arithmetic is not parsed into structure: it degrades to an
    // opaque variable holding the text verbatim
    assert_eq!(
        SymbolicExpr::parse("-(1 - 2*M/r)").unwrap(),
        SymbolicExpr::Variable("-(1 - 2*M/r)".to_string())
    );
    assert_eq!(
        SymbolicExpr::parse("f(g(x))").unwrap(),
        SymbolicExpr::Variable("f(g(x))".to_string())
    );
}

#[test]
fn test_parse_empty_and_trim() {
    assert_eq!(SymbolicExpr::parse("").unwrap(), SymbolicExpr::Zero);
    assert_eq!(SymbolicExpr::parse("  1  ").unwrap(), SymbolicExpr::One);
    assert_eq!(
        SymbolicExpr::parse(" x ").unwrap(),
        SymbolicExpr::Variable("x".to_string())
    );
}

#[test]
fn test_parse_decimals() {
    assert_eq!(
        SymbolicExpr::parse("0.5").unwrap(),
        SymbolicExpr::Constant(Scalar {
            mantissa: 5,
            scale: 1
        })
    );
    assert_eq!(
        SymbolicExpr::parse("-0.25").unwrap(),
        SymbolicExpr::Constant(Scalar {
            mantissa: -25,
            scale: 2
        })
    );
    assert_eq!(
        SymbolicExpr::parse("2.0").unwrap(),
        SymbolicExpr::Constant(Scalar {
            mantissa: 2,
            scale: 0
        })
    );
    assert_eq!(
        SymbolicExpr::parse("1e3").unwrap(),
        SymbolicExpr::Constant(Scalar {
            mantissa: 1000,
            scale: 0
        })
    );
    assert_eq!(
        SymbolicExpr::parse("1.5e-3").unwrap(),
        SymbolicExpr::Constant(Scalar {
            mantissa: 15,
            scale: 4
        })
    );
}

#[test]
fn test_render_round_trip() {
    let half = SymbolicExpr::Constant(Scalar {
        mantissa: 5,
        scale: 1,
    });
    assert_eq!(half.render(), "0.5");
    assert_eq!(SymbolicExpr::parse("0.5").unwrap(), half);
    let e = SymbolicExpr::parse("r^2").unwrap();
    assert_eq!(e.render(), "r^2");
    assert_eq!(SymbolicExpr::parse(&e.render()).unwrap(), e);
    let neg = SymbolicExpr::Constant(Scalar {
        mantissa: -1234,
        scale: 2,
    });
    assert_eq!(neg.render(), "-12.34");
}

#[test]
fn test_render_infix() {
    let e = SymbolicExpr::Add(
        Box::new(SymbolicExpr::Variable("x".to_string())),
        Box::new(SymbolicExpr::Multiply(
            Box::new(SymbolicExpr::Variable("y".to_string())),
            Box::new(SymbolicExpr::Zero),
        )),
    );
    assert_eq!(e.render(), "(x + (y * 0))");
    let f = SymbolicExpr::Function(
        "sin".to_string(),
        vec![SymbolicExpr::Variable("theta".to_string())],
    );
    assert_eq!(f.render(), "sin(theta)");
}

#[test]
fn test_simplify_identities() {
    let x = || SymbolicExpr::Variable("x".to_string());
    let zero = || SymbolicExpr::Zero;
    let one = || SymbolicExpr::One;
    assert_eq!(
        SymbolicExpr::Add(Box::new(x()), Box::new(zero())).simplify(),
        x()
    );
    assert_eq!(
        SymbolicExpr::Multiply(Box::new(x()), Box::new(zero())).simplify(),
        SymbolicExpr::Zero
    );
    assert_eq!(
        SymbolicExpr::Multiply(Box::new(x()), Box::new(one())).simplify(),
        x()
    );
    assert_eq!(
        SymbolicExpr::Divide(Box::new(x()), Box::new(one())).simplify(),
        x()
    );
    assert_eq!(
        SymbolicExpr::Power(Box::new(x()), Box::new(zero())).simplify(),
        SymbolicExpr::One
    );
    assert_eq!(
        SymbolicExpr::Power(Box::new(x()), Box::new(one())).simplify(),
        x()
    );
    assert_eq!(
        SymbolicExpr::Power(Box::new(zero()), Box::new(x())).simplify(),
        SymbolicExpr::Zero
    );
    assert_eq!(
        SymbolicExpr::Power(Box::new(one()), Box::new(x())).simplify(),
        SymbolicExpr::One
    );
}

#[test]
fn test_simplify_is_idempotent_on_samples() {
    let samples = vec![
        SymbolicExpr::parse("r^2").unwrap(),
        SymbolicExpr::Add(
            Box::new(SymbolicExpr::Variable("x".to_string())),
            Box::new(SymbolicExpr::Zero),
        ),
        SymbolicExpr::Subtract(
            Box::new(SymbolicExpr::Zero),
            Box::new(SymbolicExpr::Variable("y".to_string())),
        ),
        SymbolicExpr::Divide(
            Box::new(SymbolicExpr::One),
            Box::new(SymbolicExpr::Constant(Scalar {
                mantissa: 3,
                scale: 0,
            })),
        ),
    ];
    for e in samples {
        let once = e.simplify();
        assert_eq!(once.simplify(), once);
    }
}

#[test]
fn test_exact_constant_arithmetic() {
    // one tenth plus two tenths is exactly three tenths
    let a = Scalar {
        mantissa: 1,
        scale: 1,
    };
    let b = Scalar {
        mantissa: 2,
        scale: 1,
    };
    assert_eq!(
        a.try_add(b),
        Some(Scalar {
            mantissa: 3,
            scale: 1
        })
    );
    // an eighth has the finite decimal form 0.125
    let one = Scalar {
        mantissa: 1,
        scale: 0,
    };
    let eight = Scalar {
        mantissa: 8,
        scale: 0,
    };
    assert_eq!(
        one.try_div(eight),
        Some(Scalar {
            mantissa: 125,
            scale: 3
        })
    );
    // a third has no finite decimal form, so it never folds
    let three = Scalar {
        mantissa: 3,
        scale: 0,
    };
    assert_eq!(one.try_div(three), None);
    let two = Scalar {
        mantissa: 2,
        scale: 0,
    };
    let ten = Scalar {
        mantissa: 10,
        scale: 0,
    };
    assert_eq!(
        two.try_pow(ten),
        Some(Scalar {
            mantissa: 1024,
            scale: 0
        })
    );
    assert_eq!(
        a.try_mul(b),
        Some(Scalar {
            mantissa: 2,
            scale: 2
        })
    );
}

#[test]
fn test_derivative_power_rule() {
    let e = SymbolicExpr::parse("r^2").unwrap();
    let d = e.derivative("r").simplify();
    assert_eq!(d.render(), "(2 * r^1)");
    // a non-constant exponent differentiates to zero, by design
    let v = SymbolicExpr::Power(
        Box::new(SymbolicExpr::Variable("x".to_string())),
        Box::new(SymbolicExpr::Variable("y".to_string())),
    );
    assert_eq!(v.derivative("x"), SymbolicExpr::Zero);
}

#[test]
fn test_derivative_trig_chain_rule() {
    let s = SymbolicExpr::parse("sin(x)").unwrap();
    let d = s.derivative("x").simplify();
    assert_eq!(d.render(), "cos(x)");
    let c = SymbolicExpr::parse("cos(x)").unwrap();
    let dc = c.derivative("x").simplify();
    assert_eq!(dc.render(), "(0 - sin(x))");
    // unknown functions are treated as locally constant
    let f = SymbolicExpr::parse("exp(x)").unwrap();
    assert_eq!(f.derivative("x"), SymbolicExpr::Zero);
}

#[test]
fn test_is_zero() {
    assert!(SymbolicExpr::Zero.is_zero());
    assert!(SymbolicExpr::Constant(Scalar {
        mantissa: 0,
        scale: 0
    })
    .is_zero());
    assert!(!SymbolicExpr::One.is_zero());
    assert!(!SymbolicExpr::Variable("x".to_string()).is_zero());
    // no symbolic cancellation: x - x is not recognized as zero
    let e = SymbolicExpr::Subtract(
        Box::new(SymbolicExpr::Variable("x".to_string())),
        Box::new(SymbolicExpr::Variable("x".to_string())),
    )
    .simplify();
    assert!(!e.is_zero());
}
