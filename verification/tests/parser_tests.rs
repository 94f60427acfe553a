use kaleo::ast::{
    BinaryExprAST, CallExprAST, ExprAST, ForExprAST, FunctionAST, IfExprAST, KaleoGrammar,
    NumberExprAST, Operator, PrototypeAST, TopAST, UnaryExprAST, VarExprAST, VariableExprAST,
    ANONYM_FUNCTION,
};
use kaleo::parser::{GlobalParser, ParseError};

fn number(text: &str) -> ExprAST {
    ExprAST::NumberExpr(NumberExprAST { val: text.to_string() })
}

fn variable(name: &str) -> ExprAST {
    ExprAST::VariableExpr(VariableExprAST { name: name.to_string() })
}

#[test]
fn scan_input_1() {
    let input = r#"
    extern sin(a);
    "#;
    let ast = GlobalParser::default().parse(input).unwrap();
    let result = KaleoGrammar(vec![TopAST::Prototype(PrototypeAST {
        name: String::from("sin"),
        args: vec![String::from("a")],
        operator: None,
    })]);
    assert_eq!(ast, result);
}

#[test]
fn scan_input_2() {
    let input = r#"
    def foo(x y) x+foo(y, 4.0);
    "#;
    let ast = GlobalParser::default().parse(input).unwrap();
    let result = KaleoGrammar(vec![TopAST::Function(FunctionAST {
        proto: PrototypeAST {
            name: "foo".to_string(),
            args: vec!["x".to_string(), "y".to_string()],
            operator: None,
        },
        body: ExprAST::BinaryExpr(BinaryExprAST {
            op: '+',
            lhs: Box::new(variable("x")),
            rhs: Box::new(ExprAST::CallExpr(CallExprAST {
                callee: "foo".to_string(),
                args: vec![variable("y"), number("4.0")],
            })),
        }),
    })]);
    assert_eq!(ast, result);
}

#[test]
fn scan_input_3() {
    let input = r#"
    def foo(x y) x+y y;
    "#;
    let ast = GlobalParser::default().parse(input).unwrap();
    let result = KaleoGrammar(vec![
        TopAST::Function(FunctionAST {
            proto: PrototypeAST {
                name: "foo".to_string(),
                args: vec!["x".to_string(), "y".to_string()],
                operator: None,
            },
            body: ExprAST::BinaryExpr(BinaryExprAST {
                op: '+',
                lhs: Box::new(variable("x")),
                rhs: Box::new(variable("y")),
            }),
        }),
        TopAST::Function(FunctionAST {
            proto: PrototypeAST {
                name: ANONYM_FUNCTION.to_string(),
                args: vec![],
                operator: None,
            },
            body: variable("y"),
        }),
    ]);
    assert_eq!(ast, result);
}

#[test]
fn scan_bad_input_1() {
    let input = r#"
    def foo(x y) x+y );
    "#;
    let ast = GlobalParser::default().parse(input);
    assert!(ast.is_err());
}

#[test]
fn precedence_groups_tighter_operator_first() {
    let ast = GlobalParser::default().parse("1+2*3").unwrap();
    let result = KaleoGrammar(vec![TopAST::Function(FunctionAST {
        proto: PrototypeAST {
            name: ANONYM_FUNCTION.to_string(),
            args: vec![],
            operator: None,
        },
        body: ExprAST::BinaryExpr(BinaryExprAST {
            op: '+',
            lhs: Box::new(number("1")),
            rhs: Box::new(ExprAST::BinaryExpr(BinaryExprAST {
                op: '*',
                lhs: Box::new(number("2")),
                rhs: Box::new(number("3")),
            })),
        }),
    })]);
    assert_eq!(ast, result);
}

#[test]
fn equal_precedence_groups_left() {
    let ast = GlobalParser::default().parse("1-2+3").unwrap();
    let result = KaleoGrammar(vec![TopAST::Function(FunctionAST {
        proto: PrototypeAST {
            name: ANONYM_FUNCTION.to_string(),
            args: vec![],
            operator: None,
        },
        body: ExprAST::BinaryExpr(BinaryExprAST {
            op: '+',
            lhs: Box::new(ExprAST::BinaryExpr(BinaryExprAST {
                op: '-',
                lhs: Box::new(number("1")),
                rhs: Box::new(number("2")),
            })),
            rhs: Box::new(number("3")),
        }),
    })]);
    assert_eq!(ast, result);
}

#[test]
fn parens_override_precedence() {
    let ast = GlobalParser::default().parse("(1+2)*3").unwrap();
    let result = KaleoGrammar(vec![TopAST::Function(FunctionAST {
        proto: PrototypeAST {
            name: ANONYM_FUNCTION.to_string(),
            args: vec![],
            operator: None,
        },
        body: ExprAST::BinaryExpr(BinaryExprAST {
            op: '*',
            lhs: Box::new(ExprAST::BinaryExpr(BinaryExprAST {
                op: '+',
                lhs: Box::new(number("1")),
                rhs: Box::new(number("2")),
            })),
            rhs: Box::new(number("3")),
        }),
    })]);
    assert_eq!(ast, result);
}

#[test]
fn binary_overload_registers_for_later_parses() {
    let mut session = GlobalParser::default();
    session.parse("def binary> 10 (a b) b < a;").unwrap();
    let ast = session.parse("1 > 2").unwrap();
    let result = KaleoGrammar(vec![TopAST::Function(FunctionAST {
        proto: PrototypeAST {
            name: ANONYM_FUNCTION.to_string(),
            args: vec![],
            operator: None,
        },
        body: ExprAST::BinaryExpr(BinaryExprAST {
            op: '>',
            lhs: Box::new(number("1")),
            rhs: Box::new(number("2")),
        }),
    })]);
    assert_eq!(ast, result);
}

#[test]
fn binary_overload_carries_descriptor() {
    let ast = GlobalParser::default()
        .parse("def binary> 10 (a b) b < a;")
        .unwrap();
    match &ast.0[0] {
        TopAST::Function(f) => {
            assert_eq!(f.proto.name, "binary>".to_string());
            assert_eq!(
                f.proto.operator,
                Some(Operator::Binary { op_name: '>', precedence: 10 })
            );
            assert!(f.proto.is_binary_op());
        }
        other => panic!("expected a function item, got {other:?}"),
    }
}

#[test]
fn unregistered_operator_ends_expression_without_error() {
    let ast = GlobalParser::default().parse("1 $ 2").unwrap();
    let result = KaleoGrammar(vec![
        TopAST::Function(FunctionAST {
            proto: PrototypeAST {
                name: ANONYM_FUNCTION.to_string(),
                args: vec![],
                operator: None,
            },
            body: number("1"),
        }),
        TopAST::Function(FunctionAST {
            proto: PrototypeAST {
                name: ANONYM_FUNCTION.to_string(),
                args: vec![],
                operator: None,
            },
            body: ExprAST::UnaryExpr(UnaryExprAST {
                opcode: '$',
                operand: Box::new(number("2")),
            }),
        }),
    ]);
    assert_eq!(ast, result);
}

#[test]
fn unary_overload_definition() {
    let ast = GlobalParser::default().parse("def unary!(v) 0-v;").unwrap();
    match &ast.0[0] {
        TopAST::Function(f) => {
            assert_eq!(f.proto.name, "unary!".to_string());
            assert_eq!(f.proto.args, vec!["v".to_string()]);
            assert_eq!(f.proto.operator, Some(Operator::Unary));
            assert!(!f.proto.is_binary_op());
        }
        other => panic!("expected a function item, got {other:?}"),
    }
}

#[test]
fn unary_prefix_operator_in_expression() {
    let ast = GlobalParser::default().parse("!1").unwrap();
    let result = KaleoGrammar(vec![TopAST::Function(FunctionAST {
        proto: PrototypeAST {
            name: ANONYM_FUNCTION.to_string(),
            args: vec![],
            operator: None,
        },
        body: ExprAST::UnaryExpr(UnaryExprAST {
            opcode: '!',
            operand: Box::new(number("1")),
        }),
    })]);
    assert_eq!(ast, result);
}

#[test]
fn precedence_literal_out_of_range_is_rejected() {
    let too_high = GlobalParser::default().parse("def binary@ 200 (a b) a;");
    assert_eq!(too_high, Err(ParseError::InvalidPrecedence));
    let too_low = GlobalParser::default().parse("def binary@ 0.5 (a b) a;");
    assert_eq!(too_low, Err(ParseError::InvalidPrecedence));
    let just_fits = GlobalParser::default().parse("def binary@ 100.00 (a b) a;");
    assert!(just_fits.is_ok());
}

#[test]
fn operator_overload_arity_is_checked() {
    let binary_with_one = GlobalParser::default().parse("def binary@ 10 (a) a;");
    assert_eq!(binary_with_one, Err(ParseError::WrongOperatorArity));
    let unary_with_two = GlobalParser::default().parse("def unary!(a b) a;");
    assert_eq!(unary_with_two, Err(ParseError::WrongOperatorArity));
}

#[test]
fn missing_then_is_a_syntax_error() {
    let ast = GlobalParser::default().parse("def f(x) if x 1 else 2;");
    assert!(ast.is_err());
}

#[test]
fn conditional_expression() {
    let ast = GlobalParser::default()
        .parse("def f(x) if x then 1 else 2;")
        .unwrap();
    match &ast.0[0] {
        TopAST::Function(f) => {
            assert_eq!(
                f.body,
                ExprAST::IfExpr(IfExprAST {
                    condition: Box::new(variable("x")),
                    then_block: Box::new(number("1")),
                    else_block: Box::new(number("2")),
                })
            );
        }
        other => panic!("expected a function item, got {other:?}"),
    }
}

#[test]
fn loop_with_and_without_step() {
    let with_step = GlobalParser::default()
        .parse("def f(n) for i = 1, n, 2 in i;")
        .unwrap();
    match &with_step.0[0] {
        TopAST::Function(f) => {
            assert_eq!(
                f.body,
                ExprAST::ForExpr(ForExprAST {
                    var_name: "i".to_string(),
                    var_start: Box::new(number("1")),
                    var_end: Box::new(variable("n")),
                    step: Some(Box::new(number("2"))),
                    body: Box::new(variable("i")),
                })
            );
        }
        other => panic!("expected a function item, got {other:?}"),
    }
    let without_step = GlobalParser::default()
        .parse("def f(n) for i = 1, n in i;")
        .unwrap();
    match &without_step.0[0] {
        TopAST::Function(f) => {
            assert_eq!(
                f.body,
                ExprAST::ForExpr(ForExprAST {
                    var_name: "i".to_string(),
                    var_start: Box::new(number("1")),
                    var_end: Box::new(variable("n")),
                    step: None,
                    body: Box::new(variable("i")),
                })
            );
        }
        other => panic!("expected a function item, got {other:?}"),
    }
}

#[test]
fn local_bindings_expression() {
    let ast = GlobalParser::default()
        .parse("def f(x) var a = 1, b in a+b;")
        .unwrap();
    match &ast.0[0] {
        TopAST::Function(f) => {
            assert_eq!(
                f.body,
                ExprAST::VarExpr(VarExprAST {
                    var_names: vec![
                        ("a".to_string(), Some(number("1"))),
                        ("b".to_string(), None),
                    ],
                    body: Box::new(ExprAST::BinaryExpr(BinaryExprAST {
                        op: '+',
                        lhs: Box::new(variable("a")),
                        rhs: Box::new(variable("b")),
                    })),
                })
            );
        }
        other => panic!("expected a function item, got {other:?}"),
    }
}

#[test]
fn call_with_empty_argument_list() {
    let ast = GlobalParser::default().parse("foo()").unwrap();
    let result = KaleoGrammar(vec![TopAST::Function(FunctionAST {
        proto: PrototypeAST {
            name: ANONYM_FUNCTION.to_string(),
            args: vec![],
            operator: None,
        },
        body: ExprAST::CallExpr(CallExprAST {
            callee: "foo".to_string(),
            args: vec![],
        }),
    })]);
    assert_eq!(ast, result);
}

#[test]
fn malformed_number_fails_the_parse() {
    let ast = GlobalParser::default().parse("def f(x) x; 1.2.3");
    assert_eq!(
        ast,
        Err(ParseError::Lexical(kaleo::lexer::LexError::MalformedNumber(
            "1.2.3".to_string()
        )))
    );
}

#[test]
fn expression_where_none_can_start_is_rejected() {
    let ast = GlobalParser::default().parse("def f(x) then;");
    assert!(ast.is_err());
    let missing_paren = GlobalParser::default().parse("def f(x) (x;");
    assert!(missing_paren.is_err());
}

#[test]
fn anonymous_wrapper_is_recognised() {
    let ast = GlobalParser::default().parse("def foo(x) x; 42").unwrap();
    match (&ast.0[0], &ast.0[1]) {
        (TopAST::Function(named), TopAST::Function(anon)) => {
            assert!(!named.is_top_function());
            assert!(anon.is_top_function());
        }
        other => panic!("expected two function items, got {other:?}"),
    }
}

#[test]
fn synthesized_overload_names() {
    assert_eq!(PrototypeAST::gen_binary_func_name('>'), "binary>".to_string());
    assert_eq!(PrototypeAST::gen_unary_func_name('!'), "unary!".to_string());
}
