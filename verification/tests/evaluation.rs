use awesome_calc::ast::{Ast, Op};
use awesome_calc::lexer::Lexer;
use awesome_calc::parser::Parser;

fn eval(ast: &Ast) -> f64 {
    match ast {
        Ast::Number(spelling) => spelling.parse::<f64>().unwrap(),
        Ast::UnaryExpr { op, rhs } => {
            let e = eval(rhs);
            match op {
                Op::Add => e,
                Op::Sub => -e,
                _ => unreachable!(),
            }
        }
        Ast::BinaryExpr { lhs, op, rhs } => {
            let l = eval(lhs);
            let r = eval(rhs);
            match op {
                Op::Add => l + r,
                Op::Sub => l - r,
                Op::Mul => l * r,
                Op::Div => l / r,
            }
        }
    }
}

fn value_of(line: &str) -> f64 {
    let mut parser = Parser::new(Lexer::new(line.to_string()));
    eval(&parser.parse().unwrap())
}

#[test]
fn test1() {
    let expected = 3.0;
    let actual = value_of("3");

    assert_eq!(expected, actual);
}

#[test]
fn test2() {
    let expected = -7.0;
    let actual = value_of("-7");

    assert_eq!(expected, actual);
}

#[test]
fn test3() {
    let expected = 42.0;
    let actual = value_of("+42");

    assert_eq!(expected, actual);
}

#[test]
fn test4() {
    let expected = 3.0;
    let actual = value_of("1 + 2");

    assert_eq!(expected, actual);
}

#[test]
fn test5() {
    let expected = 5.0;
    let actual = value_of("10 - 5");

    assert_eq!(expected, actual);
}

#[test]
fn test6() {
    let expected = 2.0;
    let actual = value_of("5 + -3");

    assert_eq!(expected, actual);
}

#[test]
fn test7() {
    let expected = 8.0;
    let actual = value_of("5 - -3");

    assert_eq!(expected, actual);
}

#[test]
fn test8() {
    let expected = 6.0;
    let actual = value_of("2 * 3");

    assert_eq!(expected, actual);
}

#[test]
fn test9() {
    let expected = 4.0;
    let actual = value_of("8 / 2");

    assert_eq!(expected, actual);
}

#[test]
fn test10() {
    let expected = -24.0;
    let actual = value_of("-6 * 4");

    assert_eq!(expected, actual);
}

#[test]
fn test11() {
    let expected = 2.0;
    let actual = value_of("-8 / -4");

    assert_eq!(expected, actual);
}

#[test]
fn test12() {
    let expected = 14.0;
    let actual = value_of("2 + 3 * 4");

    assert_eq!(expected, actual);
}

#[test]
fn test13() {
    let expected = 0.0;
    let actual = value_of("10 - 2 * 5");

    assert_eq!(expected, actual);
}

#[test]
fn test14() {
    let expected = 4.0;
    let actual = value_of("8 / 4 + 2");

    assert_eq!(expected, actual);
}

#[test]
fn test15() {
    let expected = 8.0;
    let actual = value_of("6 + 4 / 2");

    assert_eq!(expected, actual);
}

#[test]
fn test16() {
    let expected = 7.0;
    let actual = value_of("5 * 2 - 3");

    assert_eq!(expected, actual);
}

#[test]
fn test17() {
    let expected = 20.0;
    let actual = value_of("(2 + 3) * 4 ");

    assert_eq!(expected, actual);
}

#[test]
fn test18() {
    let expected = 5.0;
    let actual = value_of("10 / (5 - 3)");

    assert_eq!(expected, actual);
}

#[test]
fn test19() {
    let expected = 20.0;
    let actual = value_of("(8 + 2) * (3 - 1)");

    assert_eq!(expected, actual);
}

#[test]
fn test20() {
    let expected = 16.0;
    let actual = value_of("(6 - 2) * (3 + 1)");

    assert_eq!(expected, actual);
}

#[test]
fn test21() {
    let expected = 20.0;
    let actual = value_of("((2 + 3) * (4 - 1)) + 5 ");

    assert_eq!(expected, actual);
}

#[test]
fn test22() {
    let expected = 1.0;
    let actual = value_of("10 - (3 * (2 + 1)) ");

    assert_eq!(expected, actual);
}

#[test]
fn test23() {
    let expected = 16.0;
    let actual = value_of("(4 / (1 + 1)) * (3 + 5)");

    assert_eq!(expected, actual);
}

#[test]
fn test24() {
    let expected = 15.0;
    let actual = value_of("3 * (2 + (4 - 1)) ");

    assert_eq!(expected, actual);
}

#[test]
fn test25() {
    let expected = -2.0;
    let actual = value_of("-(-3 + 5) ");

    assert_eq!(expected, actual);
}

#[test]
fn test26() {
    let expected = -1.0;
    let actual = value_of("-(3 + -2) ");

    assert_eq!(expected, actual);
}

#[test]
fn test27() {
    let expected = -1.0;
    let actual = value_of("+(3 + -4)");

    assert_eq!(expected, actual);
}

#[test]
fn test28() {
    let expected = -20.0;
    let actual = value_of("-((2 + 3) * 4)");

    assert_eq!(expected, actual);
}

#[test]
fn test29() {
    let expected = 5.0;
    let actual = value_of("+5");

    assert_eq!(expected, actual);
}

#[test]
fn test30() {
    let expected = -5.0;
    let actual = value_of("-5");

    assert_eq!(expected, actual);
}

#[test]
fn test31() {
    let expected = 5.0;
    let actual = value_of("-(-5)");

    assert_eq!(expected, actual);
}

#[test]
fn test32() {
    let expected = -5.0;
    let actual = value_of("+(-5)");

    assert_eq!(expected, actual);
}

#[test]
fn test33() {
    let expected = 1.0;
    let actual = value_of("3 + (4 * 2) / (1 - 5)");

    assert_eq!(expected, actual);
}

#[test]
fn test34() {
    let expected = -10.0;
    let actual = value_of("(8 - 3) * (-2) ");

    assert_eq!(expected, actual);
}

#[test]
fn test35() {
    let expected = 3.0;
    let actual = value_of("(10 - (3 * 2 + 1))");

    assert_eq!(expected, actual);
}

#[test]
fn test36() {
    let expected = 14.0;
    let actual = value_of("6 + (8 - (2 * 3)) * 4 ");

    assert_eq!(expected, actual);
}

#[test]
fn division_by_zero_gives_infinity_or_nan() {
    assert_eq!(value_of("1 / 0"), f64::INFINITY);
    assert_eq!(value_of("-1 / 0"), f64::NEG_INFINITY);
    assert!(value_of("0 / 0").is_nan());
}

#[test]
fn numerals_with_a_point_have_their_decimal_value() {
    assert_eq!(value_of("1.5 + 2.25"), 3.75);
    assert_eq!(value_of("3. * 2"), 6.0);
    assert_eq!(value_of("007.50"), 7.5);
}
