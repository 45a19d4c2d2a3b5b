use calculator::{Expr, Rpn};

fn operation(a: f64, b: f64, op: char) -> Option<f64> {
    match op {
        '+' => Some(b + a),
        '-' => Some(b - a),
        '*' => Some(b * a),
        '/' => Some(b / a),
        '^' => Some(b.powf(a)),
        _ => None,
    }
}

fn value(e: &Expr) -> Option<f64> {
    match e {
        Expr::Num(s) => s.parse::<f64>().ok(),
        Expr::Bin(op, l, r) => operation(value(r)?, value(l)?, *op),
    }
}

fn solve(calc: &Rpn, equation: String) -> Option<f64> {
    value(&calc.parse_expression(equation)?)
}

fn strings(v: &[&str]) -> Vec<String> {
    v.iter().map(|s| s.to_string()).collect()
}

fn num(s: &str) -> Box<Expr> {
    Box::new(Expr::Num(s.to_string()))
}

#[test]
fn convert_to_rpn_basic_1() {
    let calc = Rpn::new();
    let s = vec![
        "3".to_string(),
        "^".to_string(),
        "4".to_string(),
        "+".to_string(),
        "(".to_string(),
        "11".to_string(),
        "-".to_string(),
        "(".to_string(),
        "3".to_string(),
        "*".to_string(),
        "2".to_string(),
        ")".to_string(),
        ")".to_string(),
        "/".to_string(),
        "2".to_string(),
    ];
    assert_eq!(
        calc.convert_to_rpn(s),
        vec!["3", "4", "^", "11", "3", "2", "*", "-", "2", "/", "+"]
    );
}

#[test]
fn evaluate_rpn_basic_1() {
    let calc = Rpn::new();
    let rpn = vec![
        String::from("5"),
        String::from("3"),
        String::from("+"),
        String::from("6"),
        String::from("2"),
        String::from("/"),
        String::from("*"),
        String::from("3"),
        String::from("5"),
        String::from("*"),
        String::from("+"),
    ];
    assert_eq!(calc.evaluate_rpn(&rpn).and_then(|e| value(&e)), Some(39.0));
}

#[test]
#[should_panic]
fn unsopported_operation() {
    let calc = Rpn::new();
    let equation = String::from("( 2 % 2 ) / 3 * 0.33");
    assert_eq!(solve(&calc, equation), Some(0.44));
}

#[test]
fn wrong_brackets() {
    let calc = Rpn::new();
    let equation = String::from("( 2 % 2 )) / 3 * 0.33");
    assert_eq!(solve(&calc, equation), None);
}

#[test]
fn solve_basic_1() {
    let calc = Rpn::new();
    let equation = String::from("( 2 + 2 ) / 3 * 0.33");
    assert_eq!(solve(&calc, equation), Some(0.44));
}

#[test]
fn solve_basic_2() {
    let calc = Rpn::new();
    let equation = String::from("2 ^ 3");
    assert_eq!(solve(&calc, equation), Some(8.0));
}

#[test]
fn solve_basic_3() {
    let calc = Rpn::new();
    let equation = String::from("3 / 2");
    assert_eq!(solve(&calc, equation), Some(1.5));
}

#[test]
fn solve_basic_4() {
    let calc = Rpn::new();
    let equation = String::from("3 - 2");
    assert_eq!(solve(&calc, equation), Some(1.0));
}

#[test]
fn solve_basic_6() {
    let calc = Rpn::new();
    let equation = String::from("(2)+(-2)");
    assert_eq!(solve(&calc, equation), Some(0.0));
}

#[test]
fn solve_basic_7() {
    let calc = Rpn::new();
    let equation = String::from("2 + -2");
    assert_eq!(solve(&calc, equation), Some(0.0));
}

#[test]
fn solve_basic_8() {
    let calc = Rpn::new();
    let equation = String::from("-2 + 2");
    assert_eq!(solve(&calc, equation), Some(0.0));
}

#[test]
fn solve_basic_9() {
    let calc = Rpn::new();
    let equation = String::from("2 * (-2)");
    assert_eq!(solve(&calc, equation), Some(-4.0));
}

#[test]
fn solve_basic_10() {
    let calc = Rpn::new();
    let equation = String::from("2 * (-(-2))");
    assert_eq!(solve(&calc, equation), Some(4.0));
}

#[test]
fn solve_basic_11() {
    let calc = Rpn::new();
    let equation = String::from("-2 * (-(-2))");
    assert_eq!(solve(&calc, equation), Some(-4.0));
}

#[test]
fn wrong_equation_two_operation_next_to_each_other() {
    let calc = Rpn::new();
    let equation = String::from("2 *-(-(-2))");
    assert_eq!(solve(&calc, equation), None);
}

#[test]
fn split_basic_1() {
    let calc = Rpn::new();
    let equation = String::from("3 / 2");
    calc.split(equation);
}

#[test]
fn split_tokens_of_division() {
    let calc = Rpn::new();
    assert_eq!(calc.split(String::from("3 / 2")), Some(strings(&["3", "/", "2"])));
}

#[test]
fn split_rewrites_leading_minus() {
    let calc = Rpn::new();
    assert_eq!(
        calc.split(String::from("-2 + 2")),
        Some(strings(&["0", "-", "2", "+", "2"]))
    );
}

#[test]
fn split_nested_minus_chain() {
    let calc = Rpn::new();
    assert_eq!(
        calc.split(String::from("2 * (-(-2))")),
        Some(strings(&["2", "*", "(", "0", "-", "(", "0", "-", "2", ")", ")"]))
    );
}

#[test]
fn split_merges_digits_across_spaces() {
    let calc = Rpn::new();
    assert_eq!(calc.split(String::from("1 2.5+x3")), Some(strings(&["12.5", "+", "3"])));
}

#[test]
fn split_rejects_adjacent_operators() {
    let calc = Rpn::new();
    assert_eq!(calc.split(String::from("2 *-2")), None);
    assert_eq!(calc.split(String::from("2 ++ 2")), None);
}

#[test]
fn split_space_between_operators_is_accepted() {
    let calc = Rpn::new();
    assert_eq!(
        calc.split(String::from("2 * -2")),
        Some(strings(&["2", "*", "0", "-", "2"]))
    );
    assert_eq!(solve(&calc, String::from("2 * -2")), Some(-2.0));
}

#[test]
fn split_empty_text() {
    let calc = Rpn::new();
    assert_eq!(calc.split(String::new()), Some(Vec::new()));
    assert_eq!(solve(&calc, String::new()), None);
}

#[test]
fn check_brackets_cases() {
    assert!(Rpn::check_brackets(&String::from("(1+(2))")));
    assert!(Rpn::check_brackets(&String::from("")));
    assert!(!Rpn::check_brackets(&String::from(")(")));
    assert!(!Rpn::check_brackets(&String::from("((1)")));
    assert!(!Rpn::check_brackets(&String::from("(1))")));
}

#[test]
fn get_priority_table() {
    let calc = Rpn::new();
    assert_eq!(calc.get_priority("^"), 3);
    assert_eq!(calc.get_priority("*"), 2);
    assert_eq!(calc.get_priority("/"), 2);
    assert_eq!(calc.get_priority("+"), 1);
    assert_eq!(calc.get_priority("-"), 1);
    assert_eq!(calc.get_priority("("), 0);
    assert_eq!(calc.get_priority("12"), 0);
    assert_eq!(calc.get_priority("--"), 0);
}

#[test]
fn flush_buffer_moves_pending_text() {
    let mut buffer = String::from("12");
    let mut result = strings(&["("]);
    Rpn::flush_buffer(&mut buffer, &mut result);
    assert_eq!(buffer, "");
    assert_eq!(result, strings(&["(", "12"]));
    Rpn::flush_buffer(&mut buffer, &mut result);
    assert_eq!(result, strings(&["(", "12"]));
}

#[test]
fn convert_power_is_left_associative() {
    let calc = Rpn::new();
    assert_eq!(
        calc.convert_to_rpn(strings(&["2", "^", "3", "^", "2"])),
        strings(&["2", "3", "^", "2", "^"])
    );
    assert_eq!(solve(&calc, String::from("2^3^2")), Some(64.0));
}

#[test]
fn convert_drops_unknown_tokens() {
    let calc = Rpn::new();
    assert_eq!(
        calc.convert_to_rpn(strings(&["1", "%", "2", "1.2.3", "+"])),
        strings(&["1", "2", "+"])
    );
}

#[test]
fn evaluate_rpn_builds_tree() {
    let calc = Rpn::new();
    assert_eq!(
        calc.evaluate_rpn(&strings(&["2", "3", "^"])),
        Some(Expr::Bin('^', num("2"), num("3")))
    );
    assert_eq!(
        calc.evaluate_rpn(&strings(&["7", "2", "-"])),
        Some(Expr::Bin('-', num("7"), num("2")))
    );
}

#[test]
fn evaluate_rpn_missing_operand() {
    let calc = Rpn::new();
    assert_eq!(calc.evaluate_rpn(&strings(&["1", "+"])), None);
}

#[test]
fn evaluate_rpn_leftover_values() {
    let calc = Rpn::new();
    assert_eq!(calc.evaluate_rpn(&strings(&["1", "2"])), None);
    assert_eq!(calc.evaluate_rpn(&strings(&[])), None);
}

#[test]
fn evaluate_rpn_stray_token() {
    let calc = Rpn::new();
    assert_eq!(calc.evaluate_rpn(&strings(&["1", "("])), None);
    assert_eq!(calc.evaluate_rpn(&strings(&["1.2.3"])), None);
}

#[test]
fn parse_expression_scenario_tree() {
    let calc = Rpn::new();
    assert_eq!(
        calc.parse_expression(String::from("3 - 2")),
        Some(Expr::Bin('-', num("3"), num("2")))
    );
}

#[test]
fn parse_expression_same_text_twice() {
    let calc = Rpn::new();
    let text = "3 ^ 4 + ( 11 - ( 3 * 2 ) ) / 2";
    let first = calc.parse_expression(String::from(text));
    let second = calc.parse_expression(String::from(text));
    assert!(first.is_some());
    assert_eq!(first, second);
}

#[test]
fn parse_expression_unbalanced_is_none() {
    let calc = Rpn::new();
    assert_eq!(calc.parse_expression(String::from("2)")), None);
    assert_eq!(calc.parse_expression(String::from("(2")), None);
}

#[test]
fn pipeline_agrees_with_stages() {
    let calc = Rpn::new();
    let text = "3 ^ 4 + ( 11 - ( 3 * 2 ) ) / 2";
    let tokens = calc.split(String::from(text)).unwrap();
    let postfix = calc.convert_to_rpn(tokens);
    assert_eq!(postfix, strings(&["3", "4", "^", "11", "3", "2", "*", "-", "2", "/", "+"]));
    assert_eq!(calc.evaluate_rpn(&postfix), calc.parse_expression(String::from(text)));
    assert_eq!(solve(&calc, String::from(text)), Some(83.5));
}

#[test]
fn fully_parenthesized_expression() {
    let calc = Rpn::new();
    assert_eq!(
        calc.parse_expression(String::from("((1.5*2)^(3-1))")),
        Some(Expr::Bin(
            '^',
            Box::new(Expr::Bin('*', num("1.5"), num("2"))),
            Box::new(Expr::Bin('-', num("3"), num("1")))
        ))
    );
    assert_eq!(solve(&calc, String::from("((1.5*2)^(3-1))")), Some(9.0));
}

#[test]
fn minus_after_bracket_is_rewritten() {
    let calc = Rpn::new();
    assert_eq!(calc.parse_expression(String::from("((1+2)-3)")), None);
}

#[test]
fn division_by_zero_is_infinite() {
    let calc = Rpn::new();
    assert_eq!(solve(&calc, String::from("1/0")), Some(f64::INFINITY));
}
