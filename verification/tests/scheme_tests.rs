use solution::data::Data;
use solution::data::DataType;
use solution::data::invalid_data;
use solution::data::is_invalid_data;
use solution::data::new_false_sym;
use solution::data::new_true_sym;
use solution::data::new_void_data;
use solution::data::null_sym;
use solution::interpreter::Environment;
use solution::parser::Parser;

fn eval_one(env: &mut Environment, text: &str) -> Data {
    let mut parser = Parser::new();
    parser.load(text);
    let form = parser.next().unwrap();
    env.eval(&form)
}

#[test]
fn test_parser_basics() {
    let mut parser = Parser::new();
    parser.load("       0  \r\n    1   \r   2  \n 3   \t4");
    let mut i: usize = 0;
    while let Some(data) = parser.next() {
        assert_eq!(data, Data::from_string(DataType::Integer, i.to_string()));
        i += 1;
    }
    assert_eq!(i, 5);

    parser.load(" (         define    x 5.0)          ");
    assert_eq!(
        parser.next().unwrap(),
        Data::from_list(vec![
            Data::from_string(DataType::Variable, "define".to_string()),
            Data::from_string(DataType::Variable, "x".to_string()),
            Data::from_string(DataType::Real, "5.0".to_string()),
        ])
    );

    parser.load("");
    assert!(parser.next().is_none());
}

#[test]
fn test_eval_basics() {
    let mut parser = Parser::new();
    let mut environment = Environment::new();
    parser.load(
        "+ car (define x 5.0) x (x) (define (1+ x) (+ x 1)) (1+ 5) (if (<= 2 3) 1.0 0) #t #f (null? '())",
    );

    assert_eq!(
        environment.eval(&parser.next().unwrap()),
        Data::from_string(DataType::Procedure, "+".to_string())
    );
    assert_eq!(
        environment.eval(&parser.next().unwrap()),
        Data::from_string(DataType::Procedure, "car".to_string())
    );
    assert_eq!(
        environment.eval(&parser.next().unwrap()),
        Data::from_string(DataType::Real, "5.0".to_string())
    );
    assert_eq!(
        environment.eval(&parser.next().unwrap()),
        Data::from_string(DataType::Real, "5.0".to_string())
    );
    assert_eq!(environment.eval(&parser.next().unwrap()), invalid_data());
    assert!(!is_invalid_data(&environment.eval(&parser.next().unwrap())));
    assert_eq!(
        environment.eval(&parser.next().unwrap()),
        Data::from_string(DataType::Integer, "6".to_string())
    );
    assert_eq!(
        environment.eval(&parser.next().unwrap()),
        Data::from_string(DataType::Real, "1.0".to_string())
    );
    assert_eq!(environment.eval(&parser.next().unwrap()), new_true_sym());
    assert_eq!(environment.eval(&parser.next().unwrap()), new_false_sym());
    assert_eq!(environment.eval(&parser.next().unwrap()), new_true_sym());
}

#[test]
fn test_null_predicate_on_empty_and_nonempty() {
    let mut env = Environment::new();
    assert_eq!(eval_one(&mut env, "(null? '())"), new_true_sym());
    assert_eq!(eval_one(&mut env, "(null? '(1))"), new_false_sym());
}

#[test]
fn test_car_and_cdr_of_pairs() {
    let mut env = Environment::new();
    assert_eq!(
        eval_one(&mut env, "(car (cons 1 2))"),
        Data::from_string(DataType::Integer, "1".to_string())
    );
    assert_eq!(eval_one(&mut env, "(cdr (cons 1 '()))"), null_sym());
}

#[test]
fn test_define_then_invoke_named_procedure() {
    let mut env = Environment::new();
    let defined = eval_one(&mut env, "(define (sq x) (* x x))");
    assert!(!is_invalid_data(&defined));
    assert_eq!(
        eval_one(&mut env, "(sq 5)"),
        Data::from_string(DataType::Integer, "25".to_string())
    );
}

#[test]
fn test_if_selects_branch_verbatim() {
    let mut env = Environment::new();
    assert_eq!(
        eval_one(&mut env, "(if (<= 2 3) 1.0 0)"),
        Data::from_string(DataType::Real, "1.0".to_string())
    );
    assert_eq!(
        eval_one(&mut env, "(if #f 1 2)"),
        Data::from_string(DataType::Integer, "2".to_string())
    );
    assert_eq!(eval_one(&mut env, "(if #f 1)"), new_void_data());
    assert_eq!(
        eval_one(&mut env, "(if 0 1 2)"),
        Data::from_string(DataType::Integer, "1".to_string())
    );
}

#[test]
fn test_map_elementwise_and_length_mismatch() {
    let mut env = Environment::new();
    let mapped = eval_one(&mut env, "(map + '(1 2 3) '(10 20 30))");
    assert_eq!(mapped.render(0), "'(11 22 33)");

    let clashed = eval_one(&mut env, "(map + '(1 2 3) '(10 20))");
    assert!(is_invalid_data(&clashed));
    let report = env.take_output();
    assert!(report.contains("map: contract violation;"));
    assert!(report.contains("all lists must have same size"));
}

#[test]
fn test_unbound_identifier_reports_undefined() {
    let mut env = Environment::new();
    let missing = eval_one(&mut env, "nowhere-bound");
    assert!(is_invalid_data(&missing));
    let report = env.take_output();
    assert!(report.contains("nowhere-bound: undefined;"));
    assert!(report.contains("cannot reference an identifier before its definition"));
    assert_eq!(
        eval_one(&mut env, "(+ 1 2)"),
        Data::from_string(DataType::Integer, "3".to_string())
    );
}

#[test]
fn test_arity_mismatch_skips_lambda_body() {
    let mut env = Environment::new();
    let defined = eval_one(&mut env, "(define (shout a b) (display a) (+ a b))");
    assert!(!is_invalid_data(&defined));
    let failed = eval_one(&mut env, "(shout 1)");
    assert!(is_invalid_data(&failed));
    let report = env.take_output();
    assert!(report.contains("shout: arity mismatch;"));
    assert!(report.contains("expected: 2"));
    assert!(report.ends_with("given: 1"));
}

#[test]
fn test_display_writes_rendering_to_output() {
    let mut env = Environment::new();
    let shown = eval_one(&mut env, "(display (cons 1 2))");
    assert_eq!(shown, new_void_data());
    assert_eq!(env.take_output(), "'(1 . 2)");
}

#[test]
fn test_arithmetic_policies() {
    let mut env = Environment::new();
    assert_eq!(
        eval_one(&mut env, "(+ 1 2.5)"),
        Data::from_string(DataType::Real, "3.5".to_string())
    );
    assert_eq!(
        eval_one(&mut env, "(- 5)"),
        Data::from_string(DataType::Integer, "-5".to_string())
    );
    assert_eq!(
        eval_one(&mut env, "(- 2.5)"),
        Data::from_string(DataType::Real, "-2.5".to_string())
    );
    assert_eq!(
        eval_one(&mut env, "(/ 4 2)"),
        Data::from_string(DataType::Real, "2".to_string())
    );
    assert_eq!(
        eval_one(&mut env, "(/ 2)"),
        Data::from_string(DataType::Real, "0.5".to_string())
    );
    assert_eq!(
        eval_one(&mut env, "(* 2 3 4)"),
        Data::from_string(DataType::Integer, "24".to_string())
    );
    assert_eq!(
        eval_one(&mut env, "(+ 0.1 0.2)"),
        Data::from_string(DataType::Real, "0.3".to_string())
    );
    assert!(is_invalid_data(&eval_one(&mut env, "(-)")));
    assert!(is_invalid_data(&eval_one(&mut env, "(+ 1 #t)")));
}

#[test]
fn test_division_and_powers() {
    let mut env = Environment::new();
    assert_eq!(
        eval_one(&mut env, "(remainder 7 2)"),
        Data::from_string(DataType::Integer, "1".to_string())
    );
    assert_eq!(
        eval_one(&mut env, "(quotient -7 2)"),
        Data::from_string(DataType::Integer, "-3".to_string())
    );
    assert_eq!(
        eval_one(&mut env, "(remainder -7 2)"),
        Data::from_string(DataType::Integer, "-1".to_string())
    );
    assert_eq!(
        eval_one(&mut env, "(expt 2 10)"),
        Data::from_string(DataType::Real, "1024".to_string())
    );
    assert_eq!(
        eval_one(&mut env, "(expt 2 -2)"),
        Data::from_string(DataType::Real, "0.25".to_string())
    );
    assert!(is_invalid_data(&eval_one(&mut env, "(remainder 7 0)")));
    assert!(is_invalid_data(&eval_one(&mut env, "(remainder 1.5 2)")));
}

#[test]
fn test_comparisons_and_logic() {
    let mut env = Environment::new();
    assert_eq!(eval_one(&mut env, "(< 1 2 3)"), new_true_sym());
    assert_eq!(eval_one(&mut env, "(< 1 3 2)"), new_false_sym());
    assert_eq!(eval_one(&mut env, "(= 2 2 2)"), new_true_sym());
    assert_eq!(eval_one(&mut env, "(= 2 2.0)"), new_true_sym());
    assert_eq!(eval_one(&mut env, "(>= 3)"), new_true_sym());
    assert_eq!(eval_one(&mut env, "(> 2.5 2)"), new_true_sym());
    assert_eq!(eval_one(&mut env, "(and #t 1 2)"), new_true_sym());
    assert_eq!(eval_one(&mut env, "(and #t #f)"), new_false_sym());
    assert_eq!(eval_one(&mut env, "(or #f #f)"), new_false_sym());
    assert_eq!(eval_one(&mut env, "(or #f 3)"), new_true_sym());
    assert_eq!(eval_one(&mut env, "(max 1 2.5 2)"), Data::from_string(DataType::Real, "2.5".to_string()));
    assert_eq!(eval_one(&mut env, "(max 4 2 3)"), Data::from_string(DataType::Integer, "4".to_string()));
}

#[test]
fn test_type_predicates() {
    let mut env = Environment::new();
    assert_eq!(eval_one(&mut env, "(number? 4)"), new_true_sym());
    assert_eq!(eval_one(&mut env, "(number? 'a)"), new_false_sym());
    assert_eq!(eval_one(&mut env, "(integer? 4.0)"), new_true_sym());
    assert_eq!(eval_one(&mut env, "(integer? 4.5)"), new_false_sym());
    assert_eq!(eval_one(&mut env, "(real? 4)"), new_true_sym());
    assert_eq!(eval_one(&mut env, "(string? \"hey\")"), new_true_sym());
    assert_eq!(eval_one(&mut env, "(string? 'hey)"), new_false_sym());
    assert_eq!(eval_one(&mut env, "(pair? (cons 1 2))"), new_true_sym());
    assert_eq!(eval_one(&mut env, "(pair? 1)"), new_false_sym());
    assert_eq!(eval_one(&mut env, "(list? '(1 2))"), new_true_sym());
    assert_eq!(eval_one(&mut env, "(list? (cons 1 2))"), new_false_sym());
}

#[test]
fn test_cond_picks_first_matching_clause() {
    let mut env = Environment::new();
    assert_eq!(
        eval_one(&mut env, "(cond ((= 1 2) 10) ((= 1 1) 20) (else 30))"),
        Data::from_string(DataType::Integer, "20".to_string())
    );
    assert_eq!(
        eval_one(&mut env, "(cond ((= 1 2) 10) (else 30))"),
        Data::from_string(DataType::Integer, "30".to_string())
    );
    assert_eq!(eval_one(&mut env, "(cond ((= 1 2) 10))"), new_void_data());
}

#[test]
fn test_apply_splices_list_arguments() {
    let mut env = Environment::new();
    assert_eq!(
        eval_one(&mut env, "(apply + '(1 2 3))"),
        Data::from_string(DataType::Integer, "6".to_string())
    );
    assert!(is_invalid_data(&eval_one(&mut env, "(apply 1 '(1))")));
}

#[test]
fn test_error_forms() {
    let mut env = Environment::new();
    assert!(is_invalid_data(&eval_one(&mut env, "()")));
    assert!(env.take_output().contains("missing procedure expression"));
    assert!(is_invalid_data(&eval_one(&mut env, "(1 2)")));
    assert!(env.take_output().contains("not a procedure"));
    assert!(is_invalid_data(&eval_one(&mut env, "(define x)")));
    assert!(env.take_output().contains("define: bad syntax;"));
    assert!(is_invalid_data(&eval_one(&mut env, "(car 5)")));
    assert!(env.take_output().contains("car: contract violation;"));
    assert!(is_invalid_data(&eval_one(&mut env, "(if 1)")));
    assert!(env.take_output().contains("if: arity mismatch;"));
}

#[test]
fn test_read_errors_end_the_sequence() {
    let mut parser = Parser::new();
    parser.load("(+ 1 2");
    assert!(parser.next().is_none());
    assert!(parser.take_output().contains("read-syntax: expected a `)` to close `(`"));
    parser.load(")");
    assert!(parser.next().is_none());
    assert!(parser.take_output().contains("read-syntax: unexpected `)`"));
    parser.load("@");
    assert!(parser.next().is_none());
    assert!(parser.take_output().contains("unknown error"));
    parser.load("1 2");
    assert!(parser.next().is_some());
    assert_eq!(parser.take_output(), "");
}

#[test]
fn test_lambda_captures_its_defining_frame() {
    let mut env = Environment::new();
    eval_one(&mut env, "(define (make-adder n) (lambda (x) (+ x n)))");
    eval_one(&mut env, "(define add2 (make-adder 2))");
    eval_one(&mut env, "(define n 100)");
    assert_eq!(
        eval_one(&mut env, "(add2 5)"),
        Data::from_string(DataType::Integer, "7".to_string())
    );
    assert_eq!(
        eval_one(&mut env, "((make-adder 30) 5)"),
        Data::from_string(DataType::Integer, "35".to_string())
    );
    assert_eq!(
        eval_one(&mut env, "(+ n 1)"),
        Data::from_string(DataType::Integer, "101".to_string())
    );
}

#[test]
fn test_apply_on_the_empty_list_calls_with_no_arguments() {
    let mut env = Environment::new();
    eval_one(&mut env, "(define (five) 5)");
    assert_eq!(
        eval_one(&mut env, "(apply five '())"),
        Data::from_string(DataType::Integer, "5".to_string())
    );
    assert_eq!(
        eval_one(&mut env, "(apply + '())"),
        Data::from_string(DataType::Integer, "0".to_string())
    );
}

#[test]
fn test_quotation_freezes_identifiers() {
    let mut env = Environment::new();
    let quoted = eval_one(&mut env, "'abc");
    assert_eq!(quoted.data_type, DataType::Symbol);
    assert_eq!(quoted.render(0), "'abc");
    let nested = eval_one(&mut env, "''x");
    assert_eq!(nested.render(0), "''x");
    let lst = eval_one(&mut env, "'(a (b c))");
    assert_eq!(lst.render(0), "'(a (b c))");
}

#[test]
fn test_render_of_literals_is_idempotent() {
    let mut parser = Parser::new();
    parser.load("42 -17 1.5 -0.25");
    assert_eq!(parser.next().unwrap().render(0), "42");
    assert_eq!(parser.next().unwrap().render(0), "-17");
    assert_eq!(parser.next().unwrap().render(0), "1.5");
    assert_eq!(parser.next().unwrap().render(0), "-0.25");
}

#[test]
fn test_lambda_renders_as_procedure_text() {
    let mut env = Environment::new();
    let anon = eval_one(&mut env, "(lambda (x) x)");
    assert_eq!(anon.render(0), "#<lambda>");
    eval_one(&mut env, "(define (named x) x)");
    let named = eval_one(&mut env, "named");
    assert_eq!(named.render(0), "#<procedure:named>");
    let plus = eval_one(&mut env, "+");
    assert_eq!(plus.render(0), "#<procedure:+>");
}
