use kaleidoscope::ast::{Expr, Program, Prototype, Statement};
use kaleidoscope::diagnostics::{Category, Expected, Failure, Parsed, Rule};
use kaleidoscope::lexical::{at_def, at_extern, byte_is, class_at, class_has, skip_run, Class};
use kaleidoscope::number::{literal_end, number, number_from};
use kaleidoscope::parser::{
    arguments, call, expr, external, function, identifier, list, parse, prototype, statement,
    statement_separator, statements, variable, ws, ws1,
};

fn number_of(value: f64) -> Expr {
    Expr::Number(value.to_bits())
}

fn variable_of(name: &str) -> Expr {
    Expr::Variable(name.to_string())
}

fn call_of(name: &str, arguments: Vec<Expr>) -> Expr {
    Expr::Call(name.to_string(), arguments)
}

fn prototype_of(name: &str, parameters: &[&str]) -> Prototype {
    Prototype(name.to_string(), parameters.iter().map(|p| p.to_string()).collect())
}

fn failure(offset: usize, rules: &[Rule], expected: Expected) -> Failure {
    Failure { offset, rules: rules.to_vec(), expected }
}

fn soft<T>(offset: usize, rules: &[Rule], expected: Expected) -> Parsed<T> {
    Parsed::Soft(failure(offset, rules, expected))
}

fn hard<T>(offset: usize, rules: &[Rule], expected: Expected) -> Parsed<T> {
    Parsed::Hard(failure(offset, rules, expected))
}

#[test]
fn classes_hold_their_bytes() {
    assert!(class_has(Class::Whitespace, b' '));
    assert!(class_has(Class::Whitespace, b'\n'));
    assert!(!class_has(Class::Whitespace, b'\t'));
    assert!(!class_has(Class::Whitespace, b';'));
    assert!(class_has(Class::Separator, b';'));
    assert!(class_has(Class::Separator, b'\n'));
    assert!(!class_has(Class::Separator, b' '));
    for b in 0u8..=255 {
        assert_eq!(class_has(Class::Letter, b), b.is_ascii_alphabetic());
        assert_eq!(class_has(Class::Digit, b), b.is_ascii_digit());
        assert_eq!(class_has(Class::Word, b), b.is_ascii_alphanumeric() || b == b'_');
    }
}

#[test]
fn bytes_and_classes_are_read_at_an_offset() {
    assert!(byte_is("a(b", 1, b'('));
    assert!(!byte_is("a(b", 0, b'('));
    assert!(!byte_is("a(b", 3, b'('));
    assert!(class_at("a1", 1, Class::Digit));
    assert!(!class_at("a1", 0, Class::Digit));
    assert!(!class_at("a1", 2, Class::Digit));
}

#[test]
fn runs_stop_at_the_first_byte_outside_the_class() {
    assert_eq!(skip_run("  \n x", 0, Class::Whitespace), 4);
    assert_eq!(skip_run("  \n x", 4, Class::Whitespace), 4);
    assert_eq!(skip_run(";;\n;a", 0, Class::Separator), 4);
    assert_eq!(skip_run("123", 1, Class::Digit), 3);
    assert_eq!(skip_run("123", 7, Class::Digit), 7);
    assert_eq!(skip_run("", 0, Class::Word), 0);
}

#[test]
fn keywords_are_seen_as_prefixes() {
    assert!(at_def("def", 0));
    assert!(at_def("x define", 2));
    assert!(!at_def("de", 0));
    assert!(!at_def("Def", 0));
    assert!(!at_def("def", 1));
    assert!(at_extern("extern", 0));
    assert!(at_extern("an external", 3));
    assert!(!at_extern("exter", 0));
    assert!(!at_extern("extern", 9));
}

#[test]
fn whitespace_rules() {
    assert_eq!(ws(" \n a", 0), 3);
    assert_eq!(ws("a", 0), 0);
    assert_eq!(ws("a", 5), 5);
    assert_eq!(ws1(" \n a", 0), Some(3));
    assert_eq!(ws1("a ", 0), None);
    assert_eq!(ws1("\ta", 0), None);
}

#[test]
fn separator_runs_are_greedy() {
    assert_eq!(statement_separator(";;\nfoo", 0), Some(3));
    assert_eq!(statement_separator("\n", 0), Some(1));
    assert_eq!(statement_separator(" ;", 0), None);
    assert_eq!(statement_separator("", 0), None);
}

#[test]
fn list_items_start_behind_whitespace_and_commas() {
    assert_eq!(list("(  a", 1, true), Some(3));
    assert_eq!(list("(a", 1, true), Some(1));
    assert_eq!(list("a  ,  b", 1, false), Some(6));
    assert_eq!(list("a,b", 1, false), Some(2));
    assert_eq!(list("a  b", 1, false), None);
    assert_eq!(list("a)", 1, false), None);
}

#[test]
fn identifier_takes_the_whole_token_and_nothing_else() {
    assert_eq!(identifier("foo(bar", 0), Parsed::Matched("foo".to_string(), 3));
    assert_eq!(identifier("a b1_ c", 2), Parsed::Matched("b1_".to_string(), 5));
    assert_eq!(identifier("_a", 0), Parsed::Matched("_a".to_string(), 2));
    assert_eq!(identifier("x", 0), Parsed::Matched("x".to_string(), 1));
    assert_eq!(identifier("a\u{e9}", 0), Parsed::Matched("a".to_string(), 1));
    assert_eq!(identifier("de", 0), Parsed::Matched("de".to_string(), 2));
    assert_eq!(identifier("xdef", 0), Parsed::Matched("xdef".to_string(), 4));
    assert_eq!(identifier("\u{e9}ab\u{e9}", 2), Parsed::Matched("ab".to_string(), 4));
    assert_eq!(identifier("hello world", 6), Parsed::Matched("world".to_string(), 11));
}

#[test]
fn identifier_fails_without_consuming() {
    assert_eq!(identifier("_1", 0), soft(0, &[Rule::Identifier], Expected::IdentifierStart));
    assert_eq!(identifier("__a", 0), soft(0, &[Rule::Identifier], Expected::IdentifierStart));
    assert_eq!(identifier("", 0), soft(0, &[Rule::Identifier], Expected::IdentifierStart));
    assert_eq!(identifier("ab", 5), soft(5, &[Rule::Identifier], Expected::IdentifierStart));
    assert_eq!(identifier("a 9", 2), soft(2, &[Rule::Identifier], Expected::IdentifierStart));
    assert_eq!(identifier("\u{e9}", 0), soft(0, &[Rule::Identifier], Expected::IdentifierStart));
}

#[test]
fn identifier_refuses_words_that_begin_with_a_keyword() {
    assert_eq!(identifier("def", 0), soft(0, &[Rule::Identifier], Expected::NonKeyword));
    assert_eq!(identifier("define", 0), soft(0, &[Rule::Identifier], Expected::NonKeyword));
    assert_eq!(identifier("extern", 0), soft(0, &[Rule::Identifier], Expected::NonKeyword));
    assert_eq!(identifier("external", 0), soft(0, &[Rule::Identifier], Expected::NonKeyword));
    assert_eq!(identifier("a def", 2), soft(2, &[Rule::Identifier], Expected::NonKeyword));
}

#[test]
fn literals_stop_where_the_grammar_says() {
    assert_eq!(literal_end("12345", 0), Some(5));
    assert_eq!(literal_end("1.", 0), Some(1));
    assert_eq!(literal_end("1.5e", 0), Some(3));
    assert_eq!(literal_end("1.5e+", 0), Some(3));
    assert_eq!(literal_end("1e+5x", 0), Some(4));
    assert_eq!(literal_end("1E-2", 0), Some(4));
    assert_eq!(literal_end("-7,", 0), Some(2));
    assert_eq!(literal_end("x 3.25)", 2), Some(6));
    assert_eq!(literal_end("-", 0), None);
    assert_eq!(literal_end("-x", 0), None);
    assert_eq!(literal_end("+1", 0), None);
    assert_eq!(literal_end(".5", 0), None);
    assert_eq!(literal_end("", 0), None);
    assert_eq!(literal_end("1", 4), None);
}

#[test]
fn numbers_have_the_value_of_their_text() {
    assert_eq!(number("1.", 0), Parsed::Matched(number_of(1.0), 1));
    assert_eq!(number("1.5e", 0), Parsed::Matched(number_of(1.5), 3));
    assert_eq!(number("1e+5x", 0), Parsed::Matched(number_of(100000.0), 4));
    assert_eq!(number("1E-2", 0), Parsed::Matched(number_of(0.01), 4));
    assert_eq!(number("x 3.25)", 2), Parsed::Matched(number_of(3.25), 6));
    assert_eq!(number("007", 0), Parsed::Matched(number_of(7.0), 3));
    assert_eq!(number("0", 0), Parsed::Matched(Expr::Number(0), 1));
    assert_eq!(
        number("1.7976931348623157e308", 0),
        Parsed::Matched(number_of(f64::MAX), 22)
    );
}

#[test]
fn what_is_no_literal_is_no_number() {
    assert_eq!(number("-x", 0), soft(0, &[Rule::Number], Expected::Digit));
    assert_eq!(number("+1", 0), soft(0, &[Rule::Number], Expected::Digit));
    assert_eq!(number(".5", 0), soft(0, &[Rule::Number], Expected::Digit));
    assert_eq!(number("inf", 0), soft(0, &[Rule::Number], Expected::Digit));
    assert_eq!(number("nan", 0), soft(0, &[Rule::Number], Expected::Digit));
    assert_eq!(number("", 0), soft(0, &[Rule::Number], Expected::Digit));
    assert_eq!(number("12", 2), soft(2, &[Rule::Number], Expected::Digit));
}

#[test]
fn a_number_needs_its_literal_converted_whole() {
    let bits = 2.5f64.to_bits();
    assert_eq!(number_from(3, Some(6), Some((0, bits))), Parsed::Matched(Expr::Number(bits), 6));
    assert_eq!(
        number_from(3, Some(6), Some((1, bits))),
        soft(3, &[Rule::Number], Expected::NumericValue)
    );
    assert_eq!(number_from(3, Some(6), None), soft(3, &[Rule::Number], Expected::NumericValue));
    assert_eq!(number_from(3, None, None), soft(3, &[Rule::Number], Expected::Digit));
    assert_eq!(number_from(3, None, Some((0, bits))), soft(3, &[Rule::Number], Expected::Digit));
}

#[test]
fn variable_is_an_identifier() {
    assert_eq!(variable("foo bar", 4), Parsed::Matched(variable_of("bar"), 7));
    assert_eq!(
        variable("9", 0),
        soft(0, &[Rule::Identifier, Rule::Variable], Expected::IdentifierStart)
    );
}

#[test]
fn arguments_allow_whitespace_around_items() {
    assert_eq!(arguments("()", 0), Parsed::Matched(vec![], 2));
    assert_eq!(arguments("(  )", 0), Parsed::Matched(vec![], 4));
    assert_eq!(
        arguments("( a , 1\n,b )x", 0),
        Parsed::Matched(vec![variable_of("a"), number_of(1.0), variable_of("b")], 12)
    );
    assert_eq!(arguments("f(x)", 1), Parsed::Matched(vec![variable_of("x")], 4));
}

#[test]
fn arguments_commit_at_the_parenthesis() {
    assert_eq!(arguments("x", 0), soft(0, &[Rule::Arguments], Expected::OpenParen));
    assert_eq!(arguments("", 0), soft(0, &[Rule::Arguments], Expected::OpenParen));
    assert_eq!(arguments("(", 0), hard(1, &[Rule::Arguments], Expected::CloseParen));
    assert_eq!(arguments("(a,)", 0), hard(2, &[Rule::Arguments], Expected::CloseParen));
    assert_eq!(arguments("(a b)", 0), hard(3, &[Rule::Arguments], Expected::CloseParen));
    assert_eq!(arguments("(,a)", 0), hard(1, &[Rule::Arguments], Expected::CloseParen));
    assert_eq!(
        arguments("(a, g(1)", 0),
        hard(8, &[Rule::Arguments], Expected::CloseParen)
    );
    assert_eq!(
        arguments("(a, g(1 2))", 0),
        hard(
            8,
            &[Rule::Arguments, Rule::Call, Rule::Expression, Rule::Arguments],
            Expected::CloseParen
        )
    );
}

#[test]
fn call_needs_the_parenthesis_right_behind_the_name() {
    assert_eq!(
        call("f( 1 , g(x) )", 0),
        Parsed::Matched(
            call_of("f", vec![number_of(1.0), call_of("g", vec![variable_of("x")])]),
            13
        )
    );
    assert_eq!(call("foo (1)", 0), soft(3, &[Rule::Arguments, Rule::Call], Expected::OpenParen));
    assert_eq!(call("foo", 0), soft(3, &[Rule::Arguments, Rule::Call], Expected::OpenParen));
    assert_eq!(
        call("1(2)", 0),
        soft(0, &[Rule::Identifier, Rule::Call], Expected::IdentifierStart)
    );
    assert_eq!(
        call("foo(", 0),
        hard(4, &[Rule::Arguments, Rule::Call], Expected::CloseParen)
    );
}

#[test]
fn expression_tries_call_then_number_then_variable() {
    assert_eq!(expr("foo(0.5, bar)", 0), call("foo(0.5, bar)", 0));
    assert_eq!(
        expr("foo(0.5, bar)", 0),
        Parsed::Matched(call_of("foo", vec![number_of(0.5), variable_of("bar")]), 13)
    );
    assert_eq!(expr("foo()", 0), Parsed::Matched(call_of("foo", vec![]), 5));
    assert_eq!(expr("42", 0), Parsed::Matched(number_of(42.0), 2));
    assert_eq!(expr("-4.5e1)", 0), Parsed::Matched(number_of(-45.0), 6));
    assert_eq!(expr("foo", 0), Parsed::Matched(variable_of("foo"), 3));
    assert_eq!(expr("foo (1)", 0), Parsed::Matched(variable_of("foo"), 3));
    assert_eq!(expr("1foo", 0), Parsed::Matched(number_of(1.0), 1));
    assert_eq!(
        expr("@", 0),
        soft(
            0,
            &[Rule::Identifier, Rule::Variable, Rule::Expression],
            Expected::IdentifierStart
        )
    );
    assert_eq!(
        expr("def", 0),
        soft(0, &[Rule::Identifier, Rule::Variable, Rule::Expression], Expected::NonKeyword)
    );
}

#[test]
fn a_call_with_bad_arguments_is_no_variable() {
    assert_eq!(
        expr("foo(", 0),
        hard(4, &[Rule::Arguments, Rule::Call, Rule::Expression], Expected::CloseParen)
    );
    assert_eq!(
        expr("f(1,)", 0),
        hard(3, &[Rule::Arguments, Rule::Call, Rule::Expression], Expected::CloseParen)
    );
    assert_eq!(
        expr("f(@)", 0),
        hard(2, &[Rule::Arguments, Rule::Call, Rule::Expression], Expected::CloseParen)
    );
}

#[test]
fn prototype_has_a_name_and_parameters() {
    assert_eq!(prototype("foo()", 0), Parsed::Matched(prototype_of("foo", &[]), 5));
    assert_eq!(
        prototype("foo( a ,b\n)", 0),
        Parsed::Matched(prototype_of("foo", &["a", "b"]), 11)
    );
    assert_eq!(
        prototype("f(x, x)", 0),
        Parsed::Matched(prototype_of("f", &["x", "x"]), 7)
    );
}

#[test]
fn prototype_commits_at_the_parenthesis() {
    assert_eq!(prototype("foo", 0), soft(3, &[Rule::Prototype], Expected::OpenParen));
    assert_eq!(prototype("foo (a)", 0), soft(3, &[Rule::Prototype], Expected::OpenParen));
    assert_eq!(
        prototype("1", 0),
        soft(0, &[Rule::Identifier, Rule::Prototype], Expected::IdentifierStart)
    );
    assert_eq!(prototype("foo(1)", 0), hard(4, &[Rule::Prototype], Expected::CloseParen));
    assert_eq!(prototype("foo(a,)", 0), hard(5, &[Rule::Prototype], Expected::CloseParen));
    assert_eq!(prototype("foo(a b)", 0), hard(6, &[Rule::Prototype], Expected::CloseParen));
    assert_eq!(prototype("foo(def)", 0), hard(4, &[Rule::Prototype], Expected::CloseParen));
    assert_eq!(prototype("foo(g(x))", 0), hard(5, &[Rule::Prototype], Expected::CloseParen));
}

#[test]
fn extern_declares_a_prototype() {
    assert_eq!(
        external("extern foo()", 0),
        Parsed::Matched(Statement::Extern(prototype_of("foo", &[])), 12)
    );
    assert_eq!(
        external("extern foo(bar, baz)", 0),
        Parsed::Matched(Statement::Extern(prototype_of("foo", &["bar", "baz"])), 20)
    );
    assert_eq!(
        external("extern \n foo(x) rest", 0),
        Parsed::Matched(Statement::Extern(prototype_of("foo", &["x"])), 15)
    );
}

#[test]
fn malformed_extern_fails_hard() {
    assert_eq!(
        external("extern foo(", 0),
        hard(11, &[Rule::Prototype, Rule::Extern], Expected::CloseParen)
    );
    assert_eq!(external("externfoo()", 0), hard(6, &[Rule::Extern], Expected::Whitespace));
    assert_eq!(external("extern", 0), hard(6, &[Rule::Extern], Expected::Whitespace));
    assert_eq!(external("external(x)", 0), hard(6, &[Rule::Extern], Expected::Whitespace));
    assert_eq!(
        external("extern 1", 0),
        hard(7, &[Rule::Identifier, Rule::Prototype, Rule::Extern], Expected::IdentifierStart)
    );
    assert_eq!(
        external("extern foo", 0),
        hard(10, &[Rule::Prototype, Rule::Extern], Expected::OpenParen)
    );
    assert_eq!(external("foo()", 0), soft(0, &[Rule::Extern], Expected::ExternKeyword));
    assert_eq!(external("", 0), soft(0, &[Rule::Extern], Expected::ExternKeyword));
}

#[test]
fn a_malformed_extern_is_no_expression() {
    assert_eq!(
        statement("extern foo(", 0),
        hard(11, &[Rule::Prototype, Rule::Extern, Rule::Statement], Expected::CloseParen)
    );
    assert_eq!(
        parse("extern foo("),
        Err(failure(
            11,
            &[Rule::Prototype, Rule::Extern, Rule::Statement, Rule::Statements, Rule::Program],
            Expected::CloseParen
        ))
    );
}

#[test]
fn def_defines_a_function() {
    assert_eq!(
        function("def foo(bar, baz) bar", 0),
        Parsed::Matched(
            Statement::Function(prototype_of("foo", &["bar", "baz"]), variable_of("bar")),
            21
        )
    );
    assert_eq!(
        function("def f()\n\n1", 0),
        Parsed::Matched(Statement::Function(prototype_of("f", &[]), number_of(1.0)), 10)
    );
}

#[test]
fn malformed_def_fails_hard() {
    assert_eq!(function("x", 0), soft(0, &[Rule::Function], Expected::DefKeyword));
    assert_eq!(function("deffoo()", 0), hard(3, &[Rule::Function], Expected::Whitespace));
    assert_eq!(function("def foo(x)x", 0), hard(10, &[Rule::Function], Expected::Whitespace));
    assert_eq!(
        function("def foo(x) @", 0),
        hard(
            11,
            &[Rule::Identifier, Rule::Variable, Rule::Expression, Rule::Function],
            Expected::IdentifierStart
        )
    );
    assert_eq!(
        function("def foo x", 0),
        hard(7, &[Rule::Prototype, Rule::Function], Expected::OpenParen)
    );
    assert_eq!(
        function("def foo(x) g(", 0),
        hard(
            13,
            &[Rule::Arguments, Rule::Call, Rule::Expression, Rule::Function],
            Expected::CloseParen
        )
    );
}

#[test]
fn statement_tries_extern_then_def_then_expression() {
    assert_eq!(
        statement("extern f()", 0),
        Parsed::Matched(Statement::Extern(prototype_of("f", &[])), 10)
    );
    assert_eq!(
        statement("def f() 1", 0),
        Parsed::Matched(Statement::Function(prototype_of("f", &[]), number_of(1.0)), 9)
    );
    assert_eq!(
        statement("f(1)", 0),
        Parsed::Matched(Statement::Expression(call_of("f", vec![number_of(1.0)])), 4)
    );
    assert_eq!(
        statement(";", 0),
        soft(
            0,
            &[Rule::Identifier, Rule::Variable, Rule::Expression, Rule::Statement],
            Expected::IdentifierStart
        )
    );
    assert_eq!(
        statement("define", 0),
        hard(3, &[Rule::Function, Rule::Statement], Expected::Whitespace)
    );
}

#[test]
fn statements_are_separated_by_runs_of_separators() {
    assert_eq!(
        statements("a;b\n\n;c", 0),
        Parsed::Matched(
            vec![
                Statement::Expression(variable_of("a")),
                Statement::Expression(variable_of("b")),
                Statement::Expression(variable_of("c")),
            ],
            7
        )
    );
    assert_eq!(
        statements("a; b", 0),
        Parsed::Matched(vec![Statement::Expression(variable_of("a"))], 1)
    );
    assert_eq!(
        statements("a b", 0),
        Parsed::Matched(vec![Statement::Expression(variable_of("a"))], 1)
    );
    assert_eq!(statements(";a", 0), Parsed::Matched(vec![], 0));
    assert_eq!(statements("", 0), Parsed::Matched(vec![], 0));
    assert_eq!(
        statements("a;def", 0),
        hard(5, &[Rule::Function, Rule::Statement, Rule::Statements], Expected::Whitespace)
    );
}

#[test]
fn an_input_without_statements_is_the_empty_program() {
    assert_eq!(parse(""), Ok(Program(vec![])));
    assert_eq!(parse("  \n "), Ok(Program(vec![])));
    assert_eq!(parse(";"), Ok(Program(vec![])));
    assert_eq!(parse(" ;\n;"), Ok(Program(vec![])));
}

#[test]
fn a_program_may_trail_one_run() {
    let one = Ok(Program(vec![Statement::Expression(variable_of("a"))]));
    assert_eq!(parse("a"), one);
    assert_eq!(parse(" \n a"), one);
    assert_eq!(parse("a\n"), one);
    assert_eq!(parse("a  \n "), one);
    assert_eq!(parse("a;"), one);
    assert_eq!(parse("a;\n;"), one);
    assert_eq!(parse("a\n\n  "), one);
}

#[test]
fn input_left_over_fails_the_program() {
    assert_eq!(parse("a; "), Err(failure(2, &[Rule::Program], Expected::EndOfInput)));
    assert_eq!(parse("a ;"), Err(failure(2, &[Rule::Program], Expected::EndOfInput)));
    assert_eq!(parse("a b"), Err(failure(2, &[Rule::Program], Expected::EndOfInput)));
    assert_eq!(parse("a; b"), Err(failure(2, &[Rule::Program], Expected::EndOfInput)));
    assert_eq!(parse("1foo"), Err(failure(1, &[Rule::Program], Expected::EndOfInput)));
    assert_eq!(parse("@"), Err(failure(0, &[Rule::Program], Expected::EndOfInput)));
    assert_eq!(parse("\u{e9}"), Err(failure(0, &[Rule::Program], Expected::EndOfInput)));
    assert_eq!(parse("a\tb"), Err(failure(1, &[Rule::Program], Expected::EndOfInput)));
}

#[test]
fn statements_keep_their_order() {
    assert_eq!(
        parse("c(1);a;b(a)\n"),
        Ok(Program(vec![
            Statement::Expression(call_of("c", vec![number_of(1.0)])),
            Statement::Expression(variable_of("a")),
            Statement::Expression(call_of("b", vec![variable_of("a")])),
        ]))
    );
}

#[test]
fn parsing_twice_gives_the_same() {
    let sources = [
        "extern mul(a, b)\ndef double(x) mul(x, 2)\ndouble(32)\n",
        "extern foo(",
        "a; ",
        "",
        "f(g(h(1, 2), x), -0.0)",
    ];
    for source in sources {
        assert_eq!(parse(source), parse(source));
        let copy = source.to_string();
        assert_eq!(parse(source), parse(&copy));
    }
}

#[test]
fn no_rule_builds_an_infix() {
    fn has_infix(e: &Expr) -> bool {
        match e {
            Expr::Infix(_, _, _) => true,
            Expr::Call(_, arguments) => arguments.iter().any(has_infix),
            _ => false,
        }
    }
    assert_eq!(
        expr("a+b", 0),
        Parsed::Matched(variable_of("a"), 1)
    );
    assert_eq!(parse("a+b"), Err(failure(1, &[Rule::Program], Expected::EndOfInput)));
    match parse("f(1, g(a), -2)\nx") {
        Ok(Program(list)) => {
            for s in &list {
                match s {
                    Statement::Expression(e) | Statement::Function(_, e) => assert!(!has_infix(e)),
                    Statement::Extern(_) => {}
                }
            }
        }
        Err(f) => panic!("no program: {:?}", f),
    }
}

#[test]
fn failures_fall_into_three_families() {
    let family = |expected: Expected| failure(0, &[Rule::Program], expected).category();
    assert_eq!(family(Expected::IdentifierStart), Category::LexicalMismatch);
    assert_eq!(family(Expected::NonKeyword), Category::LexicalMismatch);
    assert_eq!(family(Expected::Digit), Category::LexicalMismatch);
    assert_eq!(family(Expected::NumericValue), Category::LexicalMismatch);
    assert_eq!(family(Expected::Whitespace), Category::LexicalMismatch);
    assert_eq!(family(Expected::OpenParen), Category::StructuralMismatch);
    assert_eq!(family(Expected::CloseParen), Category::StructuralMismatch);
    assert_eq!(family(Expected::ExternKeyword), Category::StructuralMismatch);
    assert_eq!(family(Expected::DefKeyword), Category::StructuralMismatch);
    assert_eq!(family(Expected::EndOfInput), Category::IncompleteConsumption);
    assert_eq!(parse("a b").unwrap_err().category(), Category::IncompleteConsumption);
    assert_eq!(parse("extern f(").unwrap_err().category(), Category::StructuralMismatch);
    assert_eq!(parse("extern 1").unwrap_err().category(), Category::LexicalMismatch);
}

#[test]
fn failures_name_the_enclosing_rules() {
    let inner = Failure::new(4, Rule::Identifier, Expected::IdentifierStart);
    assert_eq!(inner, failure(4, &[Rule::Identifier], Expected::IdentifierStart));
    let outer = inner.within(Rule::Variable).within(Rule::Expression);
    assert_eq!(
        outer,
        failure(
            4,
            &[Rule::Identifier, Rule::Variable, Rule::Expression],
            Expected::IdentifierStart
        )
    );
    let soft_one: Parsed<Expr> = Parsed::Soft(Failure::new(1, Rule::Number, Expected::Digit));
    assert_eq!(
        soft_one.within(Rule::Expression),
        soft(1, &[Rule::Number, Rule::Expression], Expected::Digit)
    );
    let hard_one: Parsed<Expr> = Parsed::Hard(Failure::new(1, Rule::Arguments, Expected::CloseParen));
    assert_eq!(
        hard_one.within(Rule::Call),
        hard(1, &[Rule::Arguments, Rule::Call], Expected::CloseParen)
    );
    let matched: Parsed<Expr> = Parsed::Matched(number_of(1.0), 1);
    assert_eq!(matched.within(Rule::Expression), Parsed::Matched(number_of(1.0), 1));
}

#[test]
fn rules_and_expectations_have_names() {
    assert_eq!(Rule::Identifier.name(), "identifier");
    assert_eq!(Rule::Number.name(), "number");
    assert_eq!(Rule::Variable.name(), "variable");
    assert_eq!(Rule::Arguments.name(), "arguments");
    assert_eq!(Rule::Call.name(), "call");
    assert_eq!(Rule::Expression.name(), "expression");
    assert_eq!(Rule::Prototype.name(), "prototype");
    assert_eq!(Rule::Extern.name(), "extern");
    assert_eq!(Rule::Function.name(), "function");
    assert_eq!(Rule::Statement.name(), "statement");
    assert_eq!(Rule::Statements.name(), "one or more statements");
    assert_eq!(Rule::Program.name(), "program");
    assert_eq!(
        Expected::IdentifierStart.description(),
        "expected one of the known identifier start characters"
    );
    assert_eq!(Expected::EndOfInput.description(), "expected the end of the input");
    let all = [
        Expected::IdentifierStart,
        Expected::NonKeyword,
        Expected::Digit,
        Expected::NumericValue,
        Expected::Whitespace,
        Expected::OpenParen,
        Expected::CloseParen,
        Expected::ExternKeyword,
        Expected::DefKeyword,
        Expected::EndOfInput,
    ];
    for (i, a) in all.iter().enumerate() {
        assert!(a.description().starts_with("expected "));
        for b in &all[i + 1..] {
            assert_ne!(a.description(), b.description());
        }
    }
    let names: Vec<&str> = parse("extern foo(").unwrap_err().rules.iter().map(|r| r.name()).collect();
    assert_eq!(names, vec!["prototype", "extern", "statement", "one or more statements", "program"]);
}

#[test]
fn failures_point_into_the_input() {
    let sources = ["extern foo(", "a b", "def f(x) g(1,", "f(1, 2", "extern", "def f()", "a;def"];
    for source in sources {
        let f = parse(source).unwrap_err();
        assert!(f.offset <= source.len());
        assert_eq!(f.rules.last(), Some(&Rule::Program));
    }
    assert_eq!(
        parse("def f(x) g(1,"),
        Err(failure(
            12,
            &[
                Rule::Arguments,
                Rule::Call,
                Rule::Expression,
                Rule::Function,
                Rule::Statement,
                Rule::Statements,
                Rule::Program
            ],
            Expected::CloseParen
        ))
    );
}
