use minilisp::env::{Env, Scopes};
use minilisp::lex::{tokenize, word_token};
use minilisp::eval::{if_branch, Interp};
use minilisp::expr::{parse, Expr, ParseError};
use minilisp::object::{Object, Prim};
use minilisp::prim::{apply_prim, EvalError, FloatArith};
use minilisp::token::{Token, TokenError};

struct F64s;

impl FloatArith for F64s {
    fn parse(&self, word: &str) -> Option<u64> {
        word.parse::<f64>().ok().map(f64::to_bits)
    }
    fn from_int(&self, n: i64) -> u64 {
        (n as f64).to_bits()
    }
    fn add(&self, a: u64, b: u64) -> u64 {
        (f64::from_bits(a) + f64::from_bits(b)).to_bits()
    }
    fn sub(&self, a: u64, b: u64) -> u64 {
        (f64::from_bits(a) - f64::from_bits(b)).to_bits()
    }
    fn mul(&self, a: u64, b: u64) -> u64 {
        (f64::from_bits(a) * f64::from_bits(b)).to_bits()
    }
    fn div(&self, a: u64, b: u64) -> u64 {
        (f64::from_bits(a) / f64::from_bits(b)).to_bits()
    }
    fn lt(&self, a: u64, b: u64) -> bool {
        f64::from_bits(a) < f64::from_bits(b)
    }
    fn eq(&self, a: u64, b: u64) -> bool {
        f64::from_bits(a) == f64::from_bits(b)
    }
}

fn lex(src: &str) -> Vec<Token> {
    tokenize(src, &F64s).expect("every text has tokens")
}

fn write_expr(e: &Expr, out: &mut Vec<Token>) {
    match e {
        Expr::Integer(n) => out.push(Token::Integer(*n)),
        Expr::Float(b) => out.push(Token::Float(*b)),
        Expr::Symbol(s) => out.push(Token::Symbol(s.clone())),
        Expr::List(items) => {
            out.push(Token::LParen);
            for i in items {
                write_expr(i, out);
            }
            out.push(Token::RParen);
        }
    }
}

fn run(src: &str) -> Result<Object, EvalError> {
    let mut it = Interp::new();
    run_in(&mut it, src)
}

fn run_in(it: &mut Interp, src: &str) -> Result<Object, EvalError> {
    let exprs = parse(&lex(src)).expect("program parses");
    it.run(&exprs, &F64s)
}

fn sym(s: &str) -> Expr {
    Expr::Symbol(s.to_string())
}

#[test]
fn parses_a_call() {
    let es = parse(&lex("(+ 1 2.5)")).unwrap();
    assert_eq!(
        es,
        vec![Expr::List(vec![sym("+"), Expr::Integer(1), Expr::Float(2.5f64.to_bits())])]
    );
}

#[test]
fn parses_several_top_level_expressions() {
    let es = parse(&lex("1 (a (b)) () x")).unwrap();
    assert_eq!(
        es,
        vec![
            Expr::Integer(1),
            Expr::List(vec![sym("a"), Expr::List(vec![sym("b")])]),
            Expr::List(vec![]),
            sym("x"),
        ]
    );
}

#[test]
fn parses_empty_input() {
    assert_eq!(parse(&vec![]), Ok(vec![]));
}

#[test]
fn unterminated_list_is_unexpected_eof() {
    assert_eq!(parse(&lex("(+ 1 2")), Err(ParseError::UnexpectedEof));
    assert_eq!(parse(&lex("((")), Err(ParseError::UnexpectedEof));
}

#[test]
fn extra_close_paren_is_unexpected_close() {
    assert_eq!(parse(&lex("(+ 1 2))")), Err(ParseError::UnexpectedCloseParen));
    assert_eq!(parse(&lex(")(")), Err(ParseError::UnexpectedCloseParen));
}

#[test]
fn written_tokens_parse_back_to_the_same_tree() {
    let src = "(define (f x) (if (< x 1.5) (quote (a b)) (f (- x 1)))) 7 ()";
    let toks = lex(src);
    let es = parse(&toks).unwrap();
    let mut written = Vec::new();
    for e in &es {
        write_expr(e, &mut written);
    }
    assert_eq!(written, toks);
    assert_eq!(parse(&written).unwrap(), es);
}

#[test]
fn numbers_evaluate_to_themselves() {
    assert_eq!(run("42"), Ok(Object::Integer(42)));
    assert_eq!(run("2.5"), Ok(Object::Float(2.5f64.to_bits())));
    assert_eq!(run("#t"), Ok(Object::Boolean(true)));
    assert_eq!(run("#f"), Ok(Object::Boolean(false)));
    assert_eq!(run("()"), Ok(Object::Nil));
    assert_eq!(run(""), Ok(Object::Nil));
}

#[test]
fn integer_addition_stays_integer() {
    assert_eq!(run("(+ 1 2)"), Ok(Object::Integer(3)));
}

#[test]
fn mixed_addition_promotes_to_float() {
    assert_eq!(run("(+ 1 2.0)"), Ok(Object::Float(3.0f64.to_bits())));
    assert_eq!(run("(* 2.5 2)"), Ok(Object::Float(5.0f64.to_bits())));
    assert_eq!(run("(< 1 1.5)"), Ok(Object::Boolean(true)));
}

#[test]
fn integer_arithmetic_and_comparison() {
    assert_eq!(run("(- 3 10)"), Ok(Object::Integer(-7)));
    assert_eq!(run("(* 6 7)"), Ok(Object::Integer(42)));
    assert_eq!(run("(/ 7 2)"), Ok(Object::Integer(3)));
    assert_eq!(run("(/ -7 2)"), Ok(Object::Integer(-3)));
    assert_eq!(run("(< 1 2)"), Ok(Object::Boolean(true)));
    assert_eq!(run("(> 1 2)"), Ok(Object::Boolean(false)));
    assert_eq!(run("(= 4 4)"), Ok(Object::Boolean(true)));
}

#[test]
fn division_by_zero_fails() {
    assert_eq!(run("(/ 1 0)"), Err(EvalError::DivisionByZero));
}

#[test]
fn integer_overflow_fails() {
    assert_eq!(run("(+ 9223372036854775807 1)"), Err(EvalError::IntegerOverflow));
    assert_eq!(run("(/ -9223372036854775808 -1)"), Err(EvalError::IntegerOverflow));
}

#[test]
fn adding_a_symbol_is_a_type_mismatch() {
    assert_eq!(run("(+ 1 (quote a))"), Err(EvalError::TypeMismatch));
}

#[test]
fn primitive_arity_is_checked() {
    assert_eq!(run("(+ 1 2 3)"), Err(EvalError::ArityMismatch));
    assert_eq!(
        apply_prim(Prim::Add, &vec![Object::Integer(1)], &F64s),
        Err(EvalError::ArityMismatch)
    );
}

#[test]
fn calling_a_number_is_not_callable() {
    assert_eq!(run("(1 2)"), Err(EvalError::NotCallable));
}

#[test]
fn unbound_symbol_fails() {
    assert_eq!(
        run("nowhere"),
        Err(EvalError::UnboundSymbol("nowhere".to_string()))
    );
    assert_eq!(
        run("(define f (lambda (x) y)) (f 1)"),
        Err(EvalError::UnboundSymbol("y".to_string()))
    );
}

#[test]
fn if_evaluates_only_the_taken_branch() {
    let mut it = Interp::new();
    assert_eq!(
        run_in(&mut it, "(if #t (define a 1) (define b 2))"),
        Ok(Object::Integer(1))
    );
    assert_eq!(run_in(&mut it, "a"), Ok(Object::Integer(1)));
    assert_eq!(
        run_in(&mut it, "b"),
        Err(EvalError::UnboundSymbol("b".to_string()))
    );
    assert_eq!(
        run_in(&mut it, "(if #f (define c 1) (define d 2))"),
        Ok(Object::Integer(2))
    );
    assert_eq!(run_in(&mut it, "d"), Ok(Object::Integer(2)));
    assert_eq!(
        run_in(&mut it, "c"),
        Err(EvalError::UnboundSymbol("c".to_string()))
    );
}

#[test]
fn only_false_and_nil_are_false() {
    assert_eq!(run("(if 0 1 2)"), Ok(Object::Integer(1)));
    assert_eq!(run("(if () 1 2)"), Ok(Object::Integer(2)));
    assert_eq!(run("(if #f 1)"), Ok(Object::Nil));
}

#[test]
fn quote_returns_the_tree_unevaluated() {
    assert_eq!(
        run("(quote (a 1 (b)))"),
        Ok(Object::List(vec![
            Object::Symbol("a".to_string()),
            Object::Integer(1),
            Object::List(vec![Object::Symbol("b".to_string())]),
        ]))
    );
}

#[test]
fn begin_gives_the_last_value_and_stops_at_a_failure() {
    assert_eq!(run("(begin 1 2 3)"), Ok(Object::Integer(3)));
    let mut it = Interp::new();
    assert_eq!(
        run_in(&mut it, "(begin (define p 1) zz (define q 2))"),
        Err(EvalError::UnboundSymbol("zz".to_string()))
    );
    assert_eq!(run_in(&mut it, "p"), Ok(Object::Integer(1)));
    assert_eq!(
        run_in(&mut it, "q"),
        Err(EvalError::UnboundSymbol("q".to_string()))
    );
}

#[test]
fn closure_keeps_its_scope_after_the_call_returns() {
    let src = "(define make-adder (lambda (n) (lambda (x) (+ x n))))
               (define add5 (make-adder 5))
               (define add7 (make-adder 7))
               (+ (add5 10) (add7 1))";
    assert_eq!(run(src), Ok(Object::Integer(23)));
}

#[test]
fn closure_arity_must_match() {
    let mut it = Interp::new();
    run_in(&mut it, "(define f (lambda (a b) a))").unwrap();
    assert_eq!(run_in(&mut it, "(f 1)"), Err(EvalError::ArityMismatch));
    assert_eq!(run_in(&mut it, "(f 1 2 3)"), Err(EvalError::ArityMismatch));
    assert_eq!(run_in(&mut it, "(f 1 2)"), Ok(Object::Integer(1)));
}

#[test]
fn recursion_through_the_root_scope() {
    let src = "(define fact (lambda (n) (if (< n 2) 1 (* n (fact (- n 1))))))
               (fact 10)";
    assert_eq!(run(src), Ok(Object::Integer(3628800)));
}

#[test]
fn scoping_is_lexical() {
    let src = "(define x 1)
               (define get-x (lambda () x))
               (define shadow (lambda (x) (get-x)))
               (shadow 99)";
    assert_eq!(run(src), Ok(Object::Integer(1)));
}

#[test]
fn define_in_a_call_does_not_touch_the_root() {
    let src = "(define x 1)
               (define f (lambda () (begin (define x 2) x)))
               (+ (* 10 (f)) x)";
    assert_eq!(run(src), Ok(Object::Integer(21)));
}

#[test]
fn endless_recursion_stops_at_the_depth_limit() {
    assert_eq!(
        run("(define f (lambda () (f))) (f)"),
        Err(EvalError::DepthExceeded)
    );
}

#[test]
fn malformed_special_forms_are_rejected() {
    assert_eq!(run("(if)"), Err(EvalError::BadSyntax));
    assert_eq!(run("(define 1 2)"), Err(EvalError::BadSyntax));
    assert_eq!(run("(lambda (1) 2)"), Err(EvalError::BadSyntax));
    assert_eq!(run("(quote)"), Err(EvalError::BadSyntax));
}

#[test]
fn lambda_captures_the_current_scope() {
    match run("(lambda (a b) (+ a b))") {
        Ok(Object::Closure { params, body, env }) => {
            assert_eq!(params, vec!["a".to_string(), "b".to_string()]);
            assert_eq!(body, Expr::List(vec![sym("+"), sym("a"), sym("b")]));
            assert_eq!(env, 0);
        }
        other => panic!("not a closure: {:?}", other),
    }
}

#[test]
fn root_binding_is_seen_from_a_later_child() {
    let mut sc = Scopes::new();
    sc.define(0, "x", Object::Integer(5));
    let child = sc.extend(0);
    assert_eq!(sc.lookup(child, "x"), Some(Object::Integer(5)));
    sc.define(child, "x", Object::Integer(6));
    assert_eq!(sc.lookup(child, "x"), Some(Object::Integer(6)));
    assert_eq!(sc.lookup(0, "x"), Some(Object::Integer(5)));
    assert_eq!(sc.lookup(0, "y"), None);
}

#[test]
fn env_get_walks_the_parent_chain() {
    let mut sc = Scopes::new();
    sc.define(0, "x", Object::Integer(5));
    let mid = sc.extend(0);
    sc.define(mid, "y", Object::Boolean(true));
    let mut leaf = Env::extend(mid);
    assert_eq!(leaf.get(&sc, "x"), Some(Object::Integer(5)));
    assert_eq!(leaf.get(&sc, "y"), Some(Object::Boolean(true)));
    assert_eq!(leaf.get(&sc, "z"), None);
    leaf.set("x", Object::Nil);
    assert_eq!(leaf.get(&sc, "x"), Some(Object::Nil));
    leaf.set("x", Object::Integer(8));
    assert_eq!(leaf.get_local("x"), Some(Object::Integer(8)));
    assert_eq!(Env::new().get(&sc, "x"), None);
}

#[test]
fn object_truthiness() {
    assert!(Object::Integer(0).truthy());
    assert!(!Object::Nil.truthy());
    assert!(!Object::Boolean(false).truthy());
    assert!(Object::Boolean(true).truthy());
    assert!(Object::List(vec![]).truthy());
}

#[test]
fn token_error_keeps_its_character() {
    assert_eq!(TokenError::new('#').ch(), '#');
}

fn sym_tok(s: &str) -> Token {
    Token::Symbol(s.to_string())
}

#[test]
fn it_works() {
    let tokens = tokenize("(+ 1 2)", &F64s).unwrap_or(vec![]);
    assert_eq!(
        tokens,
        vec![
            Token::LParen,
            Token::Symbol("+".to_string()),
            Token::Integer(1),
            Token::Integer(2),
            Token::RParen,
        ]
    )
}

#[test]
fn it_works_with_floats() {
    let tokens = tokenize("(+ 1.0 2.0)", &F64s).unwrap_or(vec![]);
    assert_eq!(
        tokens,
        vec![
            Token::LParen,
            Token::Symbol("+".to_string()),
            Token::Float(1.0f64.to_bits()),
            Token::Float(2.0f64.to_bits()),
            Token::RParen,
        ]
    );
}

#[test]
fn circle_area() {
    let program = "
            (
              (define r 10)
              (define pi 3)
              (* pi (* r r))
            )
            ";

    let tokens = tokenize(program, &F64s).unwrap_or(vec![]);

    assert_eq!(
        tokens,
        [
            Token::LParen,
            Token::LParen,
            Token::Symbol("define".to_string()),
            Token::Symbol("r".to_string()),
            Token::Integer(10),
            Token::RParen,
            Token::LParen,
            Token::Symbol("define".to_string()),
            Token::Symbol("pi".to_string()),
            Token::Integer(3),
            Token::RParen,
            Token::LParen,
            Token::Symbol("*".to_string()),
            Token::Symbol("pi".to_string()),
            Token::LParen,
            Token::Symbol("*".to_string()),
            Token::Symbol("r".to_string()),
            Token::Symbol("r".to_string()),
            Token::RParen,
            Token::RParen,
            Token::RParen
        ]
    );
}

#[test]
fn circle_area_with_float() {
    let program = "
            (
              (define r 10)
              (define pi 3.14)
              (* pi (* r r))
            )
            ";

    let tokens = tokenize(program, &F64s).unwrap_or(vec![]);

    assert_eq!(
        tokens,
        [
            Token::LParen,
            Token::LParen,
            Token::Symbol("define".to_string()),
            Token::Symbol("r".to_string()),
            Token::Integer(10),
            Token::RParen,
            Token::LParen,
            Token::Symbol("define".to_string()),
            Token::Symbol("pi".to_string()),
            Token::Float(3.14f64.to_bits()),
            Token::RParen,
            Token::LParen,
            Token::Symbol("*".to_string()),
            Token::Symbol("pi".to_string()),
            Token::LParen,
            Token::Symbol("*".to_string()),
            Token::Symbol("r".to_string()),
            Token::Symbol("r".to_string()),
            Token::RParen,
            Token::RParen,
            Token::RParen
        ]
    );
}

#[test]
fn integer_words_follow_the_integer_syntax() {
    assert_eq!(
        lex("+5 -0 - + 9223372036854775807 -9223372036854775808"),
        vec![
            Token::Integer(5),
            Token::Integer(0),
            sym_tok("-"),
            sym_tok("+"),
            Token::Integer(i64::MAX),
            Token::Integer(i64::MIN),
        ]
    );
    assert_eq!(
        lex("9223372036854775808"),
        vec![Token::Float(9223372036854775808.0f64.to_bits())]
    );
    assert_eq!(lex("1x 2-3"), vec![sym_tok("1x"), sym_tok("2-3")]);
}

#[test]
fn parentheses_split_words_and_whitespace_separates() {
    assert_eq!(
        lex("a(b)c\td\u{3000}e"),
        vec![
            sym_tok("a"),
            Token::LParen,
            sym_tok("b"),
            Token::RParen,
            sym_tok("c"),
            sym_tok("d"),
            sym_tok("e"),
        ]
    );
    assert_eq!(lex(""), vec![]);
    assert_eq!(lex("  \n "), vec![]);
}

#[test]
fn circle_area_evaluates() {
    let src = "(define r 10) (define pi 3.14) (* pi (* r r))";
    assert_eq!(run(src), Ok(Object::Float((3.14f64 * 100.0).to_bits())));
}

#[test]
fn if_picks_exactly_one_item() {
    assert_eq!(if_branch(&Object::Integer(0), 4), Some(2));
    assert_eq!(if_branch(&Object::Boolean(false), 4), Some(3));
    assert_eq!(if_branch(&Object::Nil, 3), None);
    assert_eq!(if_branch(&Object::Nil, 4), Some(3));
}

#[test]
fn call_frame_extends_the_closure_scope() {
    let mut it = Interp::new();
    let outer = it.scopes.extend(0);
    it.scopes.define(outer, "n", Object::Integer(5));
    let caller = it.scopes.extend(0);
    it.scopes.define(caller, "n", Object::Integer(100));
    let params = vec!["x".to_string(), "y".to_string()];
    let args = vec![Object::Integer(1), Object::Integer(2)];
    let frame = it.call_frame(outer, &params, &args);
    assert_eq!(frame, 3);
    assert_eq!(it.scopes.envs[frame].parent, Some(outer));
    assert_eq!(it.scopes.lookup(frame, "x"), Some(Object::Integer(1)));
    assert_eq!(it.scopes.lookup(frame, "y"), Some(Object::Integer(2)));
    assert_eq!(it.scopes.lookup(frame, "n"), Some(Object::Integer(5)));
}

#[test]
fn applying_a_closure_directly() {
    let mut it = Interp::new();
    let f = run_in(&mut it, "(lambda (a b) (- a b))").unwrap();
    assert_eq!(
        it.apply(&f, &vec![Object::Integer(10), Object::Integer(4)], 50, &F64s),
        Ok(Object::Integer(6))
    );
    assert_eq!(
        it.apply(&f, &vec![Object::Integer(10)], 50, &F64s),
        Err(EvalError::ArityMismatch)
    );
    assert_eq!(
        it.apply(&Object::Nil, &vec![], 50, &F64s),
        Err(EvalError::NotCallable)
    );
}

struct EagerFloats;

impl FloatArith for EagerFloats {
    fn parse(&self, _word: &str) -> Option<u64> {
        Some(0)
    }
    fn from_int(&self, n: i64) -> u64 {
        F64s.from_int(n)
    }
    fn add(&self, a: u64, b: u64) -> u64 {
        F64s.add(a, b)
    }
    fn sub(&self, a: u64, b: u64) -> u64 {
        F64s.sub(a, b)
    }
    fn mul(&self, a: u64, b: u64) -> u64 {
        F64s.mul(a, b)
    }
    fn div(&self, a: u64, b: u64) -> u64 {
        F64s.div(a, b)
    }
    fn lt(&self, a: u64, b: u64) -> bool {
        F64s.lt(a, b)
    }
    fn eq(&self, a: u64, b: u64) -> bool {
        F64s.eq(a, b)
    }
}

fn chars(s: &str) -> Vec<char> {
    s.chars().collect()
}

#[test]
fn word_token_follows_the_reading_rule() {
    assert_eq!(word_token(&chars("("), "(", Some(1)), Token::LParen);
    assert_eq!(word_token(&chars("-12"), "-12", Some(1)), Token::Integer(-12));
    assert_eq!(word_token(&chars("2.5"), "2.5", Some(7)), Token::Float(7));
    assert_eq!(word_token(&chars("2.5"), "2.5", None), sym_tok("2.5"));
    assert_eq!(word_token(&chars("define"), "define", Some(7)), sym_tok("define"));
    assert_eq!(word_token(&chars("+"), "+", Some(7)), sym_tok("+"));
    assert_eq!(word_token(&chars("-inf"), "-inf", Some(7)), Token::Float(7));
    assert_eq!(word_token(&chars("1e-3"), "1e-3", Some(7)), Token::Float(7));
    assert_eq!(word_token(&chars("1e"), "1e", Some(7)), sym_tok("1e"));
    assert_eq!(word_token(&chars("1.2.3"), "1.2.3", Some(7)), sym_tok("1.2.3"));
}

#[test]
fn symbols_stay_symbols_whatever_the_float_reader_says() {
    assert_eq!(
        tokenize("(+ pi 2.0)", &EagerFloats).unwrap(),
        (vec![Token::LParen, sym_tok("+"), sym_tok("pi"), Token::Float(0), Token::RParen])
    );
}

#[test]
fn float_division_by_zero_fails() {
    assert_eq!(run("(/ 1.5 0)"), Err(EvalError::DivisionByZero));
    assert_eq!(run("(/ 1 0.0)"), Err(EvalError::DivisionByZero));
    assert_eq!(run("(/ 1 -0.0)"), Err(EvalError::DivisionByZero));
    assert_eq!(run("(/ 1.0 4)"), Ok(Object::Float(0.25f64.to_bits())));
}

#[test]
fn a_float_result_does_not_stop_a_begin() {
    let mut it = Interp::new();
    assert_eq!(
        run_in(&mut it, "(begin (+ 1.0 1.0) (define x 1))"),
        Ok(Object::Integer(1))
    );
    assert_eq!(run_in(&mut it, "x"), Ok(Object::Integer(1)));
}
