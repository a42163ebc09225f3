use jetski::alphatize::{Alphatizer, Scope};
use jetski::core_scheme::{AnormalTransform, Expression};
use jetski::error::{ErrorKind, Syntax};
use jetski::object::{ListBuilder, Object};
use jetski::symbol::{Symbol, SymbolTable};

fn tokenize(text: &str) -> Vec<String> {
    let mut tokens = Vec::new();
    let mut cur = String::new();
    for c in text.chars() {
        if c == '\'' && !cur.is_empty() {
            cur.push(c);
        } else if c == '(' || c == ')' || c == '\'' || c.is_whitespace() {
            if !cur.is_empty() {
                tokens.push(cur.clone());
                cur.clear();
            }
            if !c.is_whitespace() {
                tokens.push(c.to_string());
            }
        } else {
            cur.push(c);
        }
    }
    if !cur.is_empty() {
        tokens.push(cur);
    }
    tokens
}

fn read_datum(t: &mut SymbolTable, tokens: &[String], pos: &mut usize) -> Object {
    let tok = tokens[*pos].clone();
    *pos += 1;
    if tok == "(" {
        let mut b = ListBuilder::new();
        while tokens[*pos] != ")" {
            if tokens[*pos] == "." {
                *pos += 1;
                let tail = read_datum(t, tokens, pos);
                b.set_cdr(tail);
            } else {
                let item = read_datum(t, tokens, pos);
                b.append(item);
            }
        }
        *pos += 1;
        b.build()
    } else if tok == "'" {
        let quoted = read_datum(t, tokens, pos);
        Object::cons(Object::symbol(t, "quote"), Object::cons(quoted, Object::nil()))
    } else if let Ok(i) = tok.parse::<i64>() {
        Object::integer(i)
    } else {
        Object::symbol(t, &tok)
    }
}

fn parse(t: &mut SymbolTable, text: &str) -> Object {
    let tokens = tokenize(text);
    let mut pos = 0;
    let o = read_datum(t, &tokens, &mut pos);
    assert_eq!(pos, tokens.len());
    o
}

fn assert_source_eq(a: &mut Alphatizer, t: &mut SymbolTable, actual: &str, expected: &str) {
    let input = parse(t, actual);
    let out = a.transform(t, &input).unwrap();
    assert_eq!(out, parse(t, expected));
}

#[test]
fn testing_framework_equal() {
    let mut t = SymbolTable::new();
    assert_eq!(parse(&mut t, "(+ 1 2)"), parse(&mut t, "(+ 1 2)"));
}

#[test]
fn procedure_application_is_unchanged() {
    let mut t = SymbolTable::new();
    let mut alphatizer = Alphatizer::new();
    assert_source_eq(&mut alphatizer, &mut t, "(cons (+ 1 2) '(3 4 5))", "(cons (+ 1 2) '(3 4 5))");
    assert_source_eq(&mut alphatizer, &mut t, "(begin (+ 1 2) '(3 4 5))", "(begin (+ 1 2) '(3 4 5))");
}

#[test]
fn alphatize_lambda() {
    let mut t = SymbolTable::new();
    let mut alphatizer = Alphatizer::new();
    assert_source_eq(
        &mut alphatizer,
        &mut t,
        "(lambda (x y) (sqrt (+ (* x x) (* y y))))",
        "(lambda (x0 y1) (sqrt (+ (* x0 x0) (* y1 y1))))",
    );
}

#[test]
fn alphatize_lambda_call() {
    let mut t = SymbolTable::new();
    let mut alphatizer = Alphatizer::new();
    assert_source_eq(&mut alphatizer, &mut t, "((lambda (x y) (+ x y)) y x)", "((lambda (x0 y1) (+ x0 y1)) y x)");
}

#[test]
fn alphatize_nested_lambda() {
    let mut t = SymbolTable::new();
    let mut alphatizer = Alphatizer::new();
    assert_source_eq(
        &mut alphatizer,
        &mut t,
        "(lambda (x y) ((lambda (x) (* x y) (+ x y)) y))",
        "(lambda (x0 y1) ((lambda (x2) (* x2 y1) (+ x2 y1)) y1))",
    );
}

#[test]
fn alphatize_preserve_quote() {
    let mut t = SymbolTable::new();
    let mut alphatizer = Alphatizer::new();
    assert_source_eq(&mut alphatizer, &mut t, "(lambda (x y) '(x y z))", "(lambda (x0 y1) '(x y z))");
}

#[test]
fn alphatize_program() {
    let mut t = SymbolTable::new();
    let mut alphatizer = Alphatizer::new();
    assert_source_eq(
        &mut alphatizer,
        &mut t,
        "(begin
            (define x 3)
            (define y 4)
            (define sqr (lambda (x) (* x x)))
            (define sqrs (lambda (x y) (+ (sqr x) (sqr y))))
            (sqrs x y))",
        "(begin
            (define x 3)
            (define y 4)
            (define sqr (lambda (x0) (* x0 x0)))
            (define sqrs (lambda (x1 y2) (+ (sqr x1) (sqr y2))))
            (sqrs x y))",
    );
}

#[test]
fn alphatize_simple_lambda() {
    let mut t = SymbolTable::new();
    let mut alphatizer = Alphatizer::new();
    assert_source_eq(&mut alphatizer, &mut t, "(lambda (x y) (+ x y))", "(lambda (x0 y1) (+ x0 y1))");
    assert_eq!(alphatizer.symbol_counter, 2);
}

#[test]
fn alphatize_counter_continues_across_inputs() {
    let mut t = SymbolTable::new();
    let mut alphatizer = Alphatizer::new();
    assert_source_eq(&mut alphatizer, &mut t, "(lambda (x) x)", "(lambda (x0) x0)");
    assert_source_eq(&mut alphatizer, &mut t, "(lambda (x) x)", "(lambda (x1) x1)");
}

#[test]
fn alphatize_quote_is_untouched() {
    let mut t = SymbolTable::new();
    let mut alphatizer = Alphatizer::new();
    let input = parse(&mut t, "(lambda (x y) '(x y z))");
    let out = alphatizer.transform(&mut t, &input).unwrap();
    let quoted = out.get_ref(2).unwrap();
    assert_eq!(quoted, input.get_ref(2).unwrap());
    assert_eq!(quoted, &parse(&mut t, "'(x y z)"));
}

#[test]
fn alphatize_duplicate_parameter() {
    let mut t = SymbolTable::new();
    let mut alphatizer = Alphatizer::new();
    let input = parse(&mut t, "(lambda (x x) x)");
    let x = Symbol::new(&mut t, "x");
    let err = alphatizer.transform(&mut t, &input).unwrap_err();
    assert_eq!(err.kind, ErrorKind::SyntaxError(Syntax::DuplicateParameter(x)));
}

#[test]
fn alphatize_non_symbol_parameter() {
    let mut t = SymbolTable::new();
    let mut alphatizer = Alphatizer::new();
    let input = parse(&mut t, "(lambda (x 5) x)");
    let err = alphatizer.transform(&mut t, &input).unwrap_err();
    assert_eq!(err.kind, ErrorKind::SyntaxError(Syntax::ParameterNotSymbol(Object::integer(5))));
}

#[test]
fn alphatize_dotted_tail() {
    let mut t = SymbolTable::new();
    let mut alphatizer = Alphatizer::new();
    assert_source_eq(&mut alphatizer, &mut t, "(f a . b)", "(f a . b)");
    assert_source_eq(&mut alphatizer, &mut t, "(lambda (b) (f a . b))", "(lambda (b0) (f a . b0))");
    assert_source_eq(&mut alphatizer, &mut t, "(lambda (b) (g . 5))", "(lambda (b1) (g . 5))");
}

#[test]
fn alphatize_atoms() {
    let mut t = SymbolTable::new();
    let mut alphatizer = Alphatizer::new();
    assert_source_eq(&mut alphatizer, &mut t, "free", "free");
    assert_source_eq(&mut alphatizer, &mut t, "42", "42");
    assert_eq!(alphatizer.symbol_counter, 0);
}

#[test]
fn scope_lookup_walks_outward() {
    let mut t = SymbolTable::new();
    let x = t.intern("x");
    let y = t.intern("y");
    let root = Scope::new();
    assert_eq!(root.lookup(x), x);
    let mut a = Alphatizer::new();
    let mut inner = root.extend();
    let params = parse(&mut t, "(x y)");
    inner.insert_vars(&params, &mut a, &mut t).unwrap();
    let x0 = t.intern("x0");
    let y1 = t.intern("y1");
    assert_eq!(inner.lookup(x), x0);
    assert_eq!(inner.lookup(y), y1);
    let mut innermost = inner.extend();
    let params = parse(&mut t, "(x)");
    innermost.insert_vars(&params, &mut a, &mut t).unwrap();
    assert_eq!(innermost.lookup(x), t.intern("x2"));
    assert_eq!(innermost.lookup(y), y1);
}

fn var(t: &mut SymbolTable, name: &str) -> Expression {
    Expression::Variable(t.intern(name))
}

#[test]
fn ir_of_function_definition() {
    let mut t = SymbolTable::new();
    let src = parse(&mut t, "(define (sqr x) (* x x))");
    let e = Expression::from_object(&mut t, &src).unwrap();
    let expected = Expression::DefVar(
        t.intern("sqr"),
        Box::new(Expression::Lambda(
            vec![t.intern("x")],
            Box::new(Expression::Apply(Box::new(var(&mut t, "*")), vec![var(&mut t, "x"), var(&mut t, "x")])),
        )),
    );
    assert_eq!(e, expected);
}

#[test]
fn ir_of_variable_definition() {
    let mut t = SymbolTable::new();
    let src = parse(&mut t, "(define z 3)");
    let e = Expression::from_object(&mut t, &src).unwrap();
    assert_eq!(e, Expression::DefVar(t.intern("z"), Box::new(Expression::Integer(3))));
}

#[test]
fn ir_of_lambda_and_application() {
    let mut t = SymbolTable::new();
    let src = parse(&mut t, "((lambda (a b) a) 1 ())");
    let e = Expression::from_object(&mut t, &src).unwrap();
    let expected = Expression::Apply(
        Box::new(Expression::Lambda(vec![t.intern("a"), t.intern("b")], Box::new(var(&mut t, "a")))),
        vec![Expression::Integer(1), Expression::Nil],
    );
    assert_eq!(e, expected);
}

#[test]
fn ir_rejects_sequence_body_and_strings() {
    let mut t = SymbolTable::new();
    let src = parse(&mut t, "(lambda (a) a a)");
    let err = Expression::from_object(&mut t, &src).unwrap_err();
    assert_eq!(err.kind, ErrorKind::UnknownExpressionType(src));
    let s = Object::string("text".to_string());
    let err = Expression::from_object(&mut t, &s).unwrap_err();
    assert_eq!(err.kind, ErrorKind::UnknownExpressionType(s));
}

#[test]
fn ir_rejects_bad_parameters() {
    let mut t = SymbolTable::new();
    let src = parse(&mut t, "(lambda (a 1) a)");
    let err = Expression::from_object(&mut t, &src).unwrap_err();
    assert_eq!(err.kind, ErrorKind::SyntaxError(Syntax::ParameterNotSymbol(Object::integer(1))));
    let src = parse(&mut t, "(define (2 a) a)");
    let err = Expression::from_object(&mut t, &src).unwrap_err();
    assert_eq!(err.kind, ErrorKind::SyntaxError(Syntax::NameNotSymbol(Object::integer(2))));
    let src = parse(&mut t, "(f a . b)");
    let err = Expression::from_object(&mut t, &src).unwrap_err();
    assert_eq!(err.kind, ErrorKind::NotAPair(Object::symbol(&mut t, "b")));
}

fn prim(args: Vec<Expression>) -> Expression {
    Expression::Apply(Box::new(Expression::Primitive), args)
}

fn call(f: Expression, args: Vec<Expression>) -> Expression {
    Expression::Apply(Box::new(f), args)
}

fn let_(v: Symbol, init: Expression, body: Expression) -> Expression {
    Expression::Let(v, Box::new(init), Box::new(body))
}

#[test]
fn anf_operands_are_named_in_order() {
    let mut t = SymbolTable::new();
    let mut n = AnormalTransform::new();
    let a = call(var(&mut t, "f"), vec![var(&mut t, "x")]);
    let b = call(var(&mut t, "g"), vec![var(&mut t, "y")]);
    let out = n.normalize_term(&mut t, prim(vec![a, b]));
    let t0 = t.intern("newvar-0");
    let t1 = t.intern("newvar-1");
    let expected = let_(
        t0,
        call(var(&mut t, "f"), vec![var(&mut t, "x")]),
        let_(
            t1,
            call(var(&mut t, "g"), vec![var(&mut t, "y")]),
            prim(vec![Expression::Variable(t0), Expression::Variable(t1)]),
        ),
    );
    assert_eq!(out, expected);
    assert_eq!(n.var_counter, 2);
}

#[test]
fn anf_names_a_complex_condition() {
    let mut t = SymbolTable::new();
    let mut n = AnormalTransform::new();
    let cond = call(var(&mut t, "f"), vec![var(&mut t, "x")]);
    let e = Expression::If(Box::new(cond), Box::new(Expression::Integer(1)), Box::new(Expression::Integer(2)));
    let out = n.normalize_term(&mut t, e);
    let t0 = t.intern("newvar-0");
    let expected = let_(
        t0,
        call(var(&mut t, "f"), vec![var(&mut t, "x")]),
        Expression::If(
            Box::new(Expression::Variable(t0)),
            Box::new(Expression::Integer(1)),
            Box::new(Expression::Integer(2)),
        ),
    );
    assert_eq!(out, expected);
}

#[test]
fn anf_keeps_an_atomic_condition() {
    let mut t = SymbolTable::new();
    let mut n = AnormalTransform::new();
    let make = |t: &mut SymbolTable| {
        Expression::If(Box::new(var(t, "x")), Box::new(Expression::Integer(1)), Box::new(Expression::Integer(2)))
    };
    let e = make(&mut t);
    let out = n.normalize_term(&mut t, e);
    assert_eq!(out, make(&mut t));
    assert_eq!(n.var_counter, 0);
}

#[test]
fn anf_flattens_nested_lets() {
    let mut t = SymbolTable::new();
    let mut n = AnormalTransform::new();
    let x = t.intern("x");
    let y = t.intern("y");
    let e = let_(x, let_(y, Expression::Integer(1), var(&mut t, "y")), var(&mut t, "x"));
    let out = n.normalize_term(&mut t, e);
    assert_eq!(out, let_(y, Expression::Integer(1), let_(x, var(&mut t, "y"), var(&mut t, "x"))));
}

#[test]
fn anf_normalizes_lambda_bodies_separately() {
    let mut t = SymbolTable::new();
    let mut n = AnormalTransform::new();
    let x = t.intern("x");
    let inner = call(var(&mut t, "g"), vec![var(&mut t, "x")]);
    let body = call(var(&mut t, "f"), vec![inner]);
    let out = n.normalize_term(&mut t, Expression::Lambda(vec![x], Box::new(body)));
    let t0 = t.intern("newvar-0");
    let expected = Expression::Lambda(
        vec![x],
        Box::new(let_(
            t0,
            call(var(&mut t, "g"), vec![var(&mut t, "x")]),
            call(var(&mut t, "f"), vec![Expression::Variable(t0)]),
        )),
    );
    assert_eq!(out, expected);
}

#[test]
fn anf_names_a_complex_operator() {
    let mut t = SymbolTable::new();
    let mut n = AnormalTransform::new();
    let op = call(var(&mut t, "pick"), vec![]);
    let out = n.normalize_term(&mut t, call(op, vec![Expression::Integer(3)]));
    let t0 = t.intern("newvar-0");
    let expected = let_(
        t0,
        call(var(&mut t, "pick"), vec![]),
        call(Expression::Variable(t0), vec![Expression::Integer(3)]),
    );
    assert_eq!(out, expected);
}

#[test]
fn anf_rejects_non_definitions_at_top_level() {
    let mut t = SymbolTable::new();
    let mut n = AnormalTransform::new();
    let err = n.normalize_define(&mut t, Expression::Integer(1)).unwrap_err();
    assert_eq!(err.kind, ErrorKind::SyntaxError(Syntax::ExpectedDefinition));
    let z = t.intern("z");
    let err = n
        .normalize_program(&mut t, vec![Expression::DefVar(z, Box::new(Expression::Integer(1))), Expression::Nil])
        .unwrap_err();
    assert_eq!(err.kind, ErrorKind::SyntaxError(Syntax::ExpectedDefinition));
}

#[test]
fn end_to_end_square() {
    let mut t = SymbolTable::new();
    let src = parse(&mut t, "(define (sqr x) (* x x))");
    let mut a = Alphatizer::new();
    let renamed = a.transform(&mut t, &src).unwrap();
    let ir = Expression::from_object(&mut t, &renamed).unwrap();
    let mut n = AnormalTransform::new();
    let out = n.normalize_program(&mut t, vec![ir]).unwrap();
    assert_eq!(out.len(), 1);
    let sqr = t.intern("sqr");
    let x = t.intern("x");
    let expected = Expression::DefVar(
        sqr,
        Box::new(Expression::Lambda(
            vec![x],
            Box::new(call(var(&mut t, "*"), vec![Expression::Variable(x), Expression::Variable(x)])),
        )),
    );
    assert_eq!(out[0], expected);
    assert_eq!(n.var_counter, 0);
}

#[test]
fn end_to_end_with_lambda() {
    let mut t = SymbolTable::new();
    let src = parse(&mut t, "(define sqr (lambda (x) (* x x)))");
    let mut a = Alphatizer::new();
    let renamed = a.transform(&mut t, &src).unwrap();
    let ir = Expression::from_object(&mut t, &renamed).unwrap();
    let mut n = AnormalTransform::new();
    let out = n.normalize_program(&mut t, vec![ir]).unwrap();
    let x0 = t.intern("x0");
    let expected = Expression::DefVar(
        t.intern("sqr"),
        Box::new(Expression::Lambda(
            vec![x0],
            Box::new(call(var(&mut t, "*"), vec![Expression::Variable(x0), Expression::Variable(x0)])),
        )),
    );
    assert_eq!(out, vec![expected]);
}

#[test]
fn core_scheme_it_works() {
    let mut t = SymbolTable::new();
    let mut n = AnormalTransform::new();
    let nn = t.intern("n");
    let fact = t.intern("fact");
    let v = |s: Symbol| Expression::Variable(s);
    let e = Expression::Lambda(
        vec![nn],
        Box::new(Expression::If(
            Box::new(prim(vec![v(nn), Expression::Integer(0)])),
            Box::new(Expression::Integer(1)),
            Box::new(prim(vec![v(nn), call(v(fact), vec![prim(vec![v(nn), Expression::Integer(1)])])])),
        )),
    );
    let out = n.normalize_term(&mut t, e);
    println!("{:?}", out);
    let t0 = t.intern("newvar-0");
    let t1 = t.intern("newvar-1");
    let t2 = t.intern("newvar-2");
    let expected = Expression::Lambda(
        vec![nn],
        Box::new(let_(
            t0,
            prim(vec![v(nn), Expression::Integer(0)]),
            Expression::If(
                Box::new(v(t0)),
                Box::new(Expression::Integer(1)),
                Box::new(let_(
                    t2,
                    let_(t1, prim(vec![v(nn), Expression::Integer(1)]), call(v(fact), vec![v(t1)])),
                    prim(vec![v(nn), v(t2)]),
                )),
            ),
        )),
    );
    assert_eq!(out, expected);

    let x = t.intern("x");
    let y = t.intern("y");
    let c1 = t.intern("c1");
    let z = t.intern("z");
    let body = || {
        let_(
            x,
            Expression::If(
                Box::new(v(c1)),
                Box::new(prim(vec![Expression::Integer(1)])),
                Box::new(prim(vec![Expression::Integer(2)])),
            ),
            let_(
                y,
                Expression::If(Box::new(v(c1)), Box::new(prim(vec![v(x)])), Box::new(prim(vec![v(x)]))),
                v(y),
            ),
        )
    };
    let out = n.normalize_term(&mut t, body());
    println!("{:?}", out);
    assert_eq!(out, body());
    let out = n.normalize_define(&mut t, Expression::DefVar(z, Box::new(body()))).unwrap();
    println!("{:?}", out);
    assert_eq!(out, Expression::DefVar(z, Box::new(body())));

    let src = parse(&mut t, "(define (sillyfunc x) (+ x (sqr (- x ref))))");
    let ir = Expression::from_object(&mut t, &src).unwrap();
    let out = n.normalize_program(&mut t, vec![ir]).unwrap();
    println!("{:?}", out);
    let t3 = t.intern("newvar-3");
    let t4 = t.intern("newvar-4");
    let expected = Expression::DefVar(
        t.intern("sillyfunc"),
        Box::new(Expression::Lambda(
            vec![x],
            Box::new(let_(
                t4,
                let_(
                    t3,
                    call(var(&mut t, "-"), vec![v(x), var(&mut t, "ref")]),
                    call(var(&mut t, "sqr"), vec![v(t3)]),
                ),
                call(var(&mut t, "+"), vec![v(x), v(t4)]),
            )),
        )),
    );
    assert_eq!(out, vec![expected]);
}

#[test]
fn expression_node_count() {
    let mut t = SymbolTable::new();
    let e = call(var(&mut t, "f"), vec![Expression::Integer(1), prim(vec![Expression::Nil])]);
    assert_eq!(e.node_count(), Some(6));
    assert_eq!(Expression::Integer(0).node_count(), Some(1));
    let x = t.intern("x");
    assert_eq!(let_(x, Expression::Integer(1), var(&mut t, "x")).node_count(), Some(3));
}

#[test]
fn alphatize_avoids_capturing_a_free_name() {
    let mut t = SymbolTable::new();
    let mut alphatizer = Alphatizer::new();
    assert_source_eq(&mut alphatizer, &mut t, "(lambda (x) x0)", "(lambda (x0') x0)");
}

#[test]
fn alphatize_names_from_different_lambdas_differ() {
    let mut t = SymbolTable::new();
    let mut alphatizer = Alphatizer::new();
    let input = parse(
        &mut t,
        "(lambda (x1 a b c d e f g h i) (lambda (x) (x1 x)))",
    );
    let out = alphatizer.transform(&mut t, &input).unwrap();
    assert_eq!(
        out,
        parse(
            &mut t,
            "(lambda (x10 a1 b2 c3 d4 e5 f6 g7 h8 i9) (lambda (x10') (x10 x10')))",
        )
    );
}

#[test]
fn ir_rejects_plain_define_inside_an_expression() {
    let mut t = SymbolTable::new();
    let src = parse(&mut t, "(f (define x 1))");
    let inner = src.get_ref(1).unwrap().deep_clone();
    let err = Expression::from_object(&mut t, &src).unwrap_err();
    assert_eq!(err.kind, ErrorKind::UnknownExpressionType(inner));
    let top = parse(&mut t, "(define x 1)");
    assert!(Expression::from_object(&mut t, &top).is_ok());
}

#[test]
fn anf_temporaries_avoid_source_names() {
    let mut t = SymbolTable::new();
    let mut n = AnormalTransform::new();
    let taken = t.intern("newvar-0");
    let e = prim(vec![call(var(&mut t, "f"), vec![Expression::Variable(taken)])]);
    let out = n.normalize_term(&mut t, e);
    let fresh = t.intern("newvar-0'");
    assert_ne!(fresh, taken);
    let expected = let_(
        fresh,
        call(var(&mut t, "f"), vec![Expression::Variable(taken)]),
        prim(vec![Expression::Variable(fresh)]),
    );
    assert_eq!(out, expected);
}

#[test]
fn anf_names_a_let_operand_as_a_whole() {
    let mut t = SymbolTable::new();
    let mut n = AnormalTransform::new();
    let v = t.intern("v");
    let operand = let_(v, call(var(&mut t, "f"), vec![var(&mut t, "x")]), Expression::Variable(v));
    let (bs, value) = n.normalize_name(&mut t, operand);
    let t0 = t.intern("newvar-0");
    assert_eq!(value, Expression::Variable(t0));
    assert_eq!(bs.len(), 1);
    assert_eq!(bs[0].0, t0);
    assert_eq!(bs[0].1, let_(v, call(var(&mut t, "f"), vec![var(&mut t, "x")]), Expression::Variable(v)));
}

#[test]
fn expression_symbols_within() {
    let mut t = SymbolTable::new();
    let e = call(var(&mut t, "f"), vec![var(&mut t, "x")]);
    assert!(e.symbols_within(t.len()));
    assert!(!e.symbols_within(1));
    assert!(Expression::Integer(3).symbols_within(0));
}

#[test]
fn anf_temporaries_are_new_symbols() {
    let mut t = SymbolTable::new();
    let mut n = AnormalTransform::new();
    let e = prim(vec![call(var(&mut t, "f"), vec![var(&mut t, "x")])]);
    let before = t.len();
    let (bs, _) = n.normalize(&mut t, e);
    assert_eq!(bs.len(), 1);
    assert!(bs[0].0.id() >= before);
}
