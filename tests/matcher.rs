use jetski::matcher::{match_pattern, switch, switch_by, Pattern};
use jetski::object::Object;
use jetski::symbol::SymbolTable;

fn sym(t: &mut SymbolTable, name: &str) -> Object {
    Object::symbol(t, name)
}

fn lit(t: &mut SymbolTable, name: &str) -> Pattern {
    Pattern::Symbol(t.intern(name))
}

fn list(items: Vec<Object>) -> Object {
    let mut r = Object::nil();
    for x in items.into_iter().rev() {
        r = Object::cons(x, r);
    }
    r
}

fn ints(xs: &[i64]) -> Object {
    list(xs.iter().map(|x| Object::integer(*x)).collect())
}

fn name_of(t: &SymbolTable, o: &Object) -> String {
    t.name_of(o.as_symbol().unwrap()).to_string()
}

#[test]
fn expression_matcher_simple_match_constant() {
    let mut t = SymbolTable::new();
    let xyz = sym(&mut t, "xyz");
    let p = lit(&mut t, "xyz");
    assert_eq!(Some(vec![]), match_pattern(&p, &xyz));
    assert_eq!(Some(vec![]), match_pattern(&Pattern::Integer(42), &Object::integer(42)));
}

#[test]
fn simple_mismatch_constant() {
    let mut t = SymbolTable::new();
    let abc = sym(&mut t, "abc");
    let xyz = lit(&mut t, "xyz");
    assert_eq!(None, match_pattern(&xyz, &abc));
    assert_eq!(None, match_pattern(&Pattern::Integer(1), &abc));
    assert_eq!(None, match_pattern(&xyz, &Object::integer(42)));
    assert_eq!(None, match_pattern(&Pattern::Integer(2), &Object::integer(42)));
}

#[test]
fn simple_match_any() {
    let mut t = SymbolTable::new();
    let xyz = sym(&mut t, "xyz");
    assert_eq!(Some(vec![]), match_pattern(&Pattern::Any, &xyz));
}

#[test]
fn simple_match_any_bound() {
    let mut t = SymbolTable::new();
    let y = sym(&mut t, "y");
    assert_eq!(Some(vec![&y]), match_pattern(&Pattern::Capture, &y));
    let n = Object::integer(42);
    assert_eq!(Some(vec![&n]), match_pattern(&Pattern::Capture, &n));
}

#[test]
fn simple_match_variant_bound() {
    let mut t = SymbolTable::new();
    let y = sym(&mut t, "y");
    let caps = match_pattern(&Pattern::Capture, &y).unwrap();
    assert_eq!("y", name_of(&t, caps[0]));
    let n = Object::integer(42);
    let caps = match_pattern(&Pattern::Capture, &n).unwrap();
    assert_eq!(Some(42), caps[0].try_as_integer());
}

#[test]
fn unarylist_mismatch() {
    let mut t = SymbolTable::new();
    let abc = sym(&mut t, "abc");
    let p = Pattern::List(vec![Pattern::Any]);
    assert_eq!(None, match_pattern(&p, &abc));
    let pair = Object::cons(Object::integer(1), Object::integer(2));
    assert_eq!(None, match_pattern(&p, &pair));
}

#[test]
fn unarylist_match_any() {
    let pair = Object::cons(Object::integer(5), Object::nil());
    assert_eq!(Some(vec![]), match_pattern(&Pattern::List(vec![Pattern::Any]), &pair));
}

#[test]
fn unarylist_match_any_bound() {
    let pair = Object::cons(Object::integer(5), Object::nil());
    assert_eq!(Some(vec![&Object::integer(5)]), match_pattern(&Pattern::List(vec![Pattern::Capture]), &pair));
}

#[test]
fn unarylist_match_variant_bound() {
    let mut t = SymbolTable::new();
    let pair = Object::cons(sym(&mut t, "hello"), Object::nil());
    let caps = match_pattern(&Pattern::List(vec![Pattern::Capture]), &pair).unwrap();
    assert_eq!("hello", name_of(&t, caps[0]));
}

#[test]
fn list_mismatch() {
    let mut t = SymbolTable::new();
    let p = Pattern::List(vec![Pattern::Any, Pattern::Any]);
    assert_eq!(None, match_pattern(&p, &sym(&mut t, "abc")));
    assert_eq!(None, match_pattern(&p, &ints(&[1])));
}

#[test]
fn list_match_any() {
    let p = Pattern::List(vec![Pattern::Any, Pattern::Any, Pattern::Any]);
    assert_eq!(Some(vec![]), match_pattern(&p, &ints(&[1, 2, 3])));
}

#[test]
fn list_match_any_bound() {
    let p = Pattern::List(vec![Pattern::Capture, Pattern::Capture, Pattern::Capture]);
    let l = ints(&[1, 2, 3]);
    assert_eq!(
        Some(vec![&Object::integer(1), &Object::integer(2), &Object::integer(3)]),
        match_pattern(&p, &l)
    );
}

#[test]
fn list_match_variant_bound() {
    let mut t = SymbolTable::new();
    let l = list(vec![Object::integer(1), sym(&mut t, "two"), Object::integer(3)]);
    let p = Pattern::List(vec![Pattern::Capture, Pattern::Capture, Pattern::Capture]);
    let caps = match_pattern(&p, &l).unwrap();
    assert_eq!(
        (1, "two".to_string(), 3),
        (caps[0].try_as_integer().unwrap(), name_of(&t, caps[1]), caps[2].try_as_integer().unwrap())
    );
}

#[test]
fn expression_matcher_nested_list() {
    let mut t = SymbolTable::new();
    let l = list(vec![
        Object::integer(1),
        list(vec![sym(&mut t, "2a"), sym(&mut t, "2b")]),
        Object::integer(3),
    ]);
    let p = Pattern::List(vec![
        Pattern::Capture,
        Pattern::List(vec![lit(&mut t, "2a"), Pattern::Capture]),
        Pattern::Any,
    ]);
    let caps = match_pattern(&p, &l).unwrap();
    assert_eq!((&Object::integer(1), "2b".to_string()), (caps[0], name_of(&t, caps[1])));
}

#[test]
fn list_match_tail() {
    let l = ints(&[0, 1, 2, 3]);
    let p = Pattern::ListRest(vec![Pattern::Integer(0), Pattern::Integer(1)], Box::new(Pattern::Capture));
    assert_eq!(Some(vec![&ints(&[2, 3])]), match_pattern(&p, &l));
    let p = Pattern::ListRest(vec![Pattern::Any, Pattern::Any], Box::new(Pattern::Capture));
    assert_eq!(Some(vec![&ints(&[2, 3])]), match_pattern(&p, &l));
}

#[test]
fn list_match_ignore_tail() {
    let l = ints(&[0, 1, 2, 3]);
    let p = Pattern::ListRest(vec![Pattern::Integer(0), Pattern::Capture], Box::new(Pattern::Any));
    assert_eq!(Some(1), match_pattern(&p, &l).unwrap()[0].try_as_integer());
    let p = Pattern::ListRest(vec![Pattern::Any, Pattern::Capture], Box::new(Pattern::Any));
    assert_eq!(Some(vec![&Object::integer(1)]), match_pattern(&p, &l));
}

#[test]
fn expression_matcher_pair_match() {
    let l = Object::cons(Object::integer(0), Object::integer(1));
    let p = Pattern::ListRest(vec![Pattern::Capture], Box::new(Pattern::Capture));
    let caps = match_pattern(&p, &l).unwrap();
    assert_eq!((Some(0), Some(1)), (caps[0].try_as_integer(), caps[1].try_as_integer()));
    assert_eq!(Some(vec![&Object::integer(0), &Object::integer(1)]), match_pattern(&p, &l));
}

#[test]
fn simple_mismatch_sconstant() {
    let mut t = SymbolTable::new();
    let xyz = sym(&mut t, "xyz");
    assert_eq!(None, match_pattern(&lit(&mut t, "abc"), &xyz));
    assert_eq!(None, match_pattern(&Pattern::Integer(42), &Object::integer(666)));
    assert_eq!(None, match_pattern(&Pattern::List(vec![]), &Object::integer(42)));
}

#[test]
fn scheme_matcher_simple_match_constant() {
    let mut t = SymbolTable::new();
    let xyz = sym(&mut t, "xyz");
    assert_eq!(Some(vec![]), match_pattern(&lit(&mut t, "xyz"), &xyz));
    assert_eq!(Some(vec![]), match_pattern(&Pattern::Integer(42), &Object::integer(42)));
    assert_eq!(Some(vec![]), match_pattern(&Pattern::List(vec![]), &Object::nil()));
    assert_eq!(Some(vec![]), match_pattern(&Pattern::Any, &xyz));
}

#[test]
fn simple_match_bound() {
    let mut t = SymbolTable::new();
    let xyz = sym(&mut t, "xyz");
    assert_eq!(Some(vec![&xyz]), match_pattern(&Pattern::Capture, &xyz));
    assert_eq!(Some(vec![&Object::integer(42)]), match_pattern(&Pattern::Capture, &Object::integer(42)));
    assert_eq!(Some(vec![&Object::nil()]), match_pattern(&Pattern::Capture, &Object::nil()));
}

#[test]
fn unary_list() {
    let mut t = SymbolTable::new();
    let l = ints(&[42]);
    assert_eq!(Some(vec![]), match_pattern(&Pattern::List(vec![Pattern::Integer(42)]), &l));
    let l = list(vec![sym(&mut t, "alpha")]);
    assert_eq!(Some(vec![]), match_pattern(&Pattern::List(vec![lit(&mut t, "alpha")]), &l));
}

#[test]
fn unary_list_bound() {
    let l = ints(&[42]);
    assert_eq!(Some(vec![&Object::integer(42)]), match_pattern(&Pattern::List(vec![Pattern::Capture]), &l));
}

#[test]
fn list_match() {
    let l = ints(&[1, 2, 3]);
    let any = || Pattern::Any;
    assert_eq!(None, match_pattern(&Pattern::List(vec![any(), any()]), &l));
    assert_eq!(Some(vec![]), match_pattern(&Pattern::List(vec![any(), any(), any()]), &l));
    assert_eq!(None, match_pattern(&Pattern::List(vec![any(), any(), any(), any()]), &l));
    assert_eq!(
        Some(vec![&Object::integer(1)]),
        match_pattern(&Pattern::List(vec![Pattern::Capture, any(), any()]), &l)
    );
    assert_eq!(
        Some(vec![&Object::integer(2)]),
        match_pattern(&Pattern::List(vec![any(), Pattern::Capture, any()]), &l)
    );
    assert_eq!(
        Some(vec![&Object::integer(3)]),
        match_pattern(&Pattern::List(vec![any(), any(), Pattern::Capture]), &l)
    );
}

#[test]
fn scheme_matcher_nested_list() {
    let mut t = SymbolTable::new();
    let l = list(vec![
        Object::integer(1),
        list(vec![sym(&mut t, "a2"), sym(&mut t, "b2")]),
        Object::integer(3),
    ]);
    let p = Pattern::List(vec![
        Pattern::Capture,
        Pattern::List(vec![lit(&mut t, "a2"), Pattern::Capture]),
        Pattern::Any,
    ]);
    let b2 = sym(&mut t, "b2");
    assert_eq!(Some(vec![&Object::integer(1), &b2]), match_pattern(&p, &l));
}

#[test]
fn scheme_matcher_pair_match() {
    let pair = Object::cons(Object::integer(1), Object::integer(2));
    let any = || Pattern::Any;
    assert_eq!(None, match_pattern(&Pattern::List(vec![any(), any()]), &pair));
    assert_eq!(Some(vec![]), match_pattern(&Pattern::ListRest(vec![any()], Box::new(any())), &pair));
    assert_eq!(None, match_pattern(&Pattern::List(vec![any(), any(), any()]), &pair));
    assert_eq!(
        Some(vec![&Object::integer(1)]),
        match_pattern(&Pattern::ListRest(vec![Pattern::Capture], Box::new(any())), &pair)
    );
    assert_eq!(
        Some(vec![&Object::integer(2)]),
        match_pattern(&Pattern::ListRest(vec![any()], Box::new(Pattern::Capture)), &pair)
    );
}

#[test]
fn switch_one_clause() {
    let five = Object::integer(5);
    let (k, caps) = switch(&vec![Pattern::Capture], &five).unwrap();
    assert_eq!(k, 0);
    assert_eq!(caps[0], &Object::integer(5));

    let value = match switch(&vec![Pattern::Any], &Object::nil()) {
        Some((0, _)) => 42,
        _ => unreachable!(),
    };
    assert_eq!(value, 42);
}

#[test]
fn switch_n_clauses() {
    let clauses = vec![Pattern::Integer(4), Pattern::Any];
    let value = match switch(&clauses, &Object::integer(5)) {
        Some((0, _)) => 42,
        Some((1, _)) => 0,
        _ => unreachable!(),
    };
    assert_eq!(value, 0);
}

#[test]
fn switch_without_a_match() {
    let clauses = vec![Pattern::Integer(1), Pattern::Integer(2), Pattern::Integer(3)];
    assert!(switch(&clauses, &Object::integer(5)).is_none());
}

#[test]
fn switch_takes_the_first_matching_clause() {
    let clauses = vec![Pattern::Integer(1), Pattern::Capture, Pattern::Any];
    let five = Object::integer(5);
    let (k, caps) = switch(&clauses, &five).unwrap();
    assert_eq!(k, 1);
    assert_eq!(caps, vec![&five]);
}

#[test]
fn list_pattern_rejects_other_lengths() {
    let p = Pattern::List(vec![Pattern::Any, Pattern::Any]);
    assert!(match_pattern(&p, &ints(&[])).is_none());
    assert!(match_pattern(&p, &ints(&[1])).is_none());
    assert!(match_pattern(&p, &ints(&[1, 2])).is_some());
    assert!(match_pattern(&p, &ints(&[1, 2, 3])).is_none());
    let dotted = Object::cons(Object::integer(1), Object::cons(Object::integer(2), Object::integer(3)));
    assert!(match_pattern(&p, &dotted).is_none());
}

#[test]
fn literal_pattern_matches_only_its_atom() {
    let mut t = SymbolTable::new();
    let p = Pattern::Integer(7);
    assert!(match_pattern(&p, &Object::integer(7)).is_some());
    assert!(match_pattern(&p, &Object::integer(8)).is_none());
    assert!(match_pattern(&p, &ints(&[7])).is_none());
    let s = lit(&mut t, "a");
    assert!(match_pattern(&s, &sym(&mut t, "a")).is_some());
    assert!(match_pattern(&s, &sym(&mut t, "b")).is_none());
    assert!(match_pattern(&s, &Object::string("a".to_string())).is_none());
}

#[test]
fn switch_predicate() {
    let preds: Vec<fn(&Object) -> bool> = vec![|_| false, |_| true];
    let value = match switch_by(&preds, &Object::integer(4)) {
        Some(0) => 1,
        Some(1) => 2,
        _ => unreachable!(),
    };
    assert_eq!(value, 2);
}

#[test]
fn switch_predicate_without_a_match() {
    let preds: Vec<fn(&Object) -> bool> = vec![|o| o.is_null(), |o| o.is_symbol()];
    assert_eq!(switch_by(&preds, &Object::integer(4)), None);
    assert_eq!(switch_by(&preds, &Object::nil()), Some(0));
}
