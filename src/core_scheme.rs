//! The expression IR and its conversion to administrative normal form.
//!
//! [`Expression::from_object`] reads a tree through the structural matcher,
//! trying the templates of the recognized forms in order.
//!
//! Normalization follows the continuation-passing formulation: normalizing
//! `e` under a continuation `k` yields `k` applied to the value of `e`,
//! wrapped in the `let` bindings that computing that value requires. Here the
//! continuation is represented by what it receives: [`AnormalTransform::normalize`]
//! returns those bindings, in order, together with the expression for the
//! value, and the caller builds the rest around them.

use vstd::prelude::*;
use crate::error::{not_a_pair, syntax_error, Error, ErrorKind, Syntax};
use crate::alphatize::{lambda_name, lemma_lambda_template};
use crate::object::{Object, TaggedValue};
use crate::matcher::{derefs, match_spec, prefix_spec, switch, Pattern, SchemeExpression};
use crate::symbol::{decimal, fresh_spec, interned, push_decimal, Symbol, SymbolTable};

verus! {

broadcast use vstd::std_specs::vec::group_vec_axioms, vstd::seq::group_seq_axioms;

/// An expression of the IR.
#[derive(Debug, PartialEq)]
pub enum Expression {
    Nil,
    Integer(i64),
    /// A float, held as its IEEE-754 bit pattern.
    Float(u64),
    Variable(Symbol),
    Lambda(Vec<Symbol>, Box<Expression>),
    /// The operator of a call to a built-in operation.
    Primitive,
    Let(Symbol, Box<Expression>, Box<Expression>),
    If(Box<Expression>, Box<Expression>, Box<Expression>),
    Apply(Box<Expression>, Vec<Expression>),
    DefVar(Symbol, Box<Expression>),
    DeFunc(Symbol, Vec<Symbol>, Box<Expression>),
}

/// The mathematical form of an [`Expression`].
pub enum ExprModel {
    Nil,
    Integer(i64),
    Float(u64),
    Variable(Symbol),
    Lambda(Seq<Symbol>, Box<ExprModel>),
    Primitive,
    Let(Symbol, Box<ExprModel>, Box<ExprModel>),
    If(Box<ExprModel>, Box<ExprModel>, Box<ExprModel>),
    Apply(Box<ExprModel>, Seq<ExprModel>),
    DefVar(Symbol, Box<ExprModel>),
    DeFunc(Symbol, Seq<Symbol>, Box<ExprModel>),
}

/// The models of a sequence of expressions.
pub open spec fn views_of(s: Seq<Expression>) -> Seq<ExprModel>
    decreases s,
{
    if s.len() == 0 {
        Seq::empty()
    } else {
        views_of(s.drop_last()).push(s.last().view_model())
    }
}

impl Expression {
    pub open spec fn view_model(self) -> ExprModel
        decreases self,
    {
        match self {
            Expression::Nil => ExprModel::Nil,
            Expression::Integer(i) => ExprModel::Integer(i),
            Expression::Float(f) => ExprModel::Float(f),
            Expression::Variable(v) => ExprModel::Variable(v),
            Expression::Lambda(ps, b) => ExprModel::Lambda(ps@, Box::new(b.view_model())),
            Expression::Primitive => ExprModel::Primitive,
            Expression::Let(v, i, b) => ExprModel::Let(v, Box::new(i.view_model()), Box::new(b.view_model())),
            Expression::If(c, y, n) => ExprModel::If(
                Box::new(c.view_model()),
                Box::new(y.view_model()),
                Box::new(n.view_model()),
            ),
            Expression::Apply(p, args) => ExprModel::Apply(Box::new(p.view_model()), views_of(args@)),
            Expression::DefVar(v, e) => ExprModel::DefVar(v, Box::new(e.view_model())),
            Expression::DeFunc(v, ps, b) => ExprModel::DeFunc(v, ps@, Box::new(b.view_model())),
        }
    }
}

impl View for Expression {
    type V = ExprModel;

    open spec fn view(&self) -> ExprModel {
        self.view_model()
    }
}

/// Forms that denote a value without further evaluation.
pub open spec fn atomic(e: ExprModel) -> bool {
    match e {
        ExprModel::Integer(_) | ExprModel::Float(_) | ExprModel::Variable(_) | ExprModel::Lambda(_, _)
        | ExprModel::Primitive => true,
        _ => false,
    }
}

/// A binding made before a value is used: a temporary or a `let` variable
/// and the expression it is bound to.
pub type Binding = (Symbol, ExprModel);

/// What normalization threads along: the temporary counter and the names
/// interned so far.
pub type NState = (nat, Seq<Seq<char>>);

pub open spec fn newvar_prefix() -> Seq<char> {
    seq!['n', 'e', 'w', 'v', 'a', 'r', '-']
}

/// The table after making the temporary numbered `st.0`, and that
/// temporary: a new symbol named `newvar-` and the number (and primes if
/// that name is taken).
pub open spec fn new_var_spec(st: NState) -> (NState, Symbol) {
    let (names, t) = fresh_spec(st.1, newvar_prefix() + decimal(st.0));
    ((st.0 + 1, names), t)
}

/// The `let` bindings of `bs`, outermost first, around `body`.
pub open spec fn wrap(bs: Seq<Binding>, body: ExprModel) -> ExprModel
    decreases bs.len(),
{
    if bs.len() == 0 {
        body
    } else {
        ExprModel::Let(bs[0].0, Box::new(bs[0].1), Box::new(wrap(bs.drop_first(), body)))
    }
}

/// Normalizing `e` under a continuation `k` gives `wrap(bs, k(c))`, where
/// `(bs, c)` is this: the bindings that computing `e` requires, in order of
/// evaluation, and the expression for its value.
pub open spec fn norm_spec(e: ExprModel, st: NState) -> (Seq<Binding>, ExprModel, NState)
    decreases e, 1nat,
{
    match e {
        ExprModel::Lambda(ps, body) => {
            let (b, st1) = term_spec(*body, st);
            (Seq::empty(), ExprModel::Lambda(ps, Box::new(b)), st1)
        },
        ExprModel::Let(v, init, body) => {
            let (bs1, c1, st1) = norm_spec(*init, st);
            let (bs2, c2, st2) = norm_spec(*body, st1);
            (bs1.push((v, c1)) + bs2, c2, st2)
        },
        ExprModel::If(c, yes, no) => {
            let (bs, t, st1) = name_spec(*c, st);
            let (y, st2) = term_spec(*yes, st1);
            let (n, st3) = term_spec(*no, st2);
            (bs, ExprModel::If(Box::new(t), Box::new(y), Box::new(n)), st3)
        },
        ExprModel::Apply(p, args) => if *p == ExprModel::Primitive {
            let (bs, ts, st1) = names_spec(args, st);
            (bs, ExprModel::Apply(p, ts), st1)
        } else {
            let (bs1, t, st1) = name_spec(*p, st);
            let (bs2, ts, st2) = names_spec(args, st1);
            (bs1 + bs2, ExprModel::Apply(Box::new(t), ts), st2)
        },
        _ => (Seq::empty(), e, st),
    }
}

/// Normalizes `e` under the identity continuation and forces the result
/// atomic: an atomic result is passed on, any other is bound to a fresh
/// temporary, which stands for it.
pub open spec fn name_spec(e: ExprModel, st: NState) -> (Seq<Binding>, ExprModel, NState)
    decreases e, 2nat,
{
    let (bs, c, st1) = norm_spec(e, st);
    if bs.len() == 0 && atomic(c) {
        (bs, c, st1)
    } else {
        let (st2, t) = new_var_spec(st1);
        (seq![(t, wrap(bs, c))], ExprModel::Variable(t), st2)
    }
}

/// Names each of `es`, left to right.
pub open spec fn names_spec(es: Seq<ExprModel>, st: NState) -> (Seq<Binding>, Seq<ExprModel>, NState)
    decreases es, 0nat,
{
    if es.len() == 0 {
        (Seq::empty(), Seq::empty(), st)
    } else {
        let (bs1, t, st1) = name_spec(es[0], st);
        let (bs2, ts, st2) = names_spec(es.drop_first(), st1);
        (bs1 + bs2, seq![t] + ts, st2)
    }
}

/// Normalizes `e` under the identity continuation.
pub open spec fn term_spec(e: ExprModel, st: NState) -> (ExprModel, NState)
    decreases e, 2nat,
{
    let (bs, c, st1) = norm_spec(e, st);
    (wrap(bs, c), st1)
}

/// The number of nodes of `e`.
pub open spec fn expr_size(e: ExprModel) -> nat
    decreases e, 1nat,
{
    match e {
        ExprModel::Lambda(_, b) => 1 + expr_size(*b),
        ExprModel::Let(_, i, b) => 1 + expr_size(*i) + expr_size(*b),
        ExprModel::If(c, y, n) => 1 + expr_size(*c) + expr_size(*y) + expr_size(*n),
        ExprModel::Apply(p, args) => 1 + expr_size(*p) + sizes(args),
        ExprModel::DefVar(_, b) => 1 + expr_size(*b),
        ExprModel::DeFunc(_, _, b) => 1 + expr_size(*b),
        _ => 1,
    }
}

/// The number of nodes of all of `es`.
pub open spec fn sizes(es: Seq<ExprModel>) -> nat
    decreases es, 0nat,
{
    if es.len() == 0 {
        0
    } else {
        expr_size(es[0]) + sizes(es.drop_first())
    }
}

/// The models of a sequence of bindings.
pub open spec fn binding_views(s: Seq<(Symbol, Expression)>) -> Seq<Binding> {
    s.map_values(|b: (Symbol, Expression)| (b.0, b.1@))
}

proof fn lemma_views_of(s: Seq<Expression>)
    ensures
        views_of(s).len() == s.len(),
        forall|i: int| 0 <= i < s.len() ==> #[trigger] views_of(s)[i] == s[i]@,
    decreases s.len(),
{
    if s.len() > 0 {
        lemma_views_of(s.drop_last());
        assert forall|i: int| 0 <= i < s.len() implies #[trigger] views_of(s)[i] == s[i]@ by {
            if i < s.len() - 1 {
                assert(s.drop_last()[i] == s[i]);
            }
        }
    }
}

/// Two sequences of expressions with equal elements have equal models.
proof fn lemma_views_of_ext(s: Seq<Expression>, m: Seq<ExprModel>)
    requires
        s.len() == m.len(),
        forall|i: int| 0 <= i < s.len() ==> #[trigger] s[i]@ == m[i],
    ensures
        views_of(s) == m,
{
    lemma_views_of(s);
    assert(views_of(s) =~= m);
}

proof fn lemma_wrap_push(bs: Seq<Binding>, b: Binding, body: ExprModel)
    ensures
        wrap(bs.push(b), body) == wrap(bs, ExprModel::Let(b.0, Box::new(b.1), Box::new(body))),
    decreases bs.len(),
{
    if bs.len() > 0 {
        assert(bs.push(b).drop_first() =~= bs.drop_first().push(b));
        assert(bs.push(b)[0] == bs[0]);
        lemma_wrap_push(bs.drop_first(), b, body);
    } else {
        assert(bs.push(b).drop_first() =~= Seq::<Binding>::empty());
        assert(bs.push(b)[0] == b);
        assert(wrap(Seq::<Binding>::empty(), body) == body);
    }
}

/// Every symbol in `e` has an index below `n`: it was interned in a table of
/// at least `n` names.
pub open spec fn expr_symbols_below(e: ExprModel, n: nat) -> bool
    decreases e, 1nat,
{
    match e {
        ExprModel::Variable(v) => v.spec_id() < n,
        ExprModel::Lambda(ps, b) => symbols_in_below(ps, n) && expr_symbols_below(*b, n),
        ExprModel::Let(v, i, b) => v.spec_id() < n && expr_symbols_below(*i, n) && expr_symbols_below(*b, n),
        ExprModel::If(c, y, m) => expr_symbols_below(*c, n) && expr_symbols_below(*y, n) && expr_symbols_below(*m, n),
        ExprModel::Apply(p, args) => expr_symbols_below(*p, n) && all_symbols_below(args, n),
        ExprModel::DefVar(v, b) => v.spec_id() < n && expr_symbols_below(*b, n),
        ExprModel::DeFunc(v, ps, b) => v.spec_id() < n && symbols_in_below(ps, n) && expr_symbols_below(*b, n),
        _ => true,
    }
}

/// Every symbol in each of `es` has an index below `n`.
pub open spec fn all_symbols_below(es: Seq<ExprModel>, n: nat) -> bool
    decreases es, 0nat,
{
    es.len() == 0 || (expr_symbols_below(es[0], n) && all_symbols_below(es.drop_first(), n))
}

/// Every symbol of `ps` has an index below `n`.
pub open spec fn symbols_in_below(ps: Seq<Symbol>, n: nat) -> bool {
    forall|i: int| 0 <= i < ps.len() ==> (#[trigger] ps[i]).spec_id() < n
}

proof fn lemma_expr_symbols_grow(e: ExprModel, n: nat, m: nat)
    requires
        expr_symbols_below(e, n),
        n <= m,
    ensures
        expr_symbols_below(e, m),
    decreases e, 1nat,
{
    match e {
        ExprModel::Lambda(_, b) => lemma_expr_symbols_grow(*b, n, m),
        ExprModel::Let(_, i, b) => {
            lemma_expr_symbols_grow(*i, n, m);
            lemma_expr_symbols_grow(*b, n, m);
        },
        ExprModel::If(c, y, z) => {
            lemma_expr_symbols_grow(*c, n, m);
            lemma_expr_symbols_grow(*y, n, m);
            lemma_expr_symbols_grow(*z, n, m);
        },
        ExprModel::Apply(p, args) => {
            lemma_expr_symbols_grow(*p, n, m);
            lemma_all_symbols_grow(args, n, m);
        },
        ExprModel::DefVar(_, b) => lemma_expr_symbols_grow(*b, n, m),
        ExprModel::DeFunc(_, _, b) => lemma_expr_symbols_grow(*b, n, m),
        _ => {},
    }
}

proof fn lemma_all_symbols_grow(es: Seq<ExprModel>, n: nat, m: nat)
    requires
        all_symbols_below(es, n),
        n <= m,
    ensures
        all_symbols_below(es, m),
    decreases es, 0nat,
{
    if es.len() > 0 {
        lemma_expr_symbols_grow(es[0], n, m);
        lemma_all_symbols_grow(es.drop_first(), n, m);
    }
}

/// `v` is the variable of a `let` on the spine of `e`: `e` itself or, going
/// down, the initializers and bodies of `let`s. Normalizing `e` lifts
/// exactly these bindings out.
pub open spec fn spine_let(e: ExprModel, v: Symbol) -> bool
    decreases e,
{
    match e {
        ExprModel::Let(x, i, b) => x == v || spine_let(*i, v) || spine_let(*b, v),
        _ => false,
    }
}

/// Every variable that `bs` binds has an index of at least `lo`: it is a
/// temporary made after a table of `lo` names.
pub open spec fn temporaries_from(bs: Seq<Binding>, lo: nat) -> bool {
    forall|i: int| 0 <= i < bs.len() ==> (#[trigger] bs[i]).0.spec_id() >= lo
}

/// Every variable that `bs` binds is a temporary as in `temporaries_from`,
/// or the variable of a `let` on the spine of `e`.
pub open spec fn bindings_from(bs: Seq<Binding>, lo: nat, e: ExprModel) -> bool {
    forall|i: int| 0 <= i < bs.len() ==> (#[trigger] bs[i]).0.spec_id() >= lo || spine_let(e, bs[i].0)
}

proof fn lemma_temporaries_concat(a: Seq<Binding>, b: Seq<Binding>, lo: nat)
    requires
        temporaries_from(a, lo),
        temporaries_from(b, lo),
    ensures
        temporaries_from(a + b, lo),
{
    assert forall|i: int| 0 <= i < (a + b).len() implies (#[trigger] (a + b)[i]).0.spec_id() >= lo by {
        if i < a.len() {
            assert((a + b)[i] == a[i]);
        } else {
            assert((a + b)[i] == b[i - a.len()]);
        }
    }
}

impl Expression {
    /// Whether this denotes a value without further evaluation.
    pub fn is_atomic(&self) -> (r: bool)
        ensures
            r == atomic(self@),
    {
        match self {
            Expression::Integer(_) | Expression::Float(_) | Expression::Variable(_) | Expression::Lambda(_, _)
            | Expression::Primitive => true,
            _ => false,
        }
    }
}

/// The `let` bindings of `bs`, outermost first, around `body`.
fn wrap_bindings(bs: Vec<(Symbol, Expression)>, body: Expression) -> (r: Expression)
    ensures
        r@ == wrap(binding_views(bs@), body@),
{
    let ghost all = binding_views(bs@);
    let mut bs = bs;
    let mut acc = body;
    while bs.len() > 0
        invariant
            wrap(all, body@) == wrap(binding_views(bs@), acc@),
        decreases bs@.len(),
    {
        let ghost before = bs@;
        let (v, init) = bs.pop().unwrap();
        proof {
            assert(binding_views(before) =~= binding_views(bs@).push((v, init@)));
            lemma_wrap_push(binding_views(bs@), (v, init@), acc@);
        }
        acc = Expression::Let(v, Box::new(init), Box::new(acc));
    }
    acc
}

/// Converts expressions to administrative normal form, numbering the
/// temporaries it introduces.
pub struct AnormalTransform {
    pub var_counter: usize,
}

impl AnormalTransform {
    pub fn new() -> (r: AnormalTransform)
        ensures
            r.var_counter == 0,
    {
        AnormalTransform { var_counter: 0 }
    }

    /// A fresh temporary, `newvar-N` with the counter at N, followed by
    /// primes if that name is already in the table.
    pub fn new_var(&mut self, table: &mut SymbolTable) -> (r: Symbol)
        requires
            old(table).wf(),
            old(self).var_counter < usize::MAX,
        ensures
            final(table).wf(),
            ((final(self).var_counter as nat, final(table)@), r) == new_var_spec(
                (old(self).var_counter as nat, old(table)@),
            ),
            r.spec_id() == old(table)@.len(),
            final(table)@.len() == old(table)@.len() + 1,
    {
        proof {
            reveal_strlit("newvar-");
            assert("newvar-"@ =~= newvar_prefix());
        }
        let mut name = String::from_str("newvar-");
        push_decimal(&mut name, self.var_counter);
        self.var_counter += 1;
        table.fresh(name)
    }

    /// The bindings that computing `expr` requires, in order of evaluation,
    /// and the expression for its value.
    pub fn normalize(&mut self, table: &mut SymbolTable, expr: Expression) -> (r: (
        Vec<(Symbol, Expression)>,
        Expression,
    ))
        requires
            old(table).wf(),
            old(self).var_counter + expr_size(expr@) <= usize::MAX,
            expr_symbols_below(expr@, old(table)@.len()),
        ensures
            final(table).wf(),
            final(table)@.len() >= old(table)@.len(),
            bindings_from(binding_views(r.0@), old(table)@.len(), expr@),
            final(self).var_counter + 1 <= old(self).var_counter + expr_size(expr@),
            (binding_views(r.0@), r.1@, (final(self).var_counter as nat, final(table)@)) == norm_spec(
                expr@,
                (old(self).var_counter as nat, old(table)@),
            ),
        decreases expr, 1nat,
    {
        let ghost e = expr@;
        match expr {
            Expression::Lambda(params, body) => {
                let b = self.normalize_term(table, *body);
                let r = (Vec::new(), Expression::Lambda(params, Box::new(b)));
                assert(binding_views(r.0@) =~= Seq::<Binding>::empty());
                r
            },
            Expression::Let(var, init, body) => {
                let ghost lo = table@.len();
                let (mut bs1, c1) = self.normalize(table, *init);
                proof {
                    lemma_expr_symbols_grow(body@, lo, table@.len());
                }
                let (mut bs2, c2) = self.normalize(table, *body);
                let ghost v1 = binding_views(bs1@);
                let ghost v2 = binding_views(bs2@);
                bs1.push((var, c1));
                bs1.append(&mut bs2);
                assert(binding_views(bs1@) =~= v1.push((var, c1@)) + v2);
                assert forall|i: int| 0 <= i < binding_views(bs1@).len() implies (#[trigger] binding_views(
                    bs1@,
                )[i]).0.spec_id() >= lo || spine_let(e, binding_views(bs1@)[i].0) by {
                    let all = v1.push((var, c1@)) + v2;
                    if i < v1.len() {
                        assert(all[i] == v1[i]);
                    } else if i == v1.len() {
                        assert(all[i] == (var, c1@));
                    } else {
                        assert(all[i] == v2[i - v1.len() - 1]);
                    }
                }
                (bs1, c2)
            },
            Expression::If(cond, yes, no) => {
                let ghost lo = table@.len();
                let (bs, t) = self.normalize_name(table, *cond);
                proof {
                    lemma_expr_symbols_grow(yes@, lo, table@.len());
                    lemma_expr_symbols_grow(no@, lo, table@.len());
                }
                let ghost lo1 = table@.len();
                let y = self.normalize_term(table, *yes);
                proof {
                    lemma_expr_symbols_grow(no@, lo1, table@.len());
                }
                let n = self.normalize_term(table, *no);
                (bs, Expression::If(Box::new(t), Box::new(y), Box::new(n)))
            },
            Expression::Apply(proc, args) => {
                let ghost lo = table@.len();
                if proc.is_primitive() {
                    let (bs, ts) = self.normalize_names(table, args);
                    (bs, Expression::Apply(proc, ts))
                } else {
                    let (mut bs1, t) = self.normalize_name(table, *proc);
                    proof {
                        lemma_all_symbols_grow(views_of(args@), lo, table@.len());
                    }
                    let (mut bs2, ts) = self.normalize_names(table, args);
                    let ghost v1 = binding_views(bs1@);
                    let ghost v2 = binding_views(bs2@);
                    bs1.append(&mut bs2);
                    assert(binding_views(bs1@) =~= v1 + v2);
                    proof {
                        lemma_temporaries_concat(v1, v2, lo);
                    }
                    (bs1, Expression::Apply(Box::new(t), ts))
                }
            },
            other => {
                let r = (Vec::new(), other);
                assert(binding_views(r.0@) =~= Seq::<Binding>::empty());
                r
            },
        }
    }

    /// Normalizes `expr` under the identity continuation and makes the
    /// result atomic: a result that is not is bound to a fresh temporary,
    /// which stands for it.
    pub fn normalize_name(&mut self, table: &mut SymbolTable, expr: Expression) -> (r: (
        Vec<(Symbol, Expression)>,
        Expression,
    ))
        requires
            old(table).wf(),
            old(self).var_counter + expr_size(expr@) <= usize::MAX,
            expr_symbols_below(expr@, old(table)@.len()),
        ensures
            final(table).wf(),
            final(table)@.len() >= old(table)@.len(),
            temporaries_from(binding_views(r.0@), old(table)@.len()),
            final(self).var_counter <= old(self).var_counter + expr_size(expr@),
            (binding_views(r.0@), r.1@, (final(self).var_counter as nat, final(table)@)) == name_spec(
                expr@,
                (old(self).var_counter as nat, old(table)@),
            ),
        decreases expr, 2nat,
    {
        let ghost lo = table@.len();
        let (bs, c) = self.normalize(table, expr);
        if bs.len() == 0 && c.is_atomic() {
            assert(binding_views(bs@) =~= Seq::<Binding>::empty());
            (bs, c)
        } else {
            let t = self.new_var(table);
            let w = wrap_bindings(bs, c);
            let mut named = Vec::new();
            named.push((t, w));
            assert(binding_views(named@) =~= seq![(t, w@)]);
            (named, Expression::Variable(t))
        }
    }

    /// Names each of `exprs`, left to right.
    pub fn normalize_names(&mut self, table: &mut SymbolTable, exprs: Vec<Expression>) -> (r: (
        Vec<(Symbol, Expression)>,
        Vec<Expression>,
    ))
        requires
            old(table).wf(),
            old(self).var_counter + sizes(views_of(exprs@)) <= usize::MAX,
            all_symbols_below(views_of(exprs@), old(table)@.len()),
        ensures
            final(table).wf(),
            final(table)@.len() >= old(table)@.len(),
            temporaries_from(binding_views(r.0@), old(table)@.len()),
            final(self).var_counter <= old(self).var_counter + sizes(views_of(exprs@)),
            (binding_views(r.0@), views_of(r.1@), (final(self).var_counter as nat, final(table)@))
                == names_spec(views_of(exprs@), (old(self).var_counter as nat, old(table)@)),
        decreases exprs@, 0nat,
    {
        proof {
            lemma_views_of(exprs@);
        }
        if exprs.len() == 0 {
            let r = (Vec::new(), Vec::new());
            assert(binding_views(r.0@) =~= Seq::<Binding>::empty());
            assert(views_of(r.1@) =~= Seq::<ExprModel>::empty());
            return r;
        }
        let mut rest = exprs;
        let ghost all = rest@;
        let first = rest.remove(0);
        proof {
            lemma_views_of_ext(rest@, views_of(all).drop_first());
            assert(decreases_to!(all => all[0]));
            assert(rest@ == all.subrange(1, all.len() as int));
            assert(decreases_to!(all => rest@));
        }
        let ghost lo = table@.len();
        let (mut bs1, t) = self.normalize_name(table, first);
        proof {
            lemma_all_symbols_grow(views_of(rest@), lo, table@.len());
        }
        let (mut bs2, mut ts) = self.normalize_names(table, rest);
        let ghost v1 = binding_views(bs1@);
        let ghost v2 = binding_views(bs2@);
        let ghost tv = views_of(ts@);
        bs1.append(&mut bs2);
        assert(binding_views(bs1@) =~= v1 + v2);
        proof {
            lemma_temporaries_concat(v1, v2, lo);
        }
        proof {
            lemma_views_of(ts@);
        }
        ts.insert(0, t);
        proof {
            lemma_views_of(ts@);
            lemma_views_of_ext(ts@, seq![t@] + tv);
        }
        (bs1, ts)
    }

    /// Normalizes `expr` under the identity continuation.
    pub fn normalize_term(&mut self, table: &mut SymbolTable, expr: Expression) -> (r: Expression)
        requires
            old(table).wf(),
            old(self).var_counter + expr_size(expr@) <= usize::MAX,
            expr_symbols_below(expr@, old(table)@.len()),
        ensures
            final(table).wf(),
            final(table)@.len() >= old(table)@.len(),
            final(self).var_counter + 1 <= old(self).var_counter + expr_size(expr@),
            (r@, (final(self).var_counter as nat, final(table)@)) == term_spec(
                expr@,
                (old(self).var_counter as nat, old(table)@),
            ),
        decreases expr, 2nat,
    {
        let (bs, c) = self.normalize(table, expr);
        wrap_bindings(bs, c)
    }
}

/// A top-level definition in normal form: `DefVar` of the normalized
/// function or expression. Anything else is a syntax error.
pub open spec fn define_spec(e: ExprModel, st: NState) -> (Result<ExprModel, Error>, NState) {
    match e {
        ExprModel::DeFunc(name, ps, body) => {
            let (l, st1) = term_spec(ExprModel::Lambda(ps, body), st);
            (Ok(ExprModel::DefVar(name, Box::new(l))), st1)
        },
        ExprModel::DefVar(name, x) => {
            let (x1, st1) = term_spec(*x, st);
            (Ok(ExprModel::DefVar(name, Box::new(x1))), st1)
        },
        _ => (Err(syntax_error(Syntax::ExpectedDefinition)), st),
    }
}

/// Each definition of `ds` in normal form, in order; the first error ends
/// the program.
pub open spec fn program_spec(ds: Seq<ExprModel>, st: NState) -> (Result<Seq<ExprModel>, Error>, NState)
    decreases ds.len(),
{
    if ds.len() == 0 {
        (Ok(Seq::empty()), st)
    } else {
        let (r, st1) = define_spec(ds[0], st);
        match r {
            Err(e) => (Err(e), st1),
            Ok(d) => {
                let (rest, st2) = program_spec(ds.drop_first(), st1);
                match rest {
                    Err(e) => (Err(e), st2),
                    Ok(ds2) => (Ok(seq![d] + ds2), st2),
                }
            },
        }
    }
}

impl AnormalTransform {
    /// A top-level definition in normal form.
    pub fn normalize_define(&mut self, table: &mut SymbolTable, def: Expression) -> (r: Result<Expression, Error>)
        requires
            old(table).wf(),
            old(self).var_counter + expr_size(def@) <= usize::MAX,
            expr_symbols_below(def@, old(table)@.len()),
        ensures
            final(table).wf(),
            final(table)@.len() >= old(table)@.len(),
            final(self).var_counter <= old(self).var_counter + expr_size(def@),
            ({
                let (res, st) = define_spec(def@, (old(self).var_counter as nat, old(table)@));
                &&& st == (final(self).var_counter as nat, final(table)@)
                &&& match r {
                    Ok(x) => res == Ok::<ExprModel, Error>(x@),
                    Err(e) => res == Err::<ExprModel, Error>(e),
                }
            }),
    {
        match def {
            Expression::DeFunc(name, params, body) => {
                let l = self.normalize_term(table, Expression::Lambda(params, body));
                Ok(Expression::DefVar(name, Box::new(l)))
            },
            Expression::DefVar(name, expr) => {
                let x = self.normalize_term(table, *expr);
                Ok(Expression::DefVar(name, Box::new(x)))
            },
            _ => Err(Error::new(ErrorKind::SyntaxError(Syntax::ExpectedDefinition))),
        }
    }

    /// Every definition of a program in normal form.
    pub fn normalize_program(&mut self, table: &mut SymbolTable, decs: Vec<Expression>) -> (r: Result<
        Vec<Expression>,
        Error,
    >)
        requires
            old(table).wf(),
            old(self).var_counter + sizes(views_of(decs@)) <= usize::MAX,
            all_symbols_below(views_of(decs@), old(table)@.len()),
        ensures
            final(table).wf(),
            ({
                let (res, st) = program_spec(views_of(decs@), (old(self).var_counter as nat, old(table)@));
                &&& st == (final(self).var_counter as nat, final(table)@)
                &&& match r {
                    Ok(xs) => res == Ok::<Seq<ExprModel>, Error>(views_of(xs@)),
                    Err(e) => res == Err::<Seq<ExprModel>, Error>(e),
                }
            }),
    {
        let ghost st0 = (self.var_counter as nat, table@);
        let ghost all = views_of(decs@);
        let mut rest = decs;
        let mut out: Vec<Expression> = Vec::new();
        proof {
            lemma_views_of(rest@);
            lemma_views_of(out@);
            match program_spec(all, st0).0 {
                Ok(s) => {
                    assert(Seq::<ExprModel>::empty() + s =~= s);
                },
                Err(_) => {},
            }
        }
        while rest.len() > 0
            invariant
                table.wf(),
                all == views_of(decs@),
                st0 == (old(self).var_counter as nat, old(table)@),
                all_symbols_below(views_of(rest@), table@.len()),
                self.var_counter + sizes(views_of(rest@)) <= usize::MAX,
                ({
                    let (whole, st_end) = program_spec(all, st0);
                    let (tail, st_tail) = program_spec(views_of(rest@), (self.var_counter as nat, table@));
                    &&& st_end == st_tail
                    &&& match tail {
                        Ok(t) => whole == Ok::<Seq<ExprModel>, Error>(views_of(out@) + t),
                        Err(e) => whole == Err::<Seq<ExprModel>, Error>(e),
                    }
                }),
            decreases rest@.len(),
        {
            proof {
                lemma_views_of(rest@);
            }
            let ghost before = rest@;
            let d = rest.remove(0);
            proof {
                lemma_views_of_ext(rest@, views_of(before).drop_first());
            }
            let ghost out_before = views_of(out@);
            let ghost dv = d@;
            let ghost st_prev = (self.var_counter as nat, table@);
            assert(views_of(before)[0] == dv);
            let ghost lo = table@.len();
            assert(views_of(rest@) == views_of(before).drop_first());
            match self.normalize_define(table, d) {
                Err(e) => {
                    assert(program_spec(views_of(before), st_prev) == (
                        Err::<Seq<ExprModel>, Error>(e),
                        (self.var_counter as nat, table@),
                    ));
                    assert(program_spec(all, st0).0 == Err::<Seq<ExprModel>, Error>(e));
                    assert(program_spec(all, st0).1 == (self.var_counter as nat, table@));
                    return Err(e);
                },
                Ok(x) => {
                    proof {
                        lemma_views_of(out@);
                    }
                    out.push(x);
                    proof {
                        lemma_all_symbols_grow(views_of(rest@), lo, table@.len());
                        lemma_views_of(out@);
                        lemma_views_of_ext(out@, out_before.push(x@));
                        match program_spec(views_of(rest@), (self.var_counter as nat, table@)).0 {
                            Ok(t) => {
                                assert(out_before + (seq![x@] + t) =~= out_before.push(x@) + t);
                            },
                            Err(_) => {},
                        }
                    }
                },
            }
        }
        proof {
            lemma_views_of(rest@);
            assert(views_of(rest@) =~= Seq::<ExprModel>::empty());
            assert(views_of(out@) + Seq::<ExprModel>::empty() =~= views_of(out@));
        }
        Ok(out)
    }
}

/// The error for a value that has no expression form.
pub open spec fn unknown_form(o: Object) -> Error {
    Error { kind: ErrorKind::UnknownExpressionType(o) }
}

/// `o` is the symbol `s`.
pub open spec fn is_sym(o: Object, s: Symbol) -> bool {
    o.content == TaggedValue::Symbol(s)
}

/// The two elements of a list of exactly two.
pub open spec fn two_elements(o: Object) -> Option<(Object, Object)> {
    match o.content {
        TaggedValue::Pair(x, rest) => match rest.content {
            TaggedValue::Pair(y, end) => if end.content is Nil {
                Some((*x, *y))
            } else {
                None
            },
            _ => None,
        },
        _ => None,
    }
}

/// `o` is a list of two elements whose first is a pair.
pub open spec fn heads_pair(o: Object) -> bool {
    match two_elements(o) {
        Some((head, _)) => head.content is Pair,
        None => false,
    }
}

/// The captures of `(s ?x ?y)` on `o`, when it has that shape.
pub open spec fn list3_captures(o: Object) -> Seq<Object> {
    match o.content {
        TaggedValue::Pair(_, d) => match two_elements(*d) {
            Some((x, y)) => seq![x, y],
            None => Seq::empty(),
        },
        _ => Seq::empty(),
    }
}

proof fn lemma_list3_template(p: Pattern, s: Symbol, o: Object)
    requires
        p matches Pattern::List(ps) && ps@ == seq![Pattern::Symbol(s), Pattern::Capture, Pattern::Capture],
    ensures
        match_spec(p, o) is Some <==> (o.content matches TaggedValue::Pair(a, d) && is_sym(*a, s) && two_elements(*d) is Some),
        match_spec(p, o) is Some ==> match_spec(p, o) == Some(list3_captures(o)),
{
    let ps = p->List_0@;
    let ps1 = ps.drop_first();
    let ps2 = ps1.drop_first();
    let ps3 = ps2.drop_first();
    assert(ps1 =~= seq![Pattern::Capture, Pattern::Capture]);
    assert(ps2 =~= seq![Pattern::Capture]);
    assert(ps3 =~= Seq::<Pattern>::empty());
    if let TaggedValue::Pair(a, d) = o.content {
        if let TaggedValue::Pair(x, r) = d.content {
            assert(match_spec(ps1[0], *x) == Some(seq![*x]));
            if let TaggedValue::Pair(y, e) = r.content {
                assert(match_spec(ps2[0], *y) == Some(seq![*y]));
                assert(prefix_spec(ps3, *e) == Some((Seq::<Object>::empty(), *e)));
                assert(prefix_spec(ps2, *r) == Some((seq![*y] + Seq::<Object>::empty(), *e)));
                assert(seq![*y] + Seq::<Object>::empty() =~= seq![*y]);
                assert(prefix_spec(ps1, *d) == Some((seq![*x] + seq![*y], *e)));
                assert(seq![*x] + seq![*y] =~= seq![*x, *y]);
                if is_sym(*a, s) {
                    assert(match_spec(ps[0], *a) == Some(Seq::<Object>::empty()));
                    assert(Seq::<Object>::empty() + seq![*x, *y] =~= seq![*x, *y]);
                    assert(prefix_spec(ps, o) == Some((seq![*x, *y], *e)));
                } else {
                    assert(match_spec(ps[0], *a) is None);
                    assert(prefix_spec(ps, o) is None);
                }
            } else {
                assert(prefix_spec(ps2, *r) is None);
                assert(prefix_spec(ps1, *d) is None);
                assert(prefix_spec(ps, o) is None);
            }
        } else {
            assert(prefix_spec(ps1, *d) is None);
            assert(prefix_spec(ps, o) is None);
        }
    } else {
        assert(prefix_spec(ps, o) is None);
    }
}

/// The captures of `(s (?f . ?params) ?body)` on `o`, when it has that
/// shape.
pub open spec fn define_captures(o: Object) -> Seq<Object> {
    match o.content {
        TaggedValue::Pair(_, d) => match two_elements(*d) {
            Some((h, body)) => match h.content {
                TaggedValue::Pair(f, params) => seq![*f, *params, body],
                _ => Seq::empty(),
            },
            None => Seq::empty(),
        },
        _ => Seq::empty(),
    }
}

proof fn lemma_define_template(p: Pattern, s: Symbol, o: Object)
    requires
        p is List,
        p->List_0@.len() == 3,
        p->List_0@[0] == Pattern::Symbol(s),
        p->List_0@[2] == Pattern::Capture,
        p->List_0@[1] matches Pattern::ListRest(hs, hr) && hs@ == seq![Pattern::Capture] && *hr == Pattern::Capture,
    ensures
        match_spec(p, o) is Some <==> (o.content matches TaggedValue::Pair(a, d) && is_sym(*a, s) && heads_pair(*d)),
        match_spec(p, o) is Some ==> match_spec(p, o) == Some(define_captures(o)),
{
    let ps = p->List_0@;
    let ps1 = ps.drop_first();
    let ps2 = ps1.drop_first();
    let ps3 = ps2.drop_first();
    let hp = ps[1];
    let hs = hp->ListRest_0@;
    assert(ps1[0] == hp);
    assert(ps2 =~= seq![Pattern::Capture]);
    assert(ps3 =~= Seq::<Pattern>::empty());
    assert(hs.drop_first() =~= Seq::<Pattern>::empty());
    if let TaggedValue::Pair(a, d) = o.content {
        if let TaggedValue::Pair(h, r) = d.content {
            if let TaggedValue::Pair(f, params) = h.content {
                assert(prefix_spec(hs.drop_first(), *params) == Some((Seq::<Object>::empty(), *params)));
                assert(match_spec(hs[0], *f) == Some(seq![*f]));
                assert(prefix_spec(hs, *h) == Some((seq![*f] + Seq::<Object>::empty(), *params)));
                assert(seq![*f] + Seq::<Object>::empty() =~= seq![*f]);
                assert(match_spec(*hp->ListRest_1, *params) == Some(seq![*params]));
                assert(match_spec(hp, *h) == Some(seq![*f] + seq![*params]));
                assert(seq![*f] + seq![*params] =~= seq![*f, *params]);
            } else {
                assert(prefix_spec(hs, *h) is None);
                assert(match_spec(hp, *h) is None);
            }
            if let TaggedValue::Pair(y, e) = r.content {
                assert(match_spec(ps2[0], *y) == Some(seq![*y]));
                assert(prefix_spec(ps3, *e) == Some((Seq::<Object>::empty(), *e)));
                assert(prefix_spec(ps2, *r) == Some((seq![*y] + Seq::<Object>::empty(), *e)));
                assert(seq![*y] + Seq::<Object>::empty() =~= seq![*y]);
                if let TaggedValue::Pair(f, params) = h.content {
                    assert(prefix_spec(ps1, *d) == Some((seq![*f, *params] + seq![*y], *e)));
                    assert(seq![*f, *params] + seq![*y] =~= seq![*f, *params, *y]);
                    if is_sym(*a, s) {
                        assert(match_spec(ps[0], *a) == Some(Seq::<Object>::empty()));
                        assert(Seq::<Object>::empty() + seq![*f, *params, *y] =~= seq![*f, *params, *y]);
                        assert(prefix_spec(ps, o) == Some((seq![*f, *params, *y], *e)));
                    } else {
                        assert(match_spec(ps[0], *a) is None);
                        assert(prefix_spec(ps, o) is None);
                    }
                } else {
                    assert(prefix_spec(ps1, *d) is None);
                    assert(prefix_spec(ps, o) is None);
                }
            } else {
                assert(prefix_spec(ps2, *r) is None);
                assert(prefix_spec(ps1, *d) is None);
                assert(prefix_spec(ps, o) is None);
            }
        } else {
            assert(prefix_spec(ps1, *d) is None);
            assert(prefix_spec(ps, o) is None);
        }
    } else {
        assert(prefix_spec(ps, o) is None);
    }
}

/// The template `(?first . ?rest)` matches exactly the pairs.
proof fn lemma_pair_template(p: Pattern, o: Object)
    requires
        p matches Pattern::ListRest(ps, rest) && ps@ == seq![Pattern::Capture] && *rest == Pattern::Capture,
    ensures
        match_spec(p, o) is Some <==> o.content is Pair,
        match_spec(p, o) is Some ==> match_spec(p, o) == Some(
            seq![*o.content->Pair_0, *o.content->Pair_1],
        ),
{
    let ps = p->ListRest_0@;
    assert(ps.drop_first() =~= Seq::<Pattern>::empty());
    if let TaggedValue::Pair(a, d) = o.content {
        assert(prefix_spec(ps.drop_first(), *d) == Some((Seq::<Object>::empty(), *d)));
        assert(match_spec(ps[0], *a) == Some(seq![*a]));
        assert(prefix_spec(ps, o) == Some((seq![*a] + Seq::<Object>::empty(), *d)));
        assert(seq![*a] + Seq::<Object>::empty() =~= seq![*a]);
        assert(match_spec(*p->ListRest_1, *d) == Some(seq![*d]));
        assert(seq![*a] + seq![*d] =~= seq![*a, *d]);
    } else {
        assert(prefix_spec(ps, o) is None);
    }
}

/// The symbols of the parameter list `o`.
pub open spec fn params_spec(o: Object) -> Result<Seq<Symbol>, Error>
    decreases o,
{
    match o.content {
        TaggedValue::Nil => Ok(Seq::empty()),
        TaggedValue::Pair(a, d) => match a.content {
            TaggedValue::Symbol(v) => match params_spec(*d) {
                Ok(ps) => Ok(seq![v] + ps),
                Err(e) => Err(e),
            },
            _ => Err(syntax_error(Syntax::ParameterNotSymbol(*a))),
        },
        _ => Err(not_a_pair(o)),
    }
}

/// The expression that the tree `o` stands for; `def` and `lam` are the
/// symbols `define` and `lambda`. `top` says whether `o` is a whole
/// top-level form: only there is `(define var expr)` a definition; inside an
/// expression it has no meaning and fails.
pub open spec fn from_spec(o: Object, def: Symbol, lam: Symbol, top: bool) -> Result<ExprModel, Error>
    decreases o, 1nat,
{
    match o.content {
        TaggedValue::Nil => Ok(ExprModel::Nil),
        TaggedValue::Integer(i) => Ok(ExprModel::Integer(i)),
        TaggedValue::Float(f) => Ok(ExprModel::Float(f)),
        TaggedValue::Symbol(s) => Ok(ExprModel::Variable(s)),
        TaggedValue::Pair(a, d) => {
            if is_sym(*a, def) && heads_pair(*d) {
                let (head, body) = two_elements(*d)->0;
                let f = *head.content->Pair_0;
                let params = *head.content->Pair_1;
                match f.content {
                    TaggedValue::Symbol(name) => match params_spec(params) {
                        Err(e) => Err(e),
                        Ok(ps) => match from_spec(body, def, lam, false) {
                            Err(e) => Err(e),
                            Ok(b) => Ok(ExprModel::DefVar(name, Box::new(ExprModel::Lambda(ps, Box::new(b))))),
                        },
                    },
                    _ => Err(syntax_error(Syntax::NameNotSymbol(f))),
                }
            } else if is_sym(*a, def) && two_elements(*d) is Some {
                let (var, x) = two_elements(*d)->0;
                if !top {
                    Err(unknown_form(o))
                } else {
                    match var.content {
                        TaggedValue::Symbol(name) => match from_spec(x, def, lam, false) {
                            Err(e) => Err(e),
                            Ok(b) => Ok(ExprModel::DefVar(name, Box::new(b))),
                        },
                        _ => Err(syntax_error(Syntax::NameNotSymbol(var))),
                    }
                }
            } else if is_sym(*a, lam) && two_elements(*d) is Some {
                let (params, body) = two_elements(*d)->0;
                match params_spec(params) {
                    Err(e) => Err(e),
                    Ok(ps) => match from_spec(body, def, lam, false) {
                        Err(e) => Err(e),
                        Ok(b) => Ok(ExprModel::Lambda(ps, Box::new(b))),
                    },
                }
            } else if is_sym(*a, lam) && d.content is Pair {
                Err(unknown_form(o))
            } else {
                match from_spec(*a, def, lam, false) {
                    Err(e) => Err(e),
                    Ok(p) => match args_spec(*d, def, lam) {
                        Err(e) => Err(e),
                        Ok(args) => Ok(ExprModel::Apply(Box::new(p), args)),
                    },
                }
            }
        },
        _ => Err(unknown_form(o)),
    }
}

/// The expressions of the elements of the proper list `o`.
pub open spec fn args_spec(o: Object, def: Symbol, lam: Symbol) -> Result<Seq<ExprModel>, Error>
    decreases o, 0nat,
{
    match o.content {
        TaggedValue::Nil => Ok(Seq::empty()),
        TaggedValue::Pair(a, d) => match from_spec(*a, def, lam, false) {
            Err(e) => Err(e),
            Ok(x) => match args_spec(*d, def, lam) {
                Err(e) => Err(e),
                Ok(xs) => Ok(seq![x] + xs),
            },
        },
        _ => Err(not_a_pair(o)),
    }
}

pub open spec fn define_name() -> Seq<char> {
    seq!['d', 'e', 'f', 'i', 'n', 'e']
}

/// The symbols `define` and `lambda`, and the templates of the forms that
/// the IR recognizes, in the order they are tried.
struct Forms {
    def: Symbol,
    lam: Symbol,
    clauses: Vec<Pattern>,
}

impl Forms {
    spec fn wf(&self) -> bool {
        let c = self.clauses@;
        &&& c.len() == 5
        &&& c[0] is List
        &&& c[0]->List_0@.len() == 3
        &&& c[0]->List_0@[0] == Pattern::Symbol(self.def)
        &&& c[0]->List_0@[2] == Pattern::Capture
        &&& c[0]->List_0@[1] matches Pattern::ListRest(hs, hr) && hs@ == seq![Pattern::Capture] && *hr
            == Pattern::Capture
        &&& c[1] matches Pattern::List(ps) && ps@ == seq![Pattern::Symbol(self.def), Pattern::Capture, Pattern::Capture]
        &&& c[2] matches Pattern::List(ps) && ps@ == seq![Pattern::Symbol(self.lam), Pattern::Capture, Pattern::Capture]
        &&& c[3] matches Pattern::ListRest(ps, rest) && ps@ == seq![Pattern::Symbol(self.lam), Pattern::Capture] && *rest
            == Pattern::Capture
        &&& c[4] matches Pattern::ListRest(ps, rest) && ps@ == seq![Pattern::Capture] && *rest == Pattern::Capture
    }

    /// `(define (?f . ?params) ?body)`, `(define ?var ?exp)`,
    /// `(lambda ?params ?body)`, `(lambda ?params . ?body)`, `(?proc . ?args)`.
    fn new(def: Symbol, lam: Symbol) -> (r: Forms)
        ensures
            r.wf(),
            r.def == def,
            r.lam == lam,
    {
        let head = Pattern::ListRest(vec![Pattern::Capture], Box::new(Pattern::Capture));
        let clauses = vec![
            Pattern::List(vec![Pattern::Symbol(def), head, Pattern::Capture]),
            Pattern::List(vec![Pattern::Symbol(def), Pattern::Capture, Pattern::Capture]),
            Pattern::List(vec![Pattern::Symbol(lam), Pattern::Capture, Pattern::Capture]),
            Pattern::ListRest(vec![Pattern::Symbol(lam), Pattern::Capture], Box::new(Pattern::Capture)),
            Pattern::ListRest(vec![Pattern::Capture], Box::new(Pattern::Capture)),
        ];
        let r = Forms { def, lam, clauses };
        assert(r.clauses@[0]->List_0@[1]->ListRest_0@ =~= seq![Pattern::Capture]);
        assert(r.clauses@[1]->List_0@ =~= seq![Pattern::Symbol(def), Pattern::Capture, Pattern::Capture]);
        assert(r.clauses@[2]->List_0@ =~= seq![Pattern::Symbol(lam), Pattern::Capture, Pattern::Capture]);
        assert(r.clauses@[3]->ListRest_0@ =~= seq![Pattern::Symbol(lam), Pattern::Capture]);
        assert(r.clauses@[4]->ListRest_0@ =~= seq![Pattern::Capture]);
        r
    }
}

impl Expression {
    /// The expression that the top-level form `obj` stands for. The symbols
    /// `define` and `lambda` are interned in `table` first. `(define var
    /// expr)` is read as a definition only as the whole form; nested in an
    /// expression it fails with `UnknownExpressionType`.
    pub fn from_object(table: &mut SymbolTable, obj: &Object) -> (r: Result<Expression, Error>)
        requires
            old(table).wf(),
        ensures
            final(table).wf(),
            ({
                let (names1, def) = interned(old(table)@, define_name());
                let (names2, lam) = interned(names1, lambda_name());
                &&& final(table)@ == names2
                &&& match r {
                    Ok(x) => from_spec(*obj, def, lam, true) == Ok::<ExprModel, Error>(x@),
                    Err(e) => from_spec(*obj, def, lam, true) == Err::<ExprModel, Error>(e),
                }
            }),
    {
        proof {
            reveal_strlit("define");
            reveal_strlit("lambda");
            assert("define"@ =~= define_name());
            assert("lambda"@ =~= lambda_name());
        }
        let def = table.intern("define");
        let lam = table.intern("lambda");
        let forms = Forms::new(def, lam);
        Expression::build(obj, &forms, true)
    }

    fn build(obj: &Object, forms: &Forms, top: bool) -> (r: Result<Expression, Error>)
        requires
            forms.wf(),
        ensures
            match r {
                Ok(x) => from_spec(*obj, forms.def, forms.lam, top) == Ok::<ExprModel, Error>(x@),
                Err(e) => from_spec(*obj, forms.def, forms.lam, top) == Err::<ExprModel, Error>(e),
            },
        decreases obj, 1nat,
    {
        let ghost def = forms.def;
        let ghost lam = forms.lam;
        proof {
            let c = forms.clauses@;
            lemma_define_template(c[0], def, *obj);
            lemma_list3_template(c[1], def, *obj);
            lemma_list3_template(c[2], lam, *obj);
            lemma_lambda_template(c[3], lam, *obj);
            lemma_pair_template(c[4], *obj);
        }
        match switch(&forms.clauses, obj) {
            Some((k, caps)) => {
                assert(derefs(caps@).len() == caps@.len());
                assert(forall|i: int| 0 <= i < caps@.len() ==> derefs(caps@)[i] == *caps@[i]);
                let ghost a = *obj.content->Pair_0;
                let ghost d = *obj.content->Pair_1;
                if k == 0 {
                    let f = caps[0];
                    let params = caps[1];
                    let body = caps[2];
                    assert(decreases_to!(obj => *body)) by {
                        let (h, b) = two_elements(d)->0;
                        assert(*body == b);
                    }
                    let name = match f.as_symbol() {
                        Some(name) => name,
                        None => {
                            return Err(Error::new(ErrorKind::SyntaxError(Syntax::NameNotSymbol(f.deep_clone()))));
                        },
                    };
                    let ps = match Expression::build_params(params) {
                        Ok(ps) => ps,
                        Err(e) => {
                            return Err(e);
                        },
                    };
                    let b = match Expression::build(body, forms, false) {
                        Ok(b) => b,
                        Err(e) => {
                            return Err(e);
                        },
                    };
                    let l = Expression::Lambda(ps, Box::new(b));
                    assert(l@ == ExprModel::Lambda(ps@, Box::new(b@)));
                    Ok(Expression::DefVar(name, Box::new(l)))
                } else if k == 1 {
                    let var = caps[0];
                    let x = caps[1];
                    assert(decreases_to!(obj => *x));
                    if !top {
                        return Err(Error::new(ErrorKind::UnknownExpressionType(obj.deep_clone())));
                    }
                    let name = match var.as_symbol() {
                        Some(name) => name,
                        None => {
                            return Err(Error::new(ErrorKind::SyntaxError(Syntax::NameNotSymbol(var.deep_clone()))));
                        },
                    };
                    let b = match Expression::build(x, forms, false) {
                        Ok(b) => b,
                        Err(e) => {
                            return Err(e);
                        },
                    };
                    Ok(Expression::DefVar(name, Box::new(b)))
                } else if k == 2 {
                    let params = caps[0];
                    let body = caps[1];
                    assert(decreases_to!(obj => *body));
                    let ps = match Expression::build_params(params) {
                        Ok(ps) => ps,
                        Err(e) => {
                            return Err(e);
                        },
                    };
                    let b = match Expression::build(body, forms, false) {
                        Ok(b) => b,
                        Err(e) => {
                            return Err(e);
                        },
                    };
                    Ok(Expression::Lambda(ps, Box::new(b)))
                } else if k == 3 {
                    Err(Error::new(ErrorKind::UnknownExpressionType(obj.deep_clone())))
                } else {
                    let proc = caps[0];
                    let args = caps[1];
                    let p = match Expression::build(proc, forms, false) {
                        Ok(p) => p,
                        Err(e) => {
                            return Err(e);
                        },
                    };
                    let args = match Expression::build_args(args, forms) {
                        Ok(args) => args,
                        Err(e) => {
                            return Err(e);
                        },
                    };
                    Ok(Expression::Apply(Box::new(p), args))
                }
            },
            None => match &obj.content {
                TaggedValue::Nil => Ok(Expression::Nil),
                TaggedValue::Integer(i) => Ok(Expression::Integer(*i)),
                TaggedValue::Float(f) => Ok(Expression::Float(*f)),
                TaggedValue::Symbol(s) => Ok(Expression::Variable(*s)),
                _ => Err(Error::new(ErrorKind::UnknownExpressionType(obj.deep_clone()))),
            },
        }
    }

    fn build_args(obj: &Object, forms: &Forms) -> (r: Result<Vec<Expression>, Error>)
        requires
            forms.wf(),
        ensures
            match r {
                Ok(xs) => args_spec(*obj, forms.def, forms.lam) == Ok::<Seq<ExprModel>, Error>(views_of(xs@)),
                Err(e) => args_spec(*obj, forms.def, forms.lam) == Err::<Seq<ExprModel>, Error>(e),
            },
        decreases obj, 0nat,
    {
        match obj.decons() {
            Some((a, d)) => {
                let x = match Expression::build(a, forms, false) {
                    Ok(x) => x,
                    Err(e) => {
                        return Err(e);
                    },
                };
                let mut xs = match Expression::build_args(d, forms) {
                    Ok(xs) => xs,
                    Err(e) => {
                        return Err(e);
                    },
                };
                let ghost tail = views_of(xs@);
                proof {
                    lemma_views_of(xs@);
                }
                xs.insert(0, x);
                proof {
                    lemma_views_of_ext(xs@, seq![x@] + tail);
                }
                Ok(xs)
            },
            None => {
                if obj.is_nil() {
                    let xs = Vec::new();
                    assert(views_of(xs@) =~= Seq::<ExprModel>::empty());
                    Ok(xs)
                } else {
                    Err(Error::new(ErrorKind::NotAPair(obj.deep_clone())))
                }
            },
        }
    }

    fn build_params(obj: &Object) -> (r: Result<Vec<Symbol>, Error>)
        ensures
            match r {
                Ok(ps) => params_spec(*obj) == Ok::<Seq<Symbol>, Error>(ps@),
                Err(e) => params_spec(*obj) == Err::<Seq<Symbol>, Error>(e),
            },
        decreases obj,
    {
        match obj.decons() {
            Some((a, d)) => match a.as_symbol() {
                Some(v) => {
                    let mut ps = match Expression::build_params(d) {
                        Ok(ps) => ps,
                        Err(e) => {
                            return Err(e);
                        },
                    };
                    let ghost tail = ps@;
                    ps.insert(0, v);
                    assert(ps@ =~= seq![v] + tail);
                    Ok(ps)
                },
                None => Err(Error::new(ErrorKind::SyntaxError(Syntax::ParameterNotSymbol(a.deep_clone())))),
            },
            None => {
                if obj.is_nil() {
                    let ps = Vec::new();
                    assert(ps@ =~= Seq::<Symbol>::empty());
                    Ok(ps)
                } else {
                    Err(Error::new(ErrorKind::NotAPair(obj.deep_clone())))
                }
            },
        }
    }

    /// Whether every symbol in this expression has an index below `n`.
    pub fn symbols_within(&self, n: usize) -> (r: bool)
        ensures
            r == expr_symbols_below(self@, n as nat),
        decreases self, 1nat,
    {
        match self {
            Expression::Variable(v) => v.id() < n,
            Expression::Lambda(ps, b) => Expression::all_ids_within(ps, n) && b.symbols_within(n),
            Expression::Let(v, i, b) => v.id() < n && i.symbols_within(n) && b.symbols_within(n),
            Expression::If(c, y, z) => c.symbols_within(n) && y.symbols_within(n) && z.symbols_within(n),
            Expression::Apply(p, args) => {
                proof {
                    lemma_views_of(args@);
                    assert(views_of(args@).subrange(0, args@.len() as int) =~= views_of(args@));
                }
                p.symbols_within(n) && Expression::all_within_from(args, 0, n)
            },
            Expression::DefVar(v, b) => v.id() < n && b.symbols_within(n),
            Expression::DeFunc(v, ps, b) => v.id() < n && Expression::all_ids_within(ps, n) && b.symbols_within(n),
            _ => true,
        }
    }

    fn all_ids_within(ps: &Vec<Symbol>, n: usize) -> (r: bool)
        ensures
            r == symbols_in_below(ps@, n as nat),
    {
        let mut i: usize = 0;
        while i < ps.len()
            invariant
                i <= ps@.len(),
                forall|k: int| 0 <= k < i ==> (#[trigger] ps@[k]).spec_id() < n,
            decreases ps@.len() - i,
        {
            if ps[i].id() >= n {
                return false;
            }
            i += 1;
        }
        true
    }

    /// Whether every symbol of `args` from index `i` on is below `n`.
    fn all_within_from(args: &Vec<Expression>, i: usize, n: usize) -> (r: bool)
        requires
            i <= args@.len(),
        ensures
            r == all_symbols_below(views_of(args@).subrange(i as int, args@.len() as int), n as nat),
        decreases args, args@.len() - i,
    {
        proof {
            lemma_views_of(args@);
        }
        let ghost vs = views_of(args@);
        if i == args.len() {
            assert(vs.subrange(i as int, args@.len() as int) =~= Seq::<ExprModel>::empty());
            return true;
        }
        let ghost rest = vs.subrange(i as int, args@.len() as int);
        assert(rest[0] == args@[i as int]@);
        assert(rest.drop_first() =~= vs.subrange(i + 1, args@.len() as int));
        assert(decreases_to!(args => args@[i as int]));
        args[i].symbols_within(n) && Expression::all_within_from(args, i + 1, n)
    }

    /// The number of nodes of this expression, if it fits in `usize`.
    pub fn node_count(&self) -> (r: Option<usize>)
        ensures
            r == (if expr_size(self@) <= usize::MAX {
                Some(expr_size(self@) as usize)
            } else {
                None
            }),
        decreases self, 1nat,
    {
        let inner = match self {
            Expression::Lambda(_, b) | Expression::DefVar(_, b) | Expression::DeFunc(_, _, b) => b.node_count(),
            Expression::Let(_, i, b) => match (i.node_count(), b.node_count()) {
                (Some(x), Some(y)) => if x <= usize::MAX - y {
                    Some(x + y)
                } else {
                    None
                },
                _ => None,
            },
            Expression::If(c, y, n) => match (c.node_count(), y.node_count(), n.node_count()) {
                (Some(a), Some(b), Some(d)) => if a <= usize::MAX - b && a + b <= usize::MAX - d {
                    Some(a + b + d)
                } else {
                    None
                },
                _ => None,
            },
            Expression::Apply(p, args) => {
                proof {
                    lemma_views_of(args@);
                    assert(views_of(args@).subrange(0, args@.len() as int) =~= views_of(args@));
                }
                match (p.node_count(), Expression::count_from(args, 0)) {
                    (Some(a), Some(b)) => if a <= usize::MAX - b {
                        Some(a + b)
                    } else {
                        None
                    },
                    _ => None,
                }
            },
            _ => Some(0),
        };
        match inner {
            Some(x) => if x < usize::MAX {
                Some(x + 1)
            } else {
                None
            },
            None => None,
        }
    }

    /// The number of nodes of `args` from index `i` on, if it fits.
    fn count_from(args: &Vec<Expression>, i: usize) -> (r: Option<usize>)
        requires
            i <= args@.len(),
        ensures
            ({
                let total = sizes(views_of(args@).subrange(i as int, args@.len() as int));
                r == (if total <= usize::MAX {
                    Some(total as usize)
                } else {
                    None
                })
            }),
        decreases args, args@.len() - i,
    {
        proof {
            lemma_views_of(args@);
        }
        let ghost vs = views_of(args@);
        if i == args.len() {
            assert(vs.subrange(i as int, args@.len() as int) =~= Seq::<ExprModel>::empty());
            return Some(0);
        }
        let ghost rest = vs.subrange(i as int, args@.len() as int);
        assert(rest[0] == args@[i as int]@);
        assert(rest.drop_first() =~= vs.subrange(i + 1, args@.len() as int));
        assert(decreases_to!(args => args@[i as int]));
        match (args[i].node_count(), Expression::count_from(args, i + 1)) {
            (Some(a), Some(b)) => if a <= usize::MAX - b {
                Some(a + b)
            } else {
                None
            },
            _ => None,
        }
    }

    fn is_primitive(&self) -> (r: bool)
        ensures
            r == (self@ == ExprModel::Primitive),
    {
        match self {
            Expression::Primitive => true,
            _ => false,
        }
    }
}

} // verus!

verus! {

/// No definition occurs inside `e`.
pub open spec fn no_defs(e: ExprModel) -> bool
    decreases e, 1nat,
{
    match e {
        ExprModel::Lambda(_, b) => no_defs(*b),
        ExprModel::Let(_, i, b) => no_defs(*i) && no_defs(*b),
        ExprModel::If(c, y, n) => no_defs(*c) && no_defs(*y) && no_defs(*n),
        ExprModel::Apply(p, args) => no_defs(*p) && all_no_defs(args),
        ExprModel::DefVar(_, _) | ExprModel::DeFunc(_, _, _) => false,
        _ => true,
    }
}

pub open spec fn all_no_defs(es: Seq<ExprModel>) -> bool
    decreases es, 0nat,
{
    es.len() == 0 || (no_defs(es[0]) && all_no_defs(es.drop_first()))
}

/// `e` is in administrative normal form: every operator and operand of an
/// application, and every condition, is atomic, at every depth.
pub open spec fn anf(e: ExprModel) -> bool
    decreases e, 1nat,
{
    match e {
        ExprModel::Lambda(_, b) => anf(*b),
        ExprModel::Let(_, i, b) => anf(*i) && anf(*b),
        ExprModel::If(c, y, n) => atomic(*c) && anf(*c) && anf(*y) && anf(*n),
        ExprModel::Apply(p, args) => atomic(*p) && anf(*p) && all_atomic_anf(args),
        ExprModel::DefVar(_, _) | ExprModel::DeFunc(_, _, _) => false,
        _ => true,
    }
}

/// Each of `es` is atomic and in normal form.
pub open spec fn all_atomic_anf(es: Seq<ExprModel>) -> bool
    decreases es, 0nat,
{
    es.len() == 0 || (atomic(es[0]) && anf(es[0]) && all_atomic_anf(es.drop_first()))
}

pub open spec fn bindings_anf(bs: Seq<Binding>) -> bool {
    forall|i: int| 0 <= i < bs.len() ==> anf(#[trigger] bs[i].1)
}

proof fn lemma_bindings_anf_concat(a: Seq<Binding>, b: Seq<Binding>)
    requires
        bindings_anf(a),
        bindings_anf(b),
    ensures
        bindings_anf(a + b),
{
    assert forall|i: int| 0 <= i < (a + b).len() implies anf(#[trigger] (a + b)[i].1) by {
        if i < a.len() {
            assert((a + b)[i] == a[i]);
        } else {
            assert((a + b)[i] == b[i - a.len()]);
        }
    }
}

proof fn lemma_wrap_anf(bs: Seq<Binding>, c: ExprModel)
    requires
        bindings_anf(bs),
        anf(c),
    ensures
        anf(wrap(bs, c)),
    decreases bs.len(),
{
    if bs.len() > 0 {
        assert(bindings_anf(bs.drop_first())) by {
            assert forall|i: int| 0 <= i < bs.drop_first().len() implies anf(
                #[trigger] bs.drop_first()[i].1,
            ) by {
                assert(bs.drop_first()[i] == bs[i + 1]);
            }
        }
        assert(anf(bs[0].1));
        lemma_wrap_anf(bs.drop_first(), c);
    }
}

proof fn lemma_norm_anf(e: ExprModel, st: NState)
    requires
        no_defs(e),
    ensures
        bindings_anf(norm_spec(e, st).0),
        anf(norm_spec(e, st).1),
    decreases e, 1nat,
{
    match e {
        ExprModel::Lambda(ps, body) => {
            lemma_term_anf(*body, st);
            let b = term_spec(*body, st).0;
            assert(anf(b));
            assert(anf(ExprModel::Lambda(ps, Box::new(b))));
            assert(norm_spec(e, st).1 == ExprModel::Lambda(ps, Box::new(b)));
        },
        ExprModel::Let(v, init, body) => {
            let (bs1, c1, st1) = norm_spec(*init, st);
            lemma_norm_anf(*init, st);
            lemma_norm_anf(*body, st1);
            let bs2 = norm_spec(*body, st1).0;
            assert(bindings_anf(bs1.push((v, c1)))) by {
                assert forall|i: int| 0 <= i < bs1.push((v, c1)).len() implies anf(
                    #[trigger] bs1.push((v, c1))[i].1,
                ) by {
                    if i < bs1.len() {
                        assert(bs1.push((v, c1))[i] == bs1[i]);
                    }
                }
            }
            lemma_bindings_anf_concat(bs1.push((v, c1)), bs2);
        },
        ExprModel::If(c, yes, no) => {
            let (bs, t, st1) = name_spec(*c, st);
            let (y, st2) = term_spec(*yes, st1);
            lemma_name_anf(*c, st);
            lemma_term_anf(*yes, st1);
            lemma_term_anf(*no, st2);
            assert(anf(norm_spec(e, st).1));
        },
        ExprModel::Apply(p, args) => {
            if *p == ExprModel::Primitive {
                lemma_names_anf(args, st);
                let ts = names_spec(args, st).1;
                assert(all_atomic_anf(ts));
                assert(norm_spec(e, st).1 == ExprModel::Apply(p, ts));
                assert(atomic(*p) && anf(*p));
                assert(anf(ExprModel::Apply(p, ts)));
            } else {
                let (bs1, t, st1) = name_spec(*p, st);
                lemma_name_anf(*p, st);
                lemma_names_anf(args, st1);
                lemma_bindings_anf_concat(bs1, names_spec(args, st1).0);
                assert(anf(norm_spec(e, st).1));
            }
        },
        _ => {
            assert(anf(norm_spec(e, st).1));
        },
    }
}

proof fn lemma_name_anf(e: ExprModel, st: NState)
    requires
        no_defs(e),
    ensures
        bindings_anf(name_spec(e, st).0),
        atomic(name_spec(e, st).1),
        anf(name_spec(e, st).1),
    decreases e, 2nat,
{
    lemma_norm_anf(e, st);
    let (bs, c, st1) = norm_spec(e, st);
    if !(bs.len() == 0 && atomic(c)) {
        let (st2, t) = new_var_spec(st1);
        lemma_wrap_anf(bs, c);
        assert(seq![(t, wrap(bs, c))][0] == (t, wrap(bs, c)));
    }
}

proof fn lemma_names_anf(es: Seq<ExprModel>, st: NState)
    requires
        all_no_defs(es),
    ensures
        bindings_anf(names_spec(es, st).0),
        all_atomic_anf(names_spec(es, st).1),
    decreases es, 0nat,
{
    if es.len() > 0 {
        let (bs1, t, st1) = name_spec(es[0], st);
        lemma_name_anf(es[0], st);
        lemma_names_anf(es.drop_first(), st1);
        let (bs2, ts, st2) = names_spec(es.drop_first(), st1);
        lemma_bindings_anf_concat(bs1, bs2);
        assert((seq![t] + ts).drop_first() =~= ts);
    }
}

proof fn lemma_term_anf(e: ExprModel, st: NState)
    requires
        no_defs(e),
    ensures
        anf(term_spec(e, st).0),
    decreases e, 2nat,
{
    lemma_norm_anf(e, st);
    lemma_wrap_anf(norm_spec(e, st).0, norm_spec(e, st).1);
}

/// Normalizing an expression without inner definitions gives an expression
/// in administrative normal form: no application, `let` or `if` stands as an
/// operator, an operand or a condition.
pub proof fn lemma_normal_form(e: ExprModel, st: NState)
    requires
        no_defs(e),
    ensures
        anf(term_spec(e, st).0),
{
    lemma_term_anf(e, st);
}

/// A definition whose body holds no inner definition normalizes to a
/// `DefVar` whose expression is in administrative normal form.
pub proof fn lemma_definition_normal_form(e: ExprModel, st: NState)
    requires
        (e matches ExprModel::DeFunc(_, _, b) && no_defs(*b)) || (e matches ExprModel::DefVar(_, x) && no_defs(*x)),
    ensures
        define_spec(e, st).0 matches Ok(d) && d matches ExprModel::DefVar(_, x) && anf(*x),
{
    match e {
        ExprModel::DeFunc(_, ps, b) => {
            assert(no_defs(ExprModel::Lambda(ps, b)));
            lemma_term_anf(ExprModel::Lambda(ps, b), st);
        },
        ExprModel::DefVar(_, x) => {
            lemma_term_anf(*x, st);
        },
        _ => {},
    }
}

proof fn lemma_norm_grows(e: ExprModel, st: NState)
    ensures
        norm_spec(e, st).2.1.len() >= st.1.len(),
    decreases e, 1nat,
{
    match e {
        ExprModel::Lambda(_, body) => {
            lemma_term_grows(*body, st);
        },
        ExprModel::Let(_, init, body) => {
            lemma_norm_grows(*init, st);
            lemma_norm_grows(*body, norm_spec(*init, st).2);
        },
        ExprModel::If(c, yes, no) => {
            let (_, _, st1) = name_spec(*c, st);
            let (_, st2) = term_spec(*yes, st1);
            lemma_name_grows(*c, st);
            lemma_term_grows(*yes, st1);
            lemma_term_grows(*no, st2);
        },
        ExprModel::Apply(p, args) => {
            if *p == ExprModel::Primitive {
                lemma_names_grows(args, st);
            } else {
                lemma_name_grows(*p, st);
                lemma_names_grows(args, name_spec(*p, st).2);
            }
        },
        _ => {},
    }
}

proof fn lemma_name_grows(e: ExprModel, st: NState)
    ensures
        name_spec(e, st).2.1.len() >= st.1.len(),
    decreases e, 2nat,
{
    lemma_norm_grows(e, st);
}

proof fn lemma_names_grows(es: Seq<ExprModel>, st: NState)
    ensures
        names_spec(es, st).2.1.len() >= st.1.len(),
    decreases es, 0nat,
{
    if es.len() > 0 {
        lemma_name_grows(es[0], st);
        lemma_names_grows(es.drop_first(), name_spec(es[0], st).2);
    }
}

proof fn lemma_term_grows(e: ExprModel, st: NState)
    ensures
        term_spec(e, st).1.1.len() >= st.1.len(),
    decreases e, 2nat,
{
    lemma_norm_grows(e, st);
}

/// Naming a sequence of expressions gives one atomic expression for each.
pub proof fn lemma_names_atomic(es: Seq<ExprModel>, st: NState)
    ensures
        names_spec(es, st).1.len() == es.len(),
        forall|i: int| 0 <= i < es.len() ==> atomic(#[trigger] names_spec(es, st).1[i]),
    decreases es.len(),
{
    if es.len() > 0 {
        let (bs1, t, st1) = name_spec(es[0], st);
        lemma_names_atomic(es.drop_first(), st1);
        let ts = names_spec(es.drop_first(), st1).1;
        assert forall|i: int| 0 <= i < es.len() implies atomic(#[trigger] names_spec(es, st).1[i]) by {
            if i > 0 {
                assert((seq![t] + ts)[i] == ts[i - 1]);
            }
        }
    }
}

/// A value is named by a temporary exactly when normalizing it gives
/// bindings or a value that is not atomic.
pub open spec fn needs_name(e: ExprModel, st: NState) -> bool {
    !(norm_spec(e, st).0.len() == 0 && atomic(norm_spec(e, st).1))
}

/// Normalizing a primitive call with two operands that need naming binds the
/// first operand's normalized value to a temporary in a `let` around the
/// `let` that binds the second's, to another temporary.
pub proof fn lemma_operands_in_order(a: ExprModel, b: ExprModel, st: NState)
    requires
        needs_name(a, st),
        needs_name(b, new_var_spec(norm_spec(a, st).2).0),
        norm_spec(b, new_var_spec(norm_spec(a, st).2).0).2.1.len() < usize::MAX,
    ensures
        ({
            let (bs_a, c_a, st1) = norm_spec(a, st);
            let (st2, t_a) = new_var_spec(st1);
            let (bs_b, c_b, st3) = norm_spec(b, st2);
            let (st4, t_b) = new_var_spec(st3);
            &&& term_spec(ExprModel::Apply(Box::new(ExprModel::Primitive), seq![a, b]), st) == (
                ExprModel::Let(
                    t_a,
                    Box::new(wrap(bs_a, c_a)),
                    Box::new(
                        ExprModel::Let(
                            t_b,
                            Box::new(wrap(bs_b, c_b)),
                            Box::new(
                                ExprModel::Apply(
                                    Box::new(ExprModel::Primitive),
                                    seq![ExprModel::Variable(t_a), ExprModel::Variable(t_b)],
                                ),
                            ),
                        ),
                    ),
                ),
                st4,
            )
            &&& t_a != t_b
        }),
{
    let args = seq![a, b];
    let (bs_a, c_a, st1) = norm_spec(a, st);
    let (st2, t_a) = new_var_spec(st1);
    let (bs_b, c_b, st3) = norm_spec(b, st2);
    let (st4, t_b) = new_var_spec(st3);
    let ba = seq![(t_a, wrap(bs_a, c_a))];
    let bb = seq![(t_b, wrap(bs_b, c_b))];
    assert(args[0] == a);
    assert(args.drop_first() =~= seq![b]);
    assert(seq![b][0] == b);
    assert(seq![b].drop_first() =~= Seq::<ExprModel>::empty());
    assert(name_spec(a, st) == (ba, ExprModel::Variable(t_a), st2));
    assert(name_spec(b, st2) == (bb, ExprModel::Variable(t_b), st4));
    assert(names_spec(Seq::<ExprModel>::empty(), st4) == (Seq::<Binding>::empty(), Seq::<ExprModel>::empty(), st4));
    assert(bb + Seq::<Binding>::empty() =~= bb);
    assert(seq![ExprModel::Variable(t_b)] + Seq::<ExprModel>::empty() =~= seq![ExprModel::Variable(t_b)]);
    assert(names_spec(seq![b], st2) == (bb, seq![ExprModel::Variable(t_b)], st4));
    let ts = seq![ExprModel::Variable(t_a), ExprModel::Variable(t_b)];
    assert(seq![ExprModel::Variable(t_a)] + seq![ExprModel::Variable(t_b)] =~= ts);
    let all = ba + bb;
    assert(names_spec(args, st) == (all, ts, st4));
    let p = Box::new(ExprModel::Primitive);
    let body = ExprModel::Apply(p, ts);
    assert(norm_spec(ExprModel::Apply(p, args), st) == (all, body, st4));
    assert(all.drop_first() =~= bb);
    assert(bb.drop_first() =~= Seq::<Binding>::empty());
    assert(wrap(bb.drop_first(), body) == body);
    assert(all[0] == (t_a, wrap(bs_a, c_a)));
    assert(bb[0] == (t_b, wrap(bs_b, c_b)));
    let inner = ExprModel::Let(t_b, Box::new(wrap(bs_b, c_b)), Box::new(body));
    assert(wrap(bb, body) == inner);
    assert(wrap(all, body) == ExprModel::Let(t_a, Box::new(wrap(bs_a, c_a)), Box::new(inner)));
    lemma_norm_grows(b, st2);
}

/// An `if` whose condition needs no name is normalized without a `let`
/// before it; otherwise the condition's normalized value is bound by a `let`
/// around the `if`, which tests the temporary.
pub proof fn lemma_if_condition(c: ExprModel, yes: ExprModel, no: ExprModel, st: NState)
    ensures
        ({
            let e = ExprModel::If(Box::new(c), Box::new(yes), Box::new(no));
            let (bs, cc, st1) = norm_spec(c, st);
            &&& !needs_name(c, st) ==> term_spec(e, st).0 == ExprModel::If(
                Box::new(cc),
                Box::new(term_spec(yes, st1).0),
                Box::new(term_spec(no, term_spec(yes, st1).1).0),
            )
            &&& atomic(c) && c !is Lambda ==> !needs_name(c, st) && cc == c
            &&& needs_name(c, st) ==> {
                let (st2, t) = new_var_spec(st1);
                let (y, st3) = term_spec(yes, st2);
                let (n, st4) = term_spec(no, st3);
                term_spec(e, st).0 == ExprModel::Let(
                    t,
                    Box::new(wrap(bs, cc)),
                    Box::new(ExprModel::If(Box::new(ExprModel::Variable(t)), Box::new(y), Box::new(n))),
                )
            }
        }),
{
    let e = ExprModel::If(Box::new(c), Box::new(yes), Box::new(no));
    let (bs, cc, st1) = norm_spec(c, st);
    if atomic(c) && c !is Lambda {
        assert(norm_spec(c, st) == (Seq::<Binding>::empty(), c, st));
    }
    if !needs_name(c, st) {
        assert(name_spec(c, st) == (Seq::<Binding>::empty(), cc, st1));
        let (y, st2) = term_spec(yes, st1);
        let (n, st3) = term_spec(no, st2);
        let body = ExprModel::If(Box::new(cc), Box::new(y), Box::new(n));
        assert(norm_spec(e, st) == (Seq::<Binding>::empty(), body, st3));
        assert(wrap(Seq::<Binding>::empty(), body) == body);
    } else {
        let (st2, t) = new_var_spec(st1);
        let (y, st3) = term_spec(yes, st2);
        let (n, st4) = term_spec(no, st3);
        let b1 = seq![(t, wrap(bs, cc))];
        assert(name_spec(c, st) == (b1, ExprModel::Variable(t), st2));
        let body = ExprModel::If(Box::new(ExprModel::Variable(t)), Box::new(y), Box::new(n));
        assert(norm_spec(e, st) == (b1, body, st4));
        assert(b1.drop_first() =~= Seq::<Binding>::empty());
        assert(wrap(b1.drop_first(), body) == body);
    }
}

} // verus!
