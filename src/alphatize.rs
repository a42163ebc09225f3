//! Alphatization: every variable bound by a `lambda` is renamed, at its
//! binder and at each use in its scope, to a fresh symbol made of the
//! original name and a counter. Free variables and quoted data are left as
//! they are.

use vstd::prelude::*;
use crate::error::{not_a_pair, syntax_error, Error, ErrorKind, Syntax};
use crate::matcher::{derefs, match_pattern, match_spec, prefix_spec, Pattern, SchemeExpression};
use crate::object::{lemma_symbols_below_grow, Object, TaggedValue};
use crate::symbol::{decimal, fresh_spec, interned, push_decimal, Symbol, SymbolTable};

verus! {

/// The renaming that one parameter list introduces, in binding order.
pub type Frame = Seq<(Symbol, Symbol)>;

/// The new name of `v` in `frame`, if the frame renames it.
pub open spec fn frame_find(frame: Frame, v: Symbol) -> Option<Symbol>
    decreases frame.len(),
{
    if frame.len() == 0 {
        None
    } else if frame[0].0 == v {
        Some(frame[0].1)
    } else {
        frame_find(frame.drop_first(), v)
    }
}

/// The name of `v` under a chain of frames, innermost last: the renaming of
/// the innermost frame that has one, else `v` itself.
pub open spec fn lookup_spec(frames: Seq<Frame>, v: Symbol) -> Symbol
    decreases frames.len(),
{
    if frames.len() == 0 {
        v
    } else {
        match frame_find(frames.last(), v) {
            Some(x) => x,
            None => lookup_spec(frames.drop_last(), v),
        }
    }
}

/// A chain of renamings, one per lexical level; each level refers to the
/// one around it.
pub struct Scope<'a> {
    rename: Vec<(Symbol, Symbol)>,
    parent: Option<&'a Scope<'a>>,
}

impl<'a> Scope<'a> {
    /// The frames from the outermost to this one.
    pub closed spec fn frames(&self) -> Seq<Frame>
        decreases self,
    {
        match self.parent {
            Some(p) => p.frames().push(self.rename@),
            None => seq![self.rename@],
        }
    }

    /// A root scope, which renames nothing.
    pub fn new() -> (r: Scope<'a>)
        ensures
            r.frames() == seq![Seq::<(Symbol, Symbol)>::empty()],
    {
        let r = Scope { rename: Vec::new(), parent: None };
        assert(r.rename@ =~= Seq::<(Symbol, Symbol)>::empty());
        r
    }

    /// An empty scope inside this one.
    pub fn extend(&'a self) -> (r: Scope<'a>)
        ensures
            r.frames() == self.frames().push(Seq::empty()),
    {
        let r = Scope { rename: Vec::new(), parent: Some(self) };
        assert(r.rename@ =~= Seq::<(Symbol, Symbol)>::empty());
        r
    }

    /// The name that `var` stands for here.
    pub fn lookup(&self, var: Symbol) -> (r: Symbol)
        ensures
            r == lookup_spec(self.frames(), var),
        decreases self,
    {
        assert(self.frames().len() > 0 && self.frames().last() == self.rename@);
        match find_in(&self.rename, var) {
            Some(x) => x,
            None => {
                assert(lookup_spec(self.frames(), var) == lookup_spec(self.frames().drop_last(), var));
                match self.parent {
                    Some(p) => {
                        assert(self.frames().drop_last() =~= p.frames());
                        p.lookup(var)
                    },
                    None => {
                        assert(self.frames().drop_last() =~= Seq::<Frame>::empty());
                        var
                    },
                }
            },
        }
    }

    /// Binds each parameter of the list `vars` in this scope to a fresh
    /// symbol from `a`. Fails on the first parameter that is not a symbol
    /// or that this scope already binds.
    pub fn insert_vars(&mut self, vars: &Object, a: &mut Alphatizer, table: &mut SymbolTable) -> (r: Result<(), Error>)
        requires
            old(table).wf(),
            vars.symbols_below(old(table)@.len()),
            old(a).symbol_counter + vars.size() <= usize::MAX,
        ensures
            final(table).wf(),
            final(table)@.len() >= old(table)@.len(),
            final(a).symbol_counter <= old(a).symbol_counter + vars.size(),
            ({
                let (res, n, names) = insert_spec(
                    *vars,
                    old(self).frames().last(),
                    old(a).symbol_counter as nat,
                    old(table)@,
                );
                &&& final(a).symbol_counter == n
                &&& final(table)@ == names
                &&& match res {
                    Ok(f) => r is Ok && final(self).frames() == old(self).frames().drop_last().push(f),
                    Err(e) => r == Err::<(), Error>(e),
                }
            }),
    {
        assert(old(self).frames().last() == old(self).rename@);
        let mut cursor: &Object = vars;
        while cursor.is_list()
            invariant
                table.wf(),
                table@.len() >= old(table)@.len(),
                cursor.symbols_below(table@.len()),
                a.symbol_counter + cursor.size() <= old(a).symbol_counter + vars.size(),
                old(a).symbol_counter + vars.size() <= usize::MAX,
                self.parent == old(self).parent,
                insert_spec(*vars, old(self).rename@, old(a).symbol_counter as nat, old(table)@)
                    == insert_spec(*cursor, self.rename@, a.symbol_counter as nat, table@),
            decreases cursor.size(),
        {
            match cursor.decons() {
                Some((x, d)) => {
                    let ghost len_before = table@.len();
                    assert(x.symbols_below(len_before) && d.symbols_below(len_before));
                    assert(d.size() < cursor.size());
                    match x.as_symbol() {
                        None => {
                            return Err(Error::new(ErrorKind::SyntaxError(Syntax::ParameterNotSymbol(x.deep_clone()))));
                        },
                        Some(v) => {
                            let f = a.make_unique_symbol(table, v);
                            proof {
                                lemma_symbols_below_grow(*d, len_before, table@.len());
                            }
                            if find_in(&self.rename, v).is_some() {
                                return Err(Error::new(ErrorKind::SyntaxError(Syntax::DuplicateParameter(v))));
                            }
                            self.rename.push((v, f));
                            cursor = d;
                        },
                    }
                },
                None => {},
            }
        }
        assert(self.frames() == old(self).frames().drop_last().push(self.rename@)) by {
            match self.parent {
                Some(p) => {
                    assert(old(self).frames().drop_last() =~= p.frames());
                },
                None => {
                    assert(old(self).frames().drop_last() =~= Seq::<Frame>::empty());
                    assert(self.frames() =~= Seq::<Frame>::empty().push(self.rename@));
                },
            }
        }
        Ok(())
    }
}

/// The new name of `v` in `frame`, if the frame renames it.
fn find_in(frame: &Vec<(Symbol, Symbol)>, v: Symbol) -> (r: Option<Symbol>)
    ensures
        r == frame_find(frame@, v),
{
    let n = frame.len();
    let mut i: usize = 0;
    assert(frame@.subrange(0, n as int) =~= frame@);
    while i < n
        invariant
            n == frame@.len(),
            i <= n,
            frame_find(frame@, v) == frame_find(frame@.subrange(i as int, n as int), v),
        decreases n - i,
    {
        let ghost rest = frame@.subrange(i as int, n as int);
        assert(rest.drop_first() =~= frame@.subrange(i + 1, n as int));
        if frame[i].0 == v {
            return Some(frame[i].1);
        }
        i += 1;
    }
    assert(frame@.subrange(n as int, n as int).len() == 0);
    None
}

/// The tree that is the single symbol `s`.
pub open spec fn sym(s: Symbol) -> Object {
    Object { content: TaggedValue::Symbol(s) }
}

pub open spec fn lambda_name() -> Seq<char> {
    seq!['l', 'a', 'm', 'b', 'd', 'a']
}

pub open spec fn quote_name() -> Seq<char> {
    seq!['q', 'u', 'o', 't', 'e']
}

/// The table after making the fresh symbol for `s` with the counter at `n`,
/// and that symbol: a new name, the name of `s` followed by the numeral of
/// `n` (and by primes if that name is taken).
pub open spec fn unique_spec(s: Symbol, n: nat, names: Seq<Seq<char>>) -> (Seq<Seq<char>>, Symbol) {
    fresh_spec(names, names[s.spec_id() as int] + decimal(n))
}

/// Binds each parameter of `vars` to a fresh symbol, appending to `frame`,
/// and threads the counter `n` and the table `names`.
pub open spec fn insert_spec(vars: Object, frame: Frame, n: nat, names: Seq<Seq<char>>) -> (
    Result<Frame, Error>,
    nat,
    Seq<Seq<char>>,
)
    decreases vars,
{
    match vars.content {
        TaggedValue::Pair(a, d) => match a.content {
            TaggedValue::Symbol(v) => {
                let (names1, f) = unique_spec(v, n, names);
                if frame_find(frame, v) is Some {
                    (Err(syntax_error(Syntax::DuplicateParameter(v))), n + 1, names1)
                } else {
                    insert_spec(*d, frame.push((v, f)), n + 1, names1)
                }
            },
            _ => (Err(syntax_error(Syntax::ParameterNotSymbol(*a))), n, names),
        },
        _ => (Ok(frame), n, names),
    }
}

/// The parameter list `vars` with each parameter renamed under `frames`.
pub open spec fn varlist_spec(vars: Object, frames: Seq<Frame>) -> Result<Object, Error>
    decreases vars,
{
    match vars.content {
        TaggedValue::Nil => Ok(vars),
        TaggedValue::Pair(a, d) => match a.content {
            TaggedValue::Symbol(v) => match varlist_spec(*d, frames) {
                Ok(rest) => Ok(Object::pair(sym(lookup_spec(frames, v)), rest)),
                Err(e) => Err(e),
            },
            _ => Err(syntax_error(Syntax::ParameterNotSymbol(*a))),
        },
        _ => Err(not_a_pair(vars)),
    }
}

/// `o` is `(lambda params . body)`.
pub open spec fn is_lambda_form(o: Object, lam: Symbol) -> bool {
    o.content matches TaggedValue::Pair(a, d) && a.content == TaggedValue::Symbol(lam)
        && d.content is Pair
}

/// `o` is `(quote . _)`.
pub open spec fn is_quote_form(o: Object, quo: Symbol) -> bool {
    o.content matches TaggedValue::Pair(a, _) && a.content == TaggedValue::Symbol(quo)
}

/// Alphatization of `o` under `frames`, with the counter at `n` and the
/// table `names`: the result, the counter after, the table after. `lam` and
/// `quo` are the symbols `lambda` and `quote`.
pub open spec fn alpha_spec(
    o: Object,
    frames: Seq<Frame>,
    n: nat,
    names: Seq<Seq<char>>,
    lam: Symbol,
    quo: Symbol,
) -> (Result<Object, Error>, nat, Seq<Seq<char>>)
    decreases o, 1nat,
{
    match o.content {
        TaggedValue::Pair(a, d) => if is_lambda_form(o, lam) {
            let params = *d.content->Pair_0;
            let body = *d.content->Pair_1;
            let (ins, n1, names1) = insert_spec(params, Seq::empty(), n, names);
            match ins {
                Err(e) => (Err(e), n1, names1),
                Ok(frame) => {
                    let inner = frames.push(frame);
                    match varlist_spec(params, inner) {
                        Err(e) => (Err(e), n1, names1),
                        Ok(np) => {
                            let (rb, n2, names2) = seq_spec(body, inner, n1, names1, lam, quo);
                            match rb {
                                Err(e) => (Err(e), n2, names2),
                                Ok(nb) => (Ok(Object::pair(*a, Object::pair(np, nb))), n2, names2),
                            }
                        },
                    }
                },
            }
        } else if is_quote_form(o, quo) {
            (Ok(o), n, names)
        } else {
            let (ra, n1, names1) = alpha_spec(*a, frames, n, names, lam, quo);
            match ra {
                Err(e) => (Err(e), n1, names1),
                Ok(na) => {
                    let (rd, n2, names2) = seq_spec(*d, frames, n1, names1, lam, quo);
                    match rd {
                        Err(e) => (Err(e), n2, names2),
                        Ok(nd) => (Ok(Object::pair(na, nd)), n2, names2),
                    }
                },
            }
        },
        TaggedValue::Symbol(s) => (Ok(sym(lookup_spec(frames, s))), n, names),
        _ => (Ok(o), n, names),
    }
}

/// Alphatization of each element of the list `o`, re-consed; the end of the
/// list is kept if it is `()` or another atom, and renamed if it is a
/// symbol, so dotted tails are alphatized too.
pub open spec fn seq_spec(
    o: Object,
    frames: Seq<Frame>,
    n: nat,
    names: Seq<Seq<char>>,
    lam: Symbol,
    quo: Symbol,
) -> (Result<Object, Error>, nat, Seq<Seq<char>>)
    decreases o, 0nat,
{
    match o.content {
        TaggedValue::Nil => (Ok(o), n, names),
        TaggedValue::Pair(a, d) => {
            let (ra, n1, names1) = alpha_spec(*a, frames, n, names, lam, quo);
            match ra {
                Err(e) => (Err(e), n1, names1),
                Ok(na) => {
                    let (rd, n2, names2) = seq_spec(*d, frames, n1, names1, lam, quo);
                    match rd {
                        Err(e) => (Err(e), n2, names2),
                        Ok(nd) => (Ok(Object::pair(na, nd)), n2, names2),
                    }
                },
            }
        },
        TaggedValue::Symbol(s) => (Ok(sym(lookup_spec(frames, s))), n, names),
        _ => (Ok(o), n, names),
    }
}

/// Among `items`, one at or after `from` is not a symbol, or repeats a symbol
/// that `frame` binds or that comes before it.
pub open spec fn has_bad_parameter_from(items: Seq<Object>, frame: Frame) -> bool {
    exists|i: int|
        0 <= i < items.len() && #[trigger] bad_at(items, frame, i)
}

pub open spec fn bad_at(items: Seq<Object>, frame: Frame, i: int) -> bool {
    match items[i].content {
        TaggedValue::Symbol(w) => frame_find(frame, w) is Some || exists|j: int| 0 <= j < i && items[j] == items[i],
        _ => true,
    }
}

/// A parameter list in which some parameter is not a symbol or is named
/// twice.
pub open spec fn has_bad_parameter(params: Object) -> bool {
    has_bad_parameter_from(params.items(), Seq::empty())
}

proof fn lemma_frame_find_push(frame: Frame, v: Symbol, f: Symbol, w: Symbol)
    ensures
        frame_find(frame.push((v, f)), w) is Some <==> (frame_find(frame, w) is Some || w == v),
    decreases frame.len(),
{
    if frame.len() > 0 {
        assert(frame.push((v, f)).drop_first() =~= frame.drop_first().push((v, f)));
        assert(frame.push((v, f))[0] == frame[0]);
        lemma_frame_find_push(frame.drop_first(), v, f, w);
    } else {
        assert(frame.push((v, f)).drop_first() =~= Seq::<(Symbol, Symbol)>::empty());
        assert(frame.push((v, f))[0] == (v, f));
        assert(frame_find(Seq::<(Symbol, Symbol)>::empty(), w) is None);
    }
}

proof fn lemma_insert_fails(vars: Object, frame: Frame, n: nat, names: Seq<Seq<char>>)
    requires
        has_bad_parameter_from(vars.items(), frame),
    ensures
        insert_spec(vars, frame, n, names).0 matches Err(e) && e.kind is SyntaxError,
    decreases vars,
{
    let items = vars.items();
    let i = choose|i: int| 0 <= i < items.len() && #[trigger] bad_at(items, frame, i);
    if let TaggedValue::Pair(a, d) = vars.content {
        assert(items[0] == *a);
        if let TaggedValue::Symbol(v) = a.content {
            let (names1, f) = unique_spec(v, n, names);
            if frame_find(frame, v) is None {
                let frame1 = frame.push((v, f));
                let rest = d.items();
                assert(items == seq![*a] + rest);
                assert(i > 0);
                assert(bad_at(rest, frame1, i - 1)) by {
                    assert(rest[i - 1] == items[i]);
                    if let TaggedValue::Symbol(w) = items[i].content {
                        lemma_frame_find_push(frame, v, f, w);
                        if frame_find(frame, w) is None {
                            let j = choose|j: int| 0 <= j < i && items[j] == items[i];
                            if j > 0 {
                                assert(rest[j - 1] == items[j]);
                            }
                        }
                    }
                }
                lemma_insert_fails(*d, frame1, n + 1, names1);
            }
        }
    }
}

proof fn lemma_insert_ok(vars: Object, frame: Frame, n: nat, names: Seq<Seq<char>>)
    requires
        !has_bad_parameter_from(vars.items(), frame),
    ensures
        insert_spec(vars, frame, n, names).0 is Ok,
    decreases vars,
{
    let items = vars.items();
    if let TaggedValue::Pair(a, d) = vars.content {
        assert(items[0] == *a);
        assert(!bad_at(items, frame, 0));
        if let TaggedValue::Symbol(v) = a.content {
            let (names1, f) = unique_spec(v, n, names);
            let frame1 = frame.push((v, f));
            let rest = d.items();
            assert(items == seq![*a] + rest);
            assert forall|i: int| 0 <= i < rest.len() implies !#[trigger] bad_at(rest, frame1, i) by {
                assert(rest[i] == items[i + 1]);
                assert(!bad_at(items, frame, i + 1));
                if let TaggedValue::Symbol(w) = rest[i].content {
                    lemma_frame_find_push(frame, v, f, w);
                    if w == v {
                        assert(items[0] == items[i + 1]);
                    }
                    if exists|j: int| 0 <= j < i && rest[j] == rest[i] {
                        let j = choose|j: int| 0 <= j < i && rest[j] == rest[i];
                        assert(items[j + 1] == items[i + 1]);
                    }
                }
            }
            lemma_insert_ok(*d, frame1, n + 1, names1);
        }
    }
}

/// Binding a parameter list fails exactly when some parameter is not a
/// symbol or is named twice, and then with a syntax error.
pub proof fn lemma_parameters_fail_iff(params: Object, n: nat, names: Seq<Seq<char>>)
    ensures
        insert_spec(params, Seq::empty(), n, names).0 is Err <==> has_bad_parameter(params),
        insert_spec(params, Seq::empty(), n, names).0 matches Err(e) ==> e.kind is SyntaxError,
{
    if has_bad_parameter(params) {
        lemma_insert_fails(params, Seq::empty(), n, names);
    } else {
        lemma_insert_ok(params, Seq::empty(), n, names);
    }
}

/// A `lambda` form whose parameter list has a parameter that is not a symbol,
/// or one parameter named twice, fails to alphatize with a syntax error.
pub proof fn lemma_bad_parameters_fail(
    o: Object,
    frames: Seq<Frame>,
    n: nat,
    names: Seq<Seq<char>>,
    lam: Symbol,
    quo: Symbol,
)
    requires
        is_lambda_form(o, lam),
        has_bad_parameter(*o.content->Pair_1.content->Pair_0),
    ensures
        alpha_spec(o, frames, n, names, lam, quo).0 matches Err(e) && e.kind is SyntaxError,
{
    lemma_insert_fails(*o.content->Pair_1.content->Pair_0, Seq::empty(), n, names);
}

/// A quoted form comes out of alphatization exactly as it went in, and
/// neither the counter nor the table changes.
pub proof fn lemma_quote_preserved(
    o: Object,
    frames: Seq<Frame>,
    n: nat,
    names: Seq<Seq<char>>,
    lam: Symbol,
    quo: Symbol,
)
    requires
        is_quote_form(o, quo),
        lam != quo,
    ensures
        alpha_spec(o, frames, n, names, lam, quo) == (Ok::<Object, Error>(o), n, names),
{
    assert(!is_lambda_form(o, lam));
}

/// The symbols and templates of the two special forms.
struct Keywords {
    lam: Symbol,
    quo: Symbol,
    lambda_form: Pattern,
    quote_form: Pattern,
}

impl Keywords {
    spec fn wf(&self) -> bool {
        &&& self.lambda_form matches Pattern::ListRest(ps, rest) && ps@ == seq![
            Pattern::Symbol(self.lam),
            Pattern::Capture,
        ] && *rest == Pattern::Capture
        &&& self.quote_form matches Pattern::ListRest(ps, rest) && ps@ == seq![Pattern::Symbol(self.quo)]
            && *rest == Pattern::Any
    }
}

/// The template `(lambda ?params . ?body)` matches exactly the lambda forms,
/// capturing the parameters and the body.
pub(crate) proof fn lemma_lambda_template(p: Pattern, lam: Symbol, o: Object)
    requires
        p matches Pattern::ListRest(ps, rest) && ps@ == seq![Pattern::Symbol(lam), Pattern::Capture]
            && *rest == Pattern::Capture,
    ensures
        match_spec(p, o) is Some <==> is_lambda_form(o, lam),
        is_lambda_form(o, lam) ==> match_spec(p, o) == Some(
            seq![*o.content->Pair_1.content->Pair_0, *o.content->Pair_1.content->Pair_1],
        ),
{
    let ps = p->ListRest_0@;
    if let TaggedValue::Pair(a, d) = o.content {
        let ps1 = ps.drop_first();
        assert(ps1.drop_first() =~= Seq::<Pattern>::empty());
        if let TaggedValue::Pair(x, y) = d.content {
            assert(prefix_spec(ps1.drop_first(), *y) == Some((Seq::<Object>::empty(), *y)));
            assert(match_spec(ps1[0], *x) == Some(seq![*x]));
            assert(prefix_spec(ps1, *d) == Some((seq![*x] + Seq::<Object>::empty(), *y)));
            assert(seq![*x] + Seq::<Object>::empty() =~= seq![*x]);
            if a.content == TaggedValue::Symbol(lam) {
                assert(match_spec(ps[0], *a) == Some(Seq::<Object>::empty()));
                assert(Seq::<Object>::empty() + seq![*x] =~= seq![*x]);
                assert(prefix_spec(ps, o) == Some((seq![*x], *y)));
                assert(match_spec(*p->ListRest_1, *y) == Some(seq![*y]));
                assert(seq![*x] + seq![*y] =~= seq![*x, *y]);
            } else {
                assert(match_spec(ps[0], *a) is None);
                assert(prefix_spec(ps, o) is None);
            }
        } else {
            assert(prefix_spec(ps1, *d) is None);
            assert(prefix_spec(ps, o) is None);
        }
    } else {
        assert(prefix_spec(ps, o) is None);
    }
}

/// The template `(quote . _)` matches exactly the quote forms.
proof fn lemma_quote_template(p: Pattern, quo: Symbol, o: Object)
    requires
        p matches Pattern::ListRest(ps, rest) && ps@ == seq![Pattern::Symbol(quo)] && *rest == Pattern::Any,
    ensures
        match_spec(p, o) is Some <==> is_quote_form(o, quo),
{
    let ps = p->ListRest_0@;
    if let TaggedValue::Pair(a, d) = o.content {
        assert(ps.drop_first() =~= Seq::<Pattern>::empty());
        assert(prefix_spec(ps.drop_first(), *d) == Some((Seq::<Object>::empty(), *d)));
        if a.content == TaggedValue::Symbol(quo) {
            assert(match_spec(ps[0], *a) == Some(Seq::<Object>::empty()));
            assert(prefix_spec(ps, o) == Some((Seq::<Object>::empty() + Seq::<Object>::empty(), *d)));
            assert(match_spec(*p->ListRest_1, *d) == Some(Seq::<Object>::empty()));
        } else {
            assert(match_spec(ps[0], *a) is None);
            assert(prefix_spec(ps, o) is None);
        }
    } else {
        assert(prefix_spec(ps, o) is None);
    }
}

/// Renames bound variables to fresh symbols. Its counter only grows, so the
/// symbols it makes for different binders differ.
pub struct Alphatizer {
    pub symbol_counter: usize,
}

impl Alphatizer {
    pub fn new() -> (r: Alphatizer)
        ensures
            r.symbol_counter == 0,
    {
        Alphatizer { symbol_counter: 0 }
    }

    /// Alphatizes `input`, whose symbols belong to `table`. The symbols
    /// `lambda` and `quote` are interned first.
    pub fn transform(&mut self, table: &mut SymbolTable, input: &Object) -> (r: Result<Object, Error>)
        requires
            old(table).wf(),
            input.symbols_below(old(table)@.len()),
            old(self).symbol_counter + input.size() <= usize::MAX,
        ensures
            final(table).wf(),
            ({
                let (names1, lam) = interned(old(table)@, lambda_name());
                let (names2, quo) = interned(names1, quote_name());
                (r, final(self).symbol_counter as nat, final(table)@) == alpha_spec(
                    *input,
                    seq![Seq::empty()],
                    old(self).symbol_counter as nat,
                    names2,
                    lam,
                    quo,
                )
            }),
    {
        proof {
            reveal_strlit("lambda");
            reveal_strlit("quote");
            assert("lambda"@ =~= lambda_name());
            assert("quote"@ =~= quote_name());
        }
        let lam = table.intern("lambda");
        let quo = table.intern("quote");
        proof {
            lemma_symbols_below_grow(*input, old(table)@.len(), table@.len());
        }
        let kw = Keywords {
            lam,
            quo,
            lambda_form: Pattern::ListRest(vec![Pattern::Symbol(lam), Pattern::Capture], Box::new(Pattern::Capture)),
            quote_form: Pattern::ListRest(vec![Pattern::Symbol(quo)], Box::new(Pattern::Any)),
        };
        assert(kw.lambda_form->ListRest_0@ =~= seq![Pattern::Symbol(lam), Pattern::Capture]);
        assert(kw.quote_form->ListRest_0@ =~= seq![Pattern::Symbol(quo)]);
        let scope = Scope::new();
        self.transform_recursive(table, input, &scope, &kw)
    }

    fn transform_recursive(&mut self, table: &mut SymbolTable, input: &Object, scope: &Scope, kw: &Keywords) -> (r:
        Result<Object, Error>)
        requires
            old(table).wf(),
            kw.wf(),
            input.symbols_below(old(table)@.len()),
            old(self).symbol_counter + input.size() <= usize::MAX,
        ensures
            final(table).wf(),
            final(table)@.len() >= old(table)@.len(),
            final(self).symbol_counter <= old(self).symbol_counter + input.size(),
            (r, final(self).symbol_counter as nat, final(table)@) == alpha_spec(
                *input,
                scope.frames(),
                old(self).symbol_counter as nat,
                old(table)@,
                kw.lam,
                kw.quo,
            ),
        decreases input, 1nat,
    {
        proof {
            lemma_lambda_template(kw.lambda_form, kw.lam, *input);
            lemma_quote_template(kw.quote_form, kw.quo, *input);
        }
        match match_pattern(&kw.lambda_form, input) {
            Some(caps) => {
                assert(derefs(caps@).len() == caps@.len());
                assert(derefs(caps@)[0] == *caps@[0] && derefs(caps@)[1] == *caps@[1]);
                let params = caps[0];
                let body = caps[1];
                assert(*params == *input.content->Pair_1.content->Pair_0);
                assert(*body == *input.content->Pair_1.content->Pair_1);
                proof {
                    let d = *input.content->Pair_1;
                    assert(d.symbols_below(table@.len()));
                    assert(params.symbols_below(table@.len()) && body.symbols_below(table@.len()));
                    assert(d.size() < input.size());
                    assert(params.size() + body.size() < d.size());
                }
                let mut inner = scope.extend();
                match inner.insert_vars(params, self, table) {
                    Err(e) => {
                        return Err(e);
                    },
                    Ok(()) => {},
                }
                assert(scope.frames().push(Seq::empty()).drop_last() =~= scope.frames());
                let new_params = match self.transform_varlist(params, &inner) {
                    Err(e) => {
                        return Err(e);
                    },
                    Ok(p) => p,
                };
                proof {
                    lemma_symbols_below_grow(*body, old(table)@.len(), table@.len());
                }
                let new_body = match self.transform_sequence(table, body, &inner, kw) {
                    Err(e) => {
                        return Err(e);
                    },
                    Ok(b) => b,
                };
                Ok(Object::cons(Object::from_symbol(kw.lam), Object::cons(new_params, new_body)))
            },
            None => {
                if match_pattern(&kw.quote_form, input).is_some() {
                    return Ok(input.deep_clone());
                }
                match input.decons() {
                    Some((first, tail)) => {
                        let f = match self.transform_recursive(table, first, scope, kw) {
                            Err(e) => {
                                return Err(e);
                            },
                            Ok(f) => f,
                        };
                        proof {
                            lemma_symbols_below_grow(*tail, old(table)@.len(), table@.len());
                        }
                        let t = match self.transform_sequence(table, tail, scope, kw) {
                            Err(e) => {
                                return Err(e);
                            },
                            Ok(t) => t,
                        };
                        Ok(Object::cons(f, t))
                    },
                    None => match input.as_symbol() {
                        Some(s) => Ok(Object::from_symbol(scope.lookup(s))),
                        None => Ok(input.deep_clone()),
                    },
                }
            },
        }
    }

    fn transform_sequence(&mut self, table: &mut SymbolTable, exps: &Object, scope: &Scope, kw: &Keywords) -> (r:
        Result<Object, Error>)
        requires
            old(table).wf(),
            kw.wf(),
            exps.symbols_below(old(table)@.len()),
            old(self).symbol_counter + exps.size() <= usize::MAX,
        ensures
            final(table).wf(),
            final(table)@.len() >= old(table)@.len(),
            final(self).symbol_counter <= old(self).symbol_counter + exps.size(),
            (r, final(self).symbol_counter as nat, final(table)@) == seq_spec(
                *exps,
                scope.frames(),
                old(self).symbol_counter as nat,
                old(table)@,
                kw.lam,
                kw.quo,
            ),
        decreases exps, 0nat,
    {
        match exps.decons() {
            Some((first, tail)) => {
                let f = match self.transform_recursive(table, first, scope, kw) {
                    Err(e) => {
                        return Err(e);
                    },
                    Ok(f) => f,
                };
                proof {
                    lemma_symbols_below_grow(*tail, old(table)@.len(), table@.len());
                }
                let t = match self.transform_sequence(table, tail, scope, kw) {
                    Err(e) => {
                        return Err(e);
                    },
                    Ok(t) => t,
                };
                Ok(Object::cons(f, t))
            },
            None => match exps.as_symbol() {
                Some(s) => Ok(Object::from_symbol(scope.lookup(s))),
                None => Ok(exps.deep_clone()),
            },
        }
    }

    fn transform_varlist(&self, vars: &Object, scope: &Scope) -> (r: Result<Object, Error>)
        ensures
            r == varlist_spec(*vars, scope.frames()),
        decreases vars,
    {
        match vars.decons() {
            Some((x, rest)) => match x.as_symbol() {
                Some(v) => {
                    let new_rest = match self.transform_varlist(rest, scope) {
                        Err(e) => {
                            return Err(e);
                        },
                        Ok(r) => r,
                    };
                    Ok(Object::cons(Object::from_symbol(scope.lookup(v)), new_rest))
                },
                None => Err(Error::new(ErrorKind::SyntaxError(Syntax::ParameterNotSymbol(x.deep_clone())))),
            },
            None => {
                if vars.is_nil() {
                    Ok(Object::nil())
                } else {
                    Err(Error::new(ErrorKind::NotAPair(vars.deep_clone())))
                }
            },
        }
    }

    /// A fresh symbol for `s`: its name followed by the counter, which then
    /// advances, and by primes if that name is already in the table. The
    /// symbol is new to the table, so it captures no other.
    pub fn make_unique_symbol(&mut self, table: &mut SymbolTable, s: Symbol) -> (r: Symbol)
        requires
            old(table).wf(),
            old(table).holds(s),
            old(self).symbol_counter < usize::MAX,
        ensures
            final(table).wf(),
            final(table)@.len() == old(table)@.len() + 1,
            final(self).symbol_counter == old(self).symbol_counter + 1,
            (final(table)@, r) == unique_spec(s, old(self).symbol_counter as nat, old(table)@),
            r.spec_id() == old(table)@.len(),
            !old(table)@.contains(final(table)@[r.spec_id() as int]),
    {
        let mut name = String::from_str(table.name_of(s));
        push_decimal(&mut name, self.symbol_counter);
        self.symbol_counter += 1;
        table.fresh(name)
    }
}

} // verus!
