//! Structural pattern matching over trees of cons pairs.
//!
//! A [`Pattern`] describes the shape of a tree: a wildcard, a capture, a
//! literal atom, or a list of sub-patterns, possibly with a pattern for the
//! rest of the list. Matching walks pattern and tree together, left to
//! right, and yields the captured subtrees in the order their captures
//! appear in the pattern.

use vstd::prelude::*;
use crate::object::{Object, TaggedValue};
use crate::symbol::Symbol;

verus! {

broadcast use vstd::std_specs::vec::group_vec_axioms, vstd::seq::group_seq_axioms;

/// A tree that can be taken apart as cons pairs.
pub trait SchemeExpression: Sized {
    spec fn spec_is_nil(&self) -> bool;

    spec fn spec_car(&self) -> Option<Self>;

    spec fn spec_cdr(&self) -> Option<Self>;

    spec fn spec_symbol(&self) -> Option<Symbol>;

    spec fn spec_integer(&self) -> Option<i64>;

    fn is_nil(&self) -> (r: bool)
        ensures
            r == self.spec_is_nil(),
    ;

    fn as_symbol(&self) -> (r: Option<Symbol>)
        ensures
            r == self.spec_symbol(),
    ;

    fn as_integer(&self) -> (r: Option<i64>)
        ensures
            r == self.spec_integer(),
    ;

    /// Both halves of a pair.
    fn decons(&self) -> (r: Option<(&Self, &Self)>)
        ensures
            match r {
                Some((a, d)) => self.spec_car() == Some(*a) && self.spec_cdr() == Some(*d),
                None => self.spec_car() is None || self.spec_cdr() is None,
            },
    ;
}

/// A template for the shape of a tree.
#[derive(Debug, PartialEq)]
pub enum Pattern {
    /// Matches anything and binds nothing.
    Any,
    /// Matches anything and binds it.
    Capture,
    /// Matches only this integer.
    Integer(i64),
    /// Matches only this symbol.
    Symbol(Symbol),
    /// Matches a proper list with one element per sub-pattern.
    List(Vec<Pattern>),
    /// Matches a list that starts with elements matching the sub-patterns;
    /// the remaining tail, proper or not, must match the last pattern.
    ListRest(Vec<Pattern>, Box<Pattern>),
}

/// What matching `p` against `t` captures, or `None` if it does not match.
pub open spec fn match_spec<T: SchemeExpression>(p: Pattern, t: T) -> Option<Seq<T>>
    decreases p,
{
    match p {
        Pattern::Any => Some(Seq::empty()),
        Pattern::Capture => Some(seq![t]),
        Pattern::Integer(i) => if t.spec_integer() == Some(i) {
            Some(Seq::empty())
        } else {
            None
        },
        Pattern::Symbol(s) => if t.spec_symbol() == Some(s) {
            Some(Seq::empty())
        } else {
            None
        },
        Pattern::List(ps) => match prefix_spec(ps@, t) {
            Some((caps, tail)) => if tail.spec_is_nil() {
                Some(caps)
            } else {
                None
            },
            None => None,
        },
        Pattern::ListRest(ps, rest) => match prefix_spec(ps@, t) {
            Some((caps, tail)) => match match_spec(*rest, tail) {
                Some(more) => Some(caps + more),
                None => None,
            },
            None => None,
        },
    }
}

/// Matches the elements of a list against `ps` one by one; yields the
/// captures and the tail after the last of them.
pub open spec fn prefix_spec<T: SchemeExpression>(ps: Seq<Pattern>, t: T) -> Option<(Seq<T>, T)>
    decreases ps,
{
    if ps.len() == 0 {
        Some((Seq::empty(), t))
    } else {
        match (t.spec_car(), t.spec_cdr()) {
            (Some(a), Some(d)) => match match_spec(ps[0], a) {
                Some(c) => match prefix_spec(ps.drop_first(), d) {
                    Some((more, tail)) => Some((c + more, tail)),
                    None => None,
                },
                None => None,
            },
            _ => None,
        }
    }
}

/// The referenced values.
pub open spec fn derefs<T>(s: Seq<&T>) -> Seq<T> {
    s.map_values(|x: &T| *x)
}

spec fn after<T>(acc: Seq<T>, r: Option<(Seq<T>, T)>) -> Option<(Seq<T>, T)> {
    match r {
        Some((c, tail)) => Some((acc + c, tail)),
        None => None,
    }
}

/// Matches `p` against `t`; on success, the captured subtrees in order.
pub fn match_pattern<'a, T: SchemeExpression>(p: &Pattern, t: &'a T) -> (r: Option<Vec<&'a T>>)
    ensures
        match r {
            Some(v) => match_spec(*p, *t) == Some(derefs(v@)),
            None => match_spec(*p, *t) is None,
        },
    decreases p,
{
    match p {
        Pattern::Any => Some(Vec::new()),
        Pattern::Capture => {
            let mut v = Vec::new();
            v.push(t);
            assert(derefs(v@) =~= seq![*t]);
            Some(v)
        },
        Pattern::Integer(i) => {
            match t.as_integer() {
                Some(j) => if j == *i {
                    Some(Vec::new())
                } else {
                    None
                },
                None => None,
            }
        },
        Pattern::Symbol(s) => {
            match t.as_symbol() {
                Some(x) => if x == *s {
                    Some(Vec::new())
                } else {
                    None
                },
                None => None,
            }
        },
        Pattern::List(ps) => {
            match match_prefix(ps, t) {
                Some((caps, tail)) => if tail.is_nil() {
                    Some(caps)
                } else {
                    None
                },
                None => None,
            }
        },
        Pattern::ListRest(ps, rest) => {
            match match_prefix(ps, t) {
                Some((mut caps, tail)) => {
                    match match_pattern(&**rest, tail) {
                        Some(mut more) => {
                            let ghost c = caps@;
                            let ghost m = more@;
                            caps.append(&mut more);
                            assert(derefs(caps@) =~= derefs(c) + derefs(m));
                            Some(caps)
                        },
                        None => None,
                    }
                },
                None => None,
            }
        },
    }
}

/// Matches the first elements of the list `t` against `ps`; on success, the
/// captures and the tail that follows those elements.
fn match_prefix<'a, T: SchemeExpression>(ps: &Vec<Pattern>, t: &'a T) -> (r: Option<(Vec<&'a T>, &'a T)>)
    ensures
        match r {
            Some((v, tail)) => prefix_spec(ps@, *t) == Some((derefs(v@), *tail)),
            None => prefix_spec(ps@, *t) is None,
        },
    decreases ps,
{
    let n = ps.len();
    let mut acc: Vec<&'a T> = Vec::new();
    let mut cur: &'a T = t;
    let mut i: usize = 0;
    assert(ps@.subrange(0, n as int) =~= ps@);
    assert(derefs(acc@) =~= Seq::<T>::empty());
    proof {
        match prefix_spec(ps@, *t) {
            Some((c, tl)) => {
                assert(Seq::<T>::empty() + c =~= c);
            },
            None => {},
        }
    }
    while i < n
        invariant
            n == ps@.len(),
            i <= n,
            prefix_spec(ps@, *t) == after(derefs(acc@), prefix_spec(ps@.subrange(i as int, n as int), *cur)),
        decreases n - i,
    {
        let ghost rest = ps@.subrange(i as int, n as int);
        assert(rest[0] == ps@[i as int]);
        assert(rest.drop_first() =~= ps@.subrange(i + 1, n as int));
        match cur.decons() {
            Some((a, d)) => {
                assert(decreases_to!(ps => ps[i as int]));
                match match_pattern(&ps[i], a) {
                    Some(mut c) => {
                        let ghost old_acc = derefs(acc@);
                        let ghost cv = derefs(c@);
                        acc.append(&mut c);
                        assert(derefs(acc@) =~= old_acc + cv);
                        assert forall|x: Seq<T>| #[trigger] (old_acc + (cv + x)) =~= (derefs(acc@) + x) by {}
                        cur = d;
                    },
                    None => {
                        return None;
                    },
                }
            },
            None => {
                return None;
            },
        }
        i += 1;
    }
    assert(ps@.subrange(n as int, n as int) =~= Seq::<Pattern>::empty());
    assert(derefs(acc@) + Seq::<T>::empty() =~= derefs(acc@));
    Some((acc, cur))
}

/// Tries `clauses` in order against `t`. The first that matches gives its
/// index and its captures; `None` when none matches.
pub fn switch<'a, T: SchemeExpression>(clauses: &Vec<Pattern>, t: &'a T) -> (r: Option<(usize, Vec<&'a T>)>)
    ensures
        match r {
            Some((k, v)) => {
                &&& k < clauses@.len()
                &&& match_spec(clauses@[k as int], *t) == Some(derefs(v@))
                &&& forall|j: int| 0 <= j < k ==> match_spec(#[trigger] clauses@[j], *t) is None
            },
            None => forall|j: int| 0 <= j < clauses@.len() ==> match_spec(#[trigger] clauses@[j], *t) is None,
        },
{
    let n = clauses.len();
    let mut k: usize = 0;
    while k < n
        invariant
            n == clauses@.len(),
            k <= n,
            forall|j: int| 0 <= j < k ==> match_spec(#[trigger] clauses@[j], *t) is None,
        decreases n - k,
    {
        match match_pattern(&clauses[k], t) {
            Some(v) => {
                return Some((k, v));
            },
            None => {},
        }
        k += 1;
    }
    None
}

/// Tries the predicates `preds` in order on `t`; the index of the first that
/// holds, or `None` when none does.
pub fn switch_by<T, F: Fn(&T) -> bool>(preds: &Vec<F>, t: &T) -> (r: Option<usize>)
    requires
        forall|i: int| 0 <= i < preds@.len() ==> (#[trigger] preds@[i]).requires((t,)),
    ensures
        match r {
            Some(k) => {
                &&& k < preds@.len()
                &&& preds@[k as int].ensures((t,), true)
                &&& forall|j: int| 0 <= j < k ==> (#[trigger] preds@[j]).ensures((t,), false)
            },
            None => forall|j: int| 0 <= j < preds@.len() ==> (#[trigger] preds@[j]).ensures((t,), false),
        },
{
    let n = preds.len();
    let mut k: usize = 0;
    while k < n
        invariant
            n == preds@.len(),
            k <= n,
            forall|i: int| 0 <= i < preds@.len() ==> (#[trigger] preds@[i]).requires((t,)),
            forall|j: int| 0 <= j < k ==> (#[trigger] preds@[j]).ensures((t,), false),
        decreases n - k,
    {
        if (preds[k])(t) {
            return Some(k);
        }
        k += 1;
    }
    None
}

/// Matching the first elements of a list: the list is those elements
/// followed by the tail that matching leaves.
pub proof fn lemma_prefix_shape(ps: Seq<Pattern>, o: Object)
    ensures
        prefix_spec(ps, o) matches Some((_, tail)) ==> {
            &&& o.items().len() == ps.len() + tail.items().len()
            &&& o.terminator() == tail.terminator()
        },
    decreases ps.len(),
{
    if ps.len() > 0 {
        match o.content {
            TaggedValue::Pair(a, d) => {
                lemma_prefix_shape(ps.drop_first(), *d);
            },
            _ => {},
        }
    }
}

/// A list pattern of n elements matches only proper lists of n elements.
pub proof fn lemma_list_pattern_length(ps: Vec<Pattern>, o: Object)
    requires
        match_spec(Pattern::List(ps), o) is Some,
    ensures
        o.is_proper(),
        o.items().len() == ps@.len(),
{
    lemma_prefix_shape(ps@, o);
}

/// A literal pattern matches only the equal atom.
pub proof fn lemma_literal_patterns(i: i64, s: Symbol, o: Object)
    ensures
        match_spec(Pattern::Integer(i), o) is Some <==> o.content == TaggedValue::Integer(i),
        match_spec(Pattern::Symbol(s), o) is Some <==> o.content == TaggedValue::Symbol(s),
{
}

} // verus!
