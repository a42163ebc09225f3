//! The tagged value tree: Scheme data and source as cons pairs.

use vstd::prelude::*;
use crate::error::{Error, ErrorKind};
use crate::matcher::SchemeExpression;
use crate::symbol::{Symbol, SymbolTable, interned};

verus! {

/// The payload of an [`Object`].
#[derive(Debug, PartialEq)]
pub enum TaggedValue {
    Undef,
    Nil,
    Integer(i64),
    /// A float, held as its IEEE-754 bit pattern.
    Float(u64),
    Symbol(Symbol),
    String(String),
    Pair(Box<Object>, Box<Object>),
    /// The address of externally compiled code.
    Function(usize),
}

/// A node of the tree. A pair owns its two children.
#[derive(Debug, PartialEq)]
pub struct Object {
    pub content: TaggedValue,
}

impl Object {
    pub open spec fn pair(a: Object, d: Object) -> Object {
        Object { content: TaggedValue::Pair(Box::new(a), Box::new(d)) }
    }

    pub open spec fn spec_nil() -> Object {
        Object { content: TaggedValue::Nil }
    }

    /// The elements of the list that starts here: the cars along the cdr
    /// chain, up to the first value that is not a pair.
    pub open spec fn items(self) -> Seq<Object>
        decreases self,
    {
        match self.content {
            TaggedValue::Pair(a, d) => seq![*a] + d.items(),
            _ => Seq::empty(),
        }
    }

    /// The first value along the cdr chain that is not a pair.
    pub open spec fn terminator(self) -> Object
        decreases self,
    {
        match self.content {
            TaggedValue::Pair(_, d) => d.terminator(),
            _ => self,
        }
    }

    /// The number of nodes of the tree.
    pub open spec fn size(self) -> nat
        decreases self,
    {
        match self.content {
            TaggedValue::Pair(a, d) => 1 + a.size() + d.size(),
            _ => 1,
        }
    }

    /// Every symbol in the tree has an index below `n`: it was interned in a
    /// table of at least `n` names.
    pub open spec fn symbols_below(self, n: nat) -> bool
        decreases self,
    {
        match self.content {
            TaggedValue::Symbol(s) => s.spec_id() < n,
            TaggedValue::Pair(a, d) => a.symbols_below(n) && d.symbols_below(n),
            _ => true,
        }
    }

    /// A proper list: the cdr chain ends in `()`.
    pub open spec fn is_proper(self) -> bool {
        self.terminator().content is Nil
    }

    /// The list of `items` whose last cdr is `tail`.
    pub open spec fn list_of(items: Seq<Object>, tail: Object) -> Object
        decreases items.len(),
    {
        if items.len() == 0 {
            tail
        } else {
            Object::pair(items[0], Object::list_of(items.drop_first(), tail))
        }
    }
}

impl Object {
    pub fn new(content: TaggedValue) -> (r: Object)
        ensures
            r.content == content,
    {
        Object { content }
    }

    pub fn as_value(&self) -> (r: &TaggedValue)
        ensures
            *r == self.content,
    {
        &self.content
    }

    pub fn into_value(&self) -> (r: &TaggedValue)
        ensures
            *r == self.content,
    {
        &self.content
    }

    pub fn undef() -> (r: Object)
        ensures
            r.content is Undef,
    {
        Object { content: TaggedValue::Undef }
    }

    pub fn nil() -> (r: Object)
        ensures
            r == Object::spec_nil(),
    {
        Object { content: TaggedValue::Nil }
    }

    pub fn integer(value: i64) -> (r: Object)
        ensures
            r.content == TaggedValue::Integer(value),
    {
        Object { content: TaggedValue::Integer(value) }
    }

    /// A float given by its IEEE-754 bit pattern.
    pub fn float(bits: u64) -> (r: Object)
        ensures
            r.content == TaggedValue::Float(bits),
    {
        Object { content: TaggedValue::Float(bits) }
    }

    /// The symbol of `name`, interned in `table`.
    pub fn symbol(table: &mut SymbolTable, name: &str) -> (r: Object)
        requires
            old(table).wf(),
        ensures
            final(table).wf(),
            (final(table)@, r.content->Symbol_0) == interned(old(table)@, name@),
            r.content is Symbol,
    {
        let s = table.intern(name);
        Object { content: TaggedValue::Symbol(s) }
    }

    pub fn from_symbol(s: Symbol) -> (r: Object)
        ensures
            r.content == TaggedValue::Symbol(s),
    {
        Object { content: TaggedValue::Symbol(s) }
    }

    pub fn string(content: String) -> (r: Object)
        ensures
            r.content == TaggedValue::String(content),
    {
        Object { content: TaggedValue::String(content) }
    }

    /// A reference to external code at address `addr`.
    pub fn function(addr: usize) -> (r: Object)
        ensures
            r.content == TaggedValue::Function(addr),
    {
        Object { content: TaggedValue::Function(addr) }
    }

    pub fn cons(car: Object, cdr: Object) -> (r: Object)
        ensures
            r == Object::pair(car, cdr),
    {
        Object { content: TaggedValue::Pair(Box::new(car), Box::new(cdr)) }
    }

    /// A copy of the whole tree.
    pub fn deep_clone(&self) -> (r: Object)
        ensures
            r == *self,
        decreases self,
    {
        match &self.content {
            TaggedValue::Undef => Object { content: TaggedValue::Undef },
            TaggedValue::Nil => Object { content: TaggedValue::Nil },
            TaggedValue::Integer(x) => Object { content: TaggedValue::Integer(*x) },
            TaggedValue::Float(x) => Object { content: TaggedValue::Float(*x) },
            TaggedValue::Symbol(x) => Object { content: TaggedValue::Symbol(*x) },
            TaggedValue::String(x) => Object { content: TaggedValue::String(x.clone()) },
            TaggedValue::Function(x) => Object { content: TaggedValue::Function(*x) },
            TaggedValue::Pair(a, d) => {
                let a2 = a.deep_clone();
                let d2 = d.deep_clone();
                Object { content: TaggedValue::Pair(Box::new(a2), Box::new(d2)) }
            },
        }
    }

    pub fn is_null(&self) -> (r: bool)
        ensures
            r == self.content is Nil,
    {
        matches!(self.content, TaggedValue::Nil)
    }

    pub fn is_number(&self) -> (r: bool)
        ensures
            r == (self.content is Integer || self.content is Float),
    {
        matches!(self.content, TaggedValue::Integer(_) | TaggedValue::Float(_))
    }

    pub fn is_integer(&self) -> (r: bool)
        ensures
            r == self.content is Integer,
    {
        matches!(self.content, TaggedValue::Integer(_))
    }

    pub fn try_as_integer(&self) -> (r: Option<i64>)
        ensures
            r == (match self.content {
                TaggedValue::Integer(i) => Some(i),
                _ => None,
            }),
    {
        match self.content {
            TaggedValue::Integer(i) => Some(i),
            _ => None,
        }
    }

    pub fn is_float(&self) -> (r: bool)
        ensures
            r == self.content is Float,
    {
        matches!(self.content, TaggedValue::Float(_))
    }

    /// The bit pattern of a float.
    pub fn try_as_float(&self) -> (r: Option<u64>)
        ensures
            r == (match self.content {
                TaggedValue::Float(f) => Some(f),
                _ => None,
            }),
    {
        match self.content {
            TaggedValue::Float(f) => Some(f),
            _ => None,
        }
    }

    pub fn is_symbol(&self) -> (r: bool)
        ensures
            r == self.content is Symbol,
    {
        matches!(self.content, TaggedValue::Symbol(_))
    }

    pub fn as_symbol(&self) -> (r: Option<Symbol>)
        ensures
            r == (match self.content {
                TaggedValue::Symbol(s) => Some(s),
                _ => None,
            }),
    {
        match self.content {
            TaggedValue::Symbol(s) => Some(s),
            _ => None,
        }
    }

    /// The number of nodes of the tree, if it fits in `usize`.
    pub fn node_count(&self) -> (r: Option<usize>)
        ensures
            r == (if self.size() <= usize::MAX {
                Some(self.size() as usize)
            } else {
                None
            }),
        decreases self,
    {
        match &self.content {
            TaggedValue::Pair(a, d) => {
                let na = match a.node_count() {
                    Some(n) => n,
                    None => {
                        return None;
                    },
                };
                let nd = match d.node_count() {
                    Some(n) => n,
                    None => {
                        return None;
                    },
                };
                if na >= usize::MAX - nd {
                    None
                } else {
                    Some(1 + na + nd)
                }
            },
            _ => Some(1),
        }
    }

    /// Whether every symbol in the tree has an index below `n`.
    pub fn symbols_within(&self, n: usize) -> (r: bool)
        ensures
            r == self.symbols_below(n as nat),
        decreases self,
    {
        match &self.content {
            TaggedValue::Symbol(s) => s.id() < n,
            TaggedValue::Pair(a, d) => a.symbols_within(n) && d.symbols_within(n),
            _ => true,
        }
    }

    /// The name of a symbol, looked up in `table`.
    pub fn try_as_symbol_name<'a>(&self, table: &'a SymbolTable) -> (r: Option<&'a str>)
        requires
            self.symbols_below(table@.len()),
        ensures
            match self.content {
                TaggedValue::Symbol(s) => r matches Some(n) && n@ == table@[s.spec_id() as int],
                _ => r is None,
            },
    {
        match self.content {
            TaggedValue::Symbol(s) => Some(table.name_of(s)),
            _ => None,
        }
    }

    pub fn is_string(&self) -> (r: bool)
        ensures
            r == self.content is String,
    {
        matches!(self.content, TaggedValue::String(_))
    }

    /// Whether this is a pair.
    pub fn is_list(&self) -> (r: bool)
        ensures
            r == self.content is Pair,
    {
        matches!(self.content, TaggedValue::Pair(_, _))
    }

    pub fn car(&self) -> (r: Option<&Object>)
        ensures
            r == (match self.content {
                TaggedValue::Pair(a, _) => Some(&*a),
                _ => None,
            }),
    {
        match &self.content {
            TaggedValue::Pair(a, _) => Some(&**a),
            _ => None,
        }
    }

    pub fn cdr(&self) -> (r: Option<&Object>)
        ensures
            r == (match self.content {
                TaggedValue::Pair(_, d) => Some(&*d),
                _ => None,
            }),
    {
        match &self.content {
            TaggedValue::Pair(_, d) => Some(&**d),
            _ => None,
        }
    }

    /// The element at `idx` of the list that starts here.
    pub fn get_ref(&self, idx: usize) -> (r: Option<&Object>)
        ensures
            idx < self.items().len() ==> r == Some(&self.items()[idx as int]),
            idx >= self.items().len() ==> r is None,
        decreases idx,
    {
        match &self.content {
            TaggedValue::Pair(a, d) => {
                if idx == 0 {
                    Some(&**a)
                } else {
                    let r = d.get_ref(idx - 1);
                    assert(self.items() == seq![**a] + d.items());
                    r
                }
            },
            _ => None,
        }
    }

    /// The length of a proper list; `None` for anything else, and for a list
    /// too long for its length to fit in `usize`.
    pub fn list_len(&self) -> (r: Option<usize>)
        ensures
            r == (if self.is_proper() && self.items().len() <= usize::MAX {
                Some(self.items().len() as usize)
            } else {
                None
            }),
    {
        let mut len: usize = 0;
        let mut x: &Object = self;
        while x.is_list()
            invariant
                self.items().len() == len + x.items().len(),
                self.terminator() == x.terminator(),
            decreases x.items().len(),
        {
            if len == usize::MAX {
                return None;
            }
            match &x.content {
                TaggedValue::Pair(_, d) => {
                    x = &**d;
                },
                _ => {},
            }
            len += 1;
        }
        if x.is_null() {
            Some(len)
        } else {
            None
        }
    }

    /// The elements of the list that starts here, up to the first value
    /// that is not a pair.
    pub fn list_to_vec(&self) -> (r: Option<Vec<Object>>)
        ensures
            r matches Some(v) && v@ == self.items(),
    {
        let mut acc: Vec<Object> = Vec::new();
        let mut x: &Object = self;
        while x.is_list()
            invariant
                self.items() == acc@ + x.items(),
            decreases x.items().len(),
        {
            match &x.content {
                TaggedValue::Pair(a, d) => {
                    acc.push(a.deep_clone());
                    x = &**d;
                },
                _ => {},
            }
        }
        assert(acc@ =~= acc@ + x.items());
        Some(acc)
    }
}

/// `op` succeeds on `x`.
pub open spec fn succeeds_on<F: Fn(&Object) -> Result<Object, Error>>(op: F, x: Object) -> bool {
    exists|v: Object| op.ensures((&x,), Ok::<Object, Error>(v))
}

impl Object {
    /// Applies `op` to each element of the proper list that starts here, in
    /// order, and lists the results. The first failure of `op` ends the walk
    /// and is returned; a list that ends in something other than `()` fails
    /// with `NotAPair` of that end.
    pub fn map<F: Fn(&Object) -> Result<Object, Error>>(&self, op: F) -> (r: Result<Object, Error>)
        requires
            forall|x: &Object| op.requires((x,)),
        ensures
            match r {
                Ok(m) => {
                    &&& self.is_proper()
                    &&& m.is_proper()
                    &&& m.items().len() == self.items().len()
                    &&& forall|i: int|
                        0 <= i < self.items().len() ==> op.ensures((&self.items()[i],), Ok(#[trigger] m.items()[i]))
                },
                Err(e) => {
                    ||| {
                        &&& !self.is_proper()
                        &&& e.kind == ErrorKind::NotAPair(self.terminator())
                        &&& forall|i: int| 0 <= i < self.items().len() ==> succeeds_on(op, #[trigger] self.items()[i])
                    }
                    ||| exists|i: int|
                        {
                            &&& 0 <= i < self.items().len()
                            &&& op.ensures((&#[trigger] self.items()[i],), Err(e))
                            &&& forall|j: int| 0 <= j < i ==> succeeds_on(op, #[trigger] self.items()[j])
                        }
                },
            },
        decreases self,
    {
        match &self.content {
            TaggedValue::Nil => Ok(Object::nil()),
            TaggedValue::Pair(a, d) => {
                assert(self.items() == seq![**a] + d.items());
                assert(self.items()[0] == **a);
                let x = match op(&**a) {
                    Ok(x) => x,
                    Err(e) => {
                        assert(op.ensures((&self.items()[0],), Err(e)));
                        return Err(e);
                    },
                };
                assert(succeeds_on(op, self.items()[0])) by {
                    assert(op.ensures((&self.items()[0],), Ok(x)));
                }
                match d.map(op) {
                    Ok(rest) => {
                        let m = Object::cons(x, rest);
                        assert(m.items() == seq![x] + rest.items());
                        assert forall|i: int| 0 <= i < self.items().len() implies op.ensures(
                            (&self.items()[i],),
                            Ok(#[trigger] m.items()[i]),
                        ) by {
                            if i > 0 {
                                assert(self.items()[i] == d.items()[i - 1]);
                                assert(m.items()[i] == rest.items()[i - 1]);
                            }
                        }
                        Ok(m)
                    },
                    Err(e) => {
                        proof {
                            if !d.is_proper() && e.kind == ErrorKind::NotAPair(d.terminator()) && forall|i: int|
                                0 <= i < d.items().len() ==> succeeds_on(op, #[trigger] d.items()[i]) {
                                assert forall|i: int| 0 <= i < self.items().len() implies succeeds_on(
                                    op,
                                    #[trigger] self.items()[i],
                                ) by {
                                    if i > 0 {
                                        assert(self.items()[i] == d.items()[i - 1]);
                                    }
                                }
                            } else {
                                let i = choose|i: int|
                                    {
                                        &&& 0 <= i < d.items().len()
                                        &&& op.ensures((&#[trigger] d.items()[i],), Err(e))
                                        &&& forall|j: int| 0 <= j < i ==> succeeds_on(op, #[trigger] d.items()[j])
                                    };
                                assert(self.items()[i + 1] == d.items()[i]);
                                assert forall|j: int| 0 <= j < i + 1 implies succeeds_on(op, #[trigger] self.items()[j]) by {
                                    if j > 0 {
                                        assert(self.items()[j] == d.items()[j - 1]);
                                    }
                                }
                            }
                        }
                        Err(e)
                    },
                }
            },
            _ => Err(Error::new(ErrorKind::NotAPair(self.deep_clone()))),
        }
    }
}

impl SchemeExpression for Object {
    open spec fn spec_is_nil(&self) -> bool {
        self.content is Nil
    }

    open spec fn spec_car(&self) -> Option<Object> {
        match self.content {
            TaggedValue::Pair(a, _) => Some(*a),
            _ => None,
        }
    }

    open spec fn spec_cdr(&self) -> Option<Object> {
        match self.content {
            TaggedValue::Pair(_, d) => Some(*d),
            _ => None,
        }
    }

    open spec fn spec_symbol(&self) -> Option<Symbol> {
        match self.content {
            TaggedValue::Symbol(s) => Some(s),
            _ => None,
        }
    }

    open spec fn spec_integer(&self) -> Option<i64> {
        match self.content {
            TaggedValue::Integer(i) => Some(i),
            _ => None,
        }
    }

    fn is_nil(&self) -> (r: bool) {
        self.is_null()
    }

    fn as_symbol(&self) -> (r: Option<Symbol>) {
        match self.content {
            TaggedValue::Symbol(s) => Some(s),
            _ => None,
        }
    }

    fn as_integer(&self) -> (r: Option<i64>) {
        self.try_as_integer()
    }

    fn decons(&self) -> (r: Option<(&Object, &Object)>) {
        match &self.content {
            TaggedValue::Pair(a, d) => Some((&**a, &**d)),
            _ => None,
        }
    }
}

/// Builds a list front to back; the tail may be set to any value.
pub struct ListBuilder {
    items: Vec<Object>,
    tail: Object,
}

impl View for ListBuilder {
    type V = (Seq<Object>, Object);

    closed spec fn view(&self) -> (Seq<Object>, Object) {
        (self.items@, self.tail)
    }
}

impl ListBuilder {
    pub fn new() -> (r: ListBuilder)
        ensures
            r@ == (Seq::<Object>::empty(), Object::spec_nil()),
    {
        ListBuilder { items: Vec::new(), tail: Object::nil() }
    }

    /// Appends `item`; the list ends in `()` again.
    pub fn append(&mut self, item: Object)
        ensures
            final(self)@ == (old(self)@.0.push(item), Object::spec_nil()),
    {
        self.items.push(item);
        self.tail = Object::nil();
    }

    /// Makes `item` the final cdr of the list.
    pub fn set_cdr(&mut self, item: Object)
        ensures
            final(self)@ == (old(self)@.0, item),
    {
        self.tail = item;
    }

    pub fn build(self) -> (r: Object)
        ensures
            r == Object::list_of(self@.0, self@.1),
    {
        let ghost all = self.items@;
        let ListBuilder { mut items, tail } = self;
        let mut acc = tail;
        let n = items.len();
        let mut i = n;
        while i > 0
            invariant
                i <= n,
                n == all.len(),
                items@ == all.subrange(0, i as int),
                acc == Object::list_of(all.subrange(i as int, n as int), self@.1),
            decreases i,
        {
            let item = items.pop().unwrap();
            i -= 1;
            assert(all.subrange(i as int, n as int).drop_first() =~= all.subrange(i + 1, n as int));
            assert(item == all[i as int]);
            assert(items@ =~= all.subrange(0, i as int));
            acc = Object::cons(item, acc);
        }
        assert(all.subrange(0, n as int) =~= all);
        acc
    }
}

/// A tree whose symbols are below `n` has them below any larger bound.
pub proof fn lemma_symbols_below_grow(o: Object, n: nat, m: nat)
    requires
        o.symbols_below(n),
        n <= m,
    ensures
        o.symbols_below(m),
    decreases o,
{
    match o.content {
        TaggedValue::Pair(a, d) => {
            lemma_symbols_below_grow(*a, n, m);
            lemma_symbols_below_grow(*d, n, m);
        },
        _ => {},
    }
}

/// The items and the end of the list of `items` ended by `tail`.
pub proof fn lemma_list_of(items: Seq<Object>, tail: Object)
    ensures
        Object::list_of(items, tail).items() == items + tail.items(),
        Object::list_of(items, tail).terminator() == tail.terminator(),
    decreases items.len(),
{
    if items.len() > 0 {
        lemma_list_of(items.drop_first(), tail);
        assert(items =~= seq![items[0]] + items.drop_first());
        assert(Object::list_of(items, tail).items() =~= seq![items[0]] + (items.drop_first() + tail.items()));
    } else {
        assert(items + tail.items() =~= tail.items());
    }
}

/// A list built from some items holds exactly those items, in order, and is
/// proper: so `list_len` gives their number, `get_ref(i)` the i-th of them
/// and `list_to_vec` all of them.
pub proof fn lemma_list_round_trip(items: Seq<Object>)
    ensures
        Object::list_of(items, Object::spec_nil()).items() == items,
        Object::list_of(items, Object::spec_nil()).is_proper(),
{
    lemma_list_of(items, Object::spec_nil());
    assert(items + Object::spec_nil().items() =~= items);
}

} // verus!
