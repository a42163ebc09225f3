//! Interned identifiers.
//!
//! A [`SymbolTable`] stores each distinct name once; a [`Symbol`] is the
//! index of its name in the table, so two symbols of one table are equal
//! exactly when their names are equal, and comparing them costs O(1).
//! Symbols are ordered by that index (the order of interning), not by name.

use vstd::prelude::*;

verus! {

/// A handle to a name interned in a [`SymbolTable`].
#[derive(Clone, Copy, PartialEq, Eq, Structural, Hash, Debug, PartialOrd, Ord)]
pub struct Symbol {
    pub id: usize,
}

/// Storage for interned names; names are never removed.
#[derive(Debug)]
pub struct SymbolTable {
    names: Vec<String>,
}

/// The table after interning `s`, and the symbol that interning yields.
pub open spec fn interned(names: Seq<Seq<char>>, s: Seq<char>) -> (Seq<Seq<char>>, Symbol) {
    if names.contains(s) {
        (names, Symbol { id: names.index_of(s) as usize })
    } else {
        (names.push(s), Symbol { id: names.len() as usize })
    }
}

/// `j` primes.
pub open spec fn primes(j: nat) -> Seq<char> {
    Seq::new(j, |_i: int| '\'')
}

/// The first `k` from `j` on, below `names.len()`, for which `c` followed by
/// `k` primes is not in `names`; `names.len()` if there is none.
pub open spec fn probe(c: Seq<char>, j: nat, names: Seq<Seq<char>>) -> nat
    decreases names.len() - j,
{
    if j >= names.len() {
        j
    } else if names.contains(c + primes(j)) {
        probe(c, j + 1, names)
    } else {
        j
    }
}

/// The name that `SymbolTable::fresh` gives for `c`.
pub open spec fn fresh_name(c: Seq<char>, names: Seq<Seq<char>>) -> Seq<char> {
    c + primes(probe(c, 0, names))
}

/// The table after making a fresh symbol from `c`, and that symbol.
pub open spec fn fresh_spec(names: Seq<Seq<char>>, c: Seq<char>) -> (Seq<Seq<char>>, Symbol) {
    (names.push(fresh_name(c, names)), Symbol { id: names.len() as usize })
}

/// Among `c` followed by `s`, `s + 1`, ..., `s + t.len()` primes, one is
/// not in `t`.
proof fn lemma_pigeonhole(t: Seq<Seq<char>>, c: Seq<char>, s: nat)
    ensures
        exists|j: nat| s <= j <= s + t.len() && !t.contains(#[trigger] (c + primes(j))),
    decreases t.len(),
{
    if !t.contains(c + primes(s)) {
        assert(!t.contains(c + primes(s)));
    } else {
        let i = t.index_of(c + primes(s));
        let t2 = t.remove(i);
        lemma_pigeonhole(t2, c, s + 1);
        let j = choose|j: nat| s + 1 <= j <= s + 1 + t2.len() && !t2.contains(#[trigger] (c + primes(j)));
        assert((c + primes(j)).len() != (c + primes(s)).len());
        assert(!t.contains(c + primes(j))) by {
            if t.contains(c + primes(j)) {
                let k = t.index_of(c + primes(j));
                assert(k != i);
                if k < i {
                    assert(t2[k] == t[k]);
                } else {
                    assert(t2[k - 1] == t[k]);
                }
            }
        }
    }
}

/// When every name with fewer than `j` primes is taken, probing from `j`
/// ends on a name that is not.
proof fn lemma_probe_fresh(c: Seq<char>, j: nat, names: Seq<Seq<char>>)
    requires
        j <= names.len(),
        forall|k: nat| k < j ==> names.contains(#[trigger] (c + primes(k))),
    ensures
        !names.contains(c + primes(probe(c, j, names))),
        probe(c, j, names) <= names.len(),
    decreases names.len() - j,
{
    if j >= names.len() {
        lemma_pigeonhole(names, c, 0);
        let k = choose|k: nat| 0 <= k <= 0 + names.len() && !names.contains(#[trigger] (c + primes(k)));
        if k < j {
            assert(names.contains(c + primes(k)));
        }
    } else if names.contains(c + primes(j)) {
        assert forall|k: nat| k < j + 1 implies names.contains(#[trigger] (c + primes(k))) by {
            if k < j {
                assert(names.contains(c + primes(k)));
            }
        }
        lemma_probe_fresh(c, j + 1, names);
    }
}

/// `later` keeps every name of `earlier` at its index.
pub open spec fn extends(earlier: Seq<Seq<char>>, later: Seq<Seq<char>>) -> bool {
    &&& earlier.len() <= later.len()
    &&& forall|i: int| 0 <= i < earlier.len() ==> #[trigger] later[i] == earlier[i]
}

impl Symbol {
    pub open spec fn spec_id(self) -> nat {
        self.id as nat
    }

    /// Interns `name` in `table`.
    pub fn new(table: &mut SymbolTable, name: &str) -> (r: Symbol)
        requires
            old(table).wf(),
        ensures
            final(table).wf(),
            (final(table)@, r) == interned(old(table)@, name@),
            extends(old(table)@, final(table)@),
            final(table).holds(r),
            final(table)@[r.spec_id() as int] == name@,
    {
        table.intern(name)
    }

    /// The name of this symbol in `table`.
    pub fn name<'a>(&self, table: &'a SymbolTable) -> (r: &'a str)
        requires
            self.spec_id() < table@.len(),
        ensures
            r@ == table@[self.spec_id() as int],
    {
        table.names[self.id].as_str()
    }

    /// The index of this symbol in its table.
    pub fn id(&self) -> (r: usize)
        ensures
            r == self.spec_id(),
    {
        self.id
    }

}

impl View for SymbolTable {
    type V = Seq<Seq<char>>;

    closed spec fn view(&self) -> Seq<Seq<char>> {
        self.names@.map_values(|s: String| s@)
    }
}

impl SymbolTable {
    /// Each name is stored once.
    pub open spec fn wf(&self) -> bool {
        self@.no_duplicates()
    }

    /// Whether `s` was issued by this table.
    pub open spec fn holds(&self, s: Symbol) -> bool {
        s.spec_id() < self@.len()
    }

    pub fn new() -> (r: SymbolTable)
        ensures
            r.wf(),
            r@ == Seq::<Seq<char>>::empty(),
    {
        let r = SymbolTable { names: Vec::new() };
        assert(r@ =~= Seq::<Seq<char>>::empty());
        r
    }

    pub fn len(&self) -> (r: usize)
        ensures
            r == self@.len(),
    {
        self.names.len()
    }

    /// The symbol of `name`, if `name` was interned.
    pub fn lookup(&self, name: &str) -> (r: Option<Symbol>)
        requires
            self.wf(),
        ensures
            r is Some <==> self@.contains(name@),
            r matches Some(x) ==> x == interned(self@, name@).1,
    {
        let n = self.names.len();
        let owned = name.to_owned();
        let mut i: usize = 0;
        while i < n
            invariant
                n == self.names@.len(),
                i <= n,
                self.wf(),
                forall|j: int| 0 <= j < i ==> self@[j] != name@,
                owned@ == name@,
            decreases n - i,
        {
            if self.names[i] == owned {
                assert(self@[i as int] == self.names@[i as int]@);
                assert(self@.contains(name@));
                let ghost k = self@.index_of(name@);
                assert(self@[k] == name@);
                assert(k == i);
                return Some(Symbol { id: i });
            }
            assert(self@[i as int] == self.names@[i as int]@);
            i += 1;
        }
        None
    }

    /// The symbol of `name`: the existing one if `name` was interned before,
    /// otherwise a new one appended to the table.
    pub fn intern(&mut self, name: &str) -> (r: Symbol)
        requires
            old(self).wf(),
        ensures
            final(self).wf(),
            (final(self)@, r) == interned(old(self)@, name@),
            extends(old(self)@, final(self)@),
            final(self).holds(r),
            final(self)@[r.spec_id() as int] == name@,
    {
        let n = self.names.len();
        proof {
            lemma_interned_name(self@, name@);
        }
        match self.lookup(name) {
            Some(x) => x,
            None => {
                let ghost before = self@;
                self.names.push(name.to_owned());
                assert(self@ =~= before.push(name@));
                Symbol { id: n }
            },
        }
    }

    /// A new symbol whose name is not yet in the table: `base` itself if it
    /// is new, otherwise `base` followed by as few primes (`'`) as make it
    /// new.
    pub fn fresh(&mut self, base: String) -> (r: Symbol)
        requires
            old(self).wf(),
        ensures
            final(self).wf(),
            (final(self)@, r) == fresh_spec(old(self)@, base@),
            !old(self)@.contains(fresh_name(base@, old(self)@)),
            r.spec_id() == old(self)@.len(),
            final(self)@[r.spec_id() as int] == fresh_name(base@, old(self)@),
    {
        let n = self.names.len();
        let ghost names = self@;
        let mut cand = base;
        let ghost b = cand@;
        let mut j: usize = 0;
        assert(cand@ =~= b + primes(0));
        while j < n && self.lookup(cand.as_str()).is_some()
            invariant
                n == names.len(),
                self@ == names,
                self.wf(),
                j <= n,
                cand@ == b + primes(j as nat),
                forall|k: nat| k < j ==> names.contains(#[trigger] (b + primes(k))),
                probe(b, 0, names) == probe(b, j as nat, names),
            decreases n - j,
        {
            let ghost before = cand@;
            proof {
                reveal_strlit("'");
                assert("'"@ =~= seq!['\'']);
            }
            cand.append("'");
            assert(cand@ == before + "'"@);
            assert(primes((j + 1) as nat) =~= primes(j as nat) + seq!['\'']);
            assert(cand@ =~= b + primes((j + 1) as nat));
            j += 1;
        }
        proof {
            lemma_probe_fresh(b, j as nat, names);
        }
        assert(probe(b, j as nat, names) == j);
        self.names.push(cand);
        assert(self@ =~= names.push(fresh_name(b, names)));
        Symbol { id: n }
    }

    /// The name of `s`.
    pub fn name_of(&self, s: Symbol) -> (r: &str)
        requires
            self.holds(s),
        ensures
            r@ == self@[s.spec_id() as int],
    {
        self.names[s.id].as_str()
    }
}

/// The decimal digit for `d` < 10.
pub open spec fn digit_char(d: nat) -> char {
    if d == 0 { '0' } else if d == 1 { '1' } else if d == 2 { '2' } else if d == 3 { '3' }
    else if d == 4 { '4' } else if d == 5 { '5' } else if d == 6 { '6' } else if d == 7 { '7' }
    else if d == 8 { '8' } else { '9' }
}

/// The decimal numeral of `n`, without leading zeros.
pub open spec fn decimal(n: nat) -> Seq<char>
    decreases n,
{
    if n < 10 {
        seq![digit_char(n)]
    } else {
        decimal(n / 10).push(digit_char(n % 10))
    }
}

fn digit_str(d: usize) -> (r: &'static str)
    requires
        d < 10,
    ensures
        r@ == seq![digit_char(d as nat)],
{
    proof {
        reveal_strlit("0");
        reveal_strlit("1");
        reveal_strlit("2");
        reveal_strlit("3");
        reveal_strlit("4");
        reveal_strlit("5");
        reveal_strlit("6");
        reveal_strlit("7");
        reveal_strlit("8");
        reveal_strlit("9");
    }
    let r = if d == 0 { "0" } else if d == 1 { "1" } else if d == 2 { "2" } else if d == 3 { "3" }
    else if d == 4 { "4" } else if d == 5 { "5" } else if d == 6 { "6" } else if d == 7 { "7" }
    else if d == 8 { "8" } else { "9" };
    assert(r@ =~= seq![digit_char(d as nat)]);
    r
}

/// Appends the decimal numeral of `n` to `s`.
pub fn push_decimal(s: &mut String, n: usize)
    ensures
        final(s)@ == old(s)@ + decimal(n as nat),
    decreases n,
{
    if n >= 10 {
        push_decimal(s, n / 10);
    }
    let d = digit_str(n % 10);
    s.append(d);
    assert(s@ =~= old(s)@ + decimal(n as nat));
}

/// Interning one name twice gives one symbol, and the second call leaves the
/// table as it was.
pub proof fn lemma_intern_idempotent(names: Seq<Seq<char>>, s: Seq<char>)
    requires
        names.no_duplicates(),
        names.len() < usize::MAX,
    ensures
        interned(interned(names, s).0, s) == interned(names, s),
        interned(names, s).0.no_duplicates(),
{
    let t = interned(names, s).0;
    if !names.contains(s) {
        assert(t[names.len() as int] == s);
        assert(t.contains(s));
        let k = t.index_of(s);
        assert(k == names.len()) by {
            if k < names.len() {
                assert(names[k] == s);
            }
        }
    }
}

/// Interning two different names gives two different symbols.
pub proof fn lemma_intern_distinct(names: Seq<Seq<char>>, s1: Seq<char>, s2: Seq<char>)
    requires
        names.no_duplicates(),
        names.len() + 1 < usize::MAX,
        s1 != s2,
    ensures
        interned(names, s1).1 != interned(interned(names, s1).0, s2).1,
{
    let (t, a) = interned(names, s1);
    lemma_intern_idempotent(names, s1);
    lemma_interned_name(names, s1);
    lemma_interned_name(t, s2);
}

/// The symbol that interning yields names `s` in the new table, which keeps
/// every earlier name.
pub proof fn lemma_interned_name(names: Seq<Seq<char>>, s: Seq<char>)
    requires
        names.len() <= usize::MAX,
    ensures
        interned(names, s).1.spec_id() < interned(names, s).0.len(),
        interned(names, s).0[interned(names, s).1.spec_id() as int] == s,
        extends(names, interned(names, s).0),
{
    if names.contains(s) {
        let k = names.index_of(s);
        assert(0 <= k < names.len() && names[k] == s);
    }
}

} // verus!
