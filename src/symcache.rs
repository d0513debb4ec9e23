//! Interning of symbol names into small dense identifiers.
use vstd::prelude::*;

verus! {

/// An interned name, meaningful only for the cache that issued it.
#[derive(Debug, Clone, Copy, PartialEq, Eq, Structural)]
pub struct Symbol(usize);

impl View for Symbol {
    type V = nat;

    closed spec fn view(&self) -> nat {
        self.0 as nat
    }
}

impl Symbol {
    pub fn new(x: usize) -> (r: Symbol)
        ensures
            r@ == x,
    {
        Symbol(x)
    }

    /// The identifier, as carried in a tagged word.
    pub fn value(&self) -> (r: usize)
        ensures
            r == self@,
    {
        self.0
    }
}

/// No two entries of an interning table hold the same name.
pub open spec fn distinct_names(names: Seq<Seq<char>>) -> bool {
    forall|i: int, j: int|
        0 <= i < names.len() && 0 <= j < names.len() && i != j ==> names[i] != names[j]
}

/// The table and identifier after interning `s` into `names`: the index of an
/// equal entry if there is one, else a new entry at the end.
pub open spec fn interned(names: Seq<Seq<char>>, s: Seq<char>) -> (Seq<Seq<char>>, nat) {
    if exists|i: int| 0 <= i < names.len() && names[i] == s {
        (names, (choose|i: int| 0 <= i < names.len() && names[i] == s) as nat)
    } else {
        (names.push(s), names.len())
    }
}

/// What resolving identifier `id` in `names` gives.
pub open spec fn resolved(names: Seq<Seq<char>>, id: nat) -> Option<Seq<char>> {
    if id < names.len() {
        Some(names[id as int])
    } else {
        None
    }
}

/// A bidirectional table between names and their identifiers. Entries are
/// never removed; the identifier of a name is its index.
pub struct SymCache {
    cache: Vec<String>,
}

impl View for SymCache {
    type V = Seq<Seq<char>>;

    closed spec fn view(&self) -> Seq<Seq<char>> {
        self.cache@.map_values(|s: String| s@)
    }
}

impl SymCache {
    pub closed spec fn wf(&self) -> bool {
        distinct_names(self@)
    }

    pub fn new() -> (r: SymCache)
        ensures
            r.wf(),
            r@ == Seq::<Seq<char>>::empty(),
    {
        let r = SymCache { cache: Vec::new() };
        assert(r@ =~= Seq::<Seq<char>>::empty());
        r
    }

    /// The name interned under `symbol`, or `None` for an identifier this
    /// cache never issued.
    pub fn get(&self, symbol: Symbol) -> (r: Option<&String>)
        ensures
            r matches Some(s) ==> resolved(self@, symbol@) == Some(s@),
            r is None ==> resolved(self@, symbol@) is None,
    {
        if symbol.0 < self.cache.len() {
            Some(&self.cache[symbol.0])
        } else {
            None
        }
    }

    /// The identifier of `string`, adding it to the table if it is new.
    pub fn intern(&mut self, string: &str) -> (r: Symbol)
        requires
            old(self).wf(),
        ensures
            final(self).wf(),
            (final(self)@, r@) == interned(old(self)@, string@),
    {
        let owned = string.to_owned();
        let n = self.cache.len();
        let mut i: usize = 0;
        while i < n
            invariant
                n == self.cache.len(),
                self.wf(),
                self@ == old(self)@,
                i <= n,
                owned@ == string@,
                forall|k: int| 0 <= k < i ==> self@[k] != string@,
            decreases n - i,
        {
            if self.cache[i] == owned {
                proof {
                    assert(self@[i as int] == string@);
                    assert forall|k: int| 0 <= k < self@.len() && self@[k] == string@ implies k == i by {
                        assert(distinct_names(self@));
                    }
                }
                return Symbol(i);
            }
            i = i + 1;
        }
        let ghost before = self@;
        self.cache.push(owned);
        proof {
            assert(self@ =~= before.push(string@));
            assert(!exists|k: int| 0 <= k < before.len() && before[k] == string@);
        }
        Symbol(n)
    }
}

/// Interning two names gives the same identifier exactly when the names are
/// equal, and each name resolves back to itself.
pub proof fn lemma_intern_identity(names: Seq<Seq<char>>, s1: Seq<char>, s2: Seq<char>)
    requires
        distinct_names(names),
    ensures
        ({
            let (names1, id1) = interned(names, s1);
            let (names2, id2) = interned(names1, s2);
            &&& distinct_names(names1)
            &&& distinct_names(names2)
            &&& (id1 == id2 <==> s1 == s2)
            &&& resolved(names1, id1) == Some(s1)
            &&& resolved(names2, id2) == Some(s2)
            &&& resolved(names2, id1) == Some(s1)
        }),
{
    lemma_interned(names, s1);
    let (names1, id1) = interned(names, s1);
    lemma_interned(names1, s2);
}

/// Interning keeps the table duplicate-free and old entries in place, and the
/// identifier it gives indexes the name.
proof fn lemma_interned(names: Seq<Seq<char>>, s: Seq<char>)
    requires
        distinct_names(names),
    ensures
        ({
            let (names1, id) = interned(names, s);
            &&& distinct_names(names1)
            &&& id < names1.len()
            &&& names1[id as int] == s
            &&& names.len() <= names1.len()
            &&& forall|k: int| 0 <= k < names.len() ==> names1[k] == names[k]
        }),
{
    let (names1, id) = interned(names, s);
    if !exists|i: int| 0 <= i < names.len() && names[i] == s {
        assert forall|i: int, j: int|
            0 <= i < names1.len() && 0 <= j < names1.len() && i != j implies names1[i]
            != names1[j] by {
            if i < names.len() && j < names.len() {
            } else if i == names.len() {
                assert(names1[j] == names[j]);
            } else {
                assert(names1[i] == names[i]);
            }
        }
    }
}

} // verus!
