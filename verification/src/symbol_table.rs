//! The declarations that a session has seen, by name.

use vstd::prelude::*;
use vstd::string::*;
use crate::ast::{Stmt, StmtView};
use crate::text::same_text;

verus! {

/// One declaration under the key it was registered with.
struct Symbol {
    key: String,
    decl: Stmt,
}

/// A mapping from names to their most recent declarations. A variable is
/// registered under its plain name, a function under its name followed by
/// `()`, so that the two kinds never collide.
pub struct SymbolTable {
    entries: Vec<Symbol>,
}

/// The key under which the function `name` is registered.
pub open spec fn function_key(name: Seq<char>) -> Seq<char> {
    name + "()"@
}

/// The declaration that the latest entry with the key `key` holds.
spec fn lookup(entries: Seq<Symbol>, key: Seq<char>) -> Option<StmtView>
    decreases entries.len(),
{
    if entries.len() == 0 {
        None
    } else if entries.last().key@ == key {
        Some(entries.last().decl@)
    } else {
        lookup(entries.drop_last(), key)
    }
}

/// Whether `at` is the place of the latest entry with the key `key`.
spec fn is_latest(entries: Seq<Symbol>, key: Seq<char>, at: int) -> bool {
    &&& 0 <= at < entries.len()
    &&& entries[at].key@ == key
    &&& forall|j: int| at < j < entries.len() ==> entries[j].key@ != key
}

/// `lookup` finds the latest entry with the key, or nothing where no entry
/// has it.
proof fn lemma_lookup(entries: Seq<Symbol>, key: Seq<char>)
    ensures
        forall|at: int| is_latest(entries, key, at) ==> lookup(entries, key) == Some(entries[at].decl@),
        (forall|j: int| 0 <= j < entries.len() ==> entries[j].key@ != key) ==> lookup(entries, key)
            is None,
    decreases entries.len(),
{
    if entries.len() > 0 {
        let shorter = entries.drop_last();
        lemma_lookup(shorter, key);
        assert forall|at: int| is_latest(entries, key, at) implies lookup(entries, key) == Some(
            entries[at].decl@,
        ) by {
            if at < entries.len() - 1 {
                assert(is_latest(shorter, key, at));
            }
        }
        if forall|j: int| 0 <= j < entries.len() ==> entries[j].key@ != key {
            assert forall|j: int| 0 <= j < shorter.len() implies shorter[j].key@ != key by {
                assert(entries[j].key@ != key);
            }
        }
    }
}

/// Replacing the latest entry of a key by another entry of that key changes
/// what the key maps to and nothing else.
proof fn lemma_replace(entries: Seq<Symbol>, at: int, symbol: Symbol, other: Seq<char>)
    requires
        is_latest(entries, symbol.key@, at),
    ensures
        lookup(entries.update(at, symbol), other) == if other == symbol.key@ {
            Some(symbol.decl@)
        } else {
            lookup(entries, other)
        },
    decreases entries.len(),
{
    let updated = entries.update(at, symbol);
    if at == entries.len() - 1 {
        assert(updated.drop_last() =~= entries.drop_last());
    } else {
        let shorter = entries.drop_last();
        assert(is_latest(shorter, symbol.key@, at));
        lemma_replace(shorter, at, symbol, other);
        assert(updated.drop_last() =~= shorter.update(at, symbol));
        assert(updated.last() == entries.last());
    }
}

impl View for SymbolTable {
    type V = Map<Seq<char>, StmtView>;

    closed spec fn view(&self) -> Map<Seq<char>, StmtView> {
        Map::new(
            |key: Seq<char>| lookup(self.entries@, key) is Some,
            |key: Seq<char>| lookup(self.entries@, key)->0,
        )
    }
}

impl SymbolTable {
    /// A table without declarations.
    pub fn new() -> (table: SymbolTable)
        ensures
            table@ == Map::<Seq<char>, StmtView>::empty(),
    {
        let table = SymbolTable { entries: Vec::new() };
        assert(table@ =~= Map::<Seq<char>, StmtView>::empty());
        table
    }

    /// The place of the latest entry with the key `key`.
    fn find(&self, key: &str) -> (found: Option<usize>)
        ensures
            match found {
                Some(at) => is_latest(self.entries@, key@, at as int),
                None => forall|j: int| 0 <= j < self.entries.len() ==> self.entries[j].key@ != key@,
            },
    {
        let mut at: usize = self.entries.len();
        while at > 0
            invariant
                at <= self.entries.len(),
                forall|j: int| at <= j < self.entries.len() ==> self.entries[j].key@ != key@,
            decreases at,
        {
            at -= 1;
            if same_text(self.entries[at].key.as_str(), key) {
                return Some(at);
            }
        }
        None
    }

    /// Registers `value` under `key`, in place of what `key` stood for.
    pub fn insert(&mut self, key: &str, value: Stmt)
        ensures
            final(self)@ == old(self)@.insert(key@, value@),
    {
        let symbol = Symbol { key: key.to_owned(), decl: value };
        let ghost before = self.entries@;
        match self.find(key) {
            Some(at) => {
                proof {
                    assert forall|other: Seq<char>|
                        lookup(before.update(at as int, symbol), other) == if other == key@ {
                            Some(value@)
                        } else {
                            #[trigger] lookup(before, other)
                        } by {
                        lemma_replace(before, at as int, symbol, other);
                    }
                }
                self.entries.set(at, symbol);
            },
            None => {
                proof {
                    assert(before.push(symbol).drop_last() =~= before);
                }
                self.entries.push(symbol);
            },
        }
        assert(final(self)@ =~= old(self)@.insert(key@, value@));
    }

    /// The declaration registered under `key`, if there is one.
    pub fn get(&self, key: &str) -> (found: Option<&Stmt>)
        ensures
            match found {
                Some(decl) => self@.contains_key(key@) && decl@ == self@[key@],
                None => !self@.contains_key(key@),
            },
    {
        proof {
            lemma_lookup(self.entries@, key@);
        }
        match self.find(key) {
            Some(at) => Some(&self.entries[at].decl),
            None => None,
        }
    }

    /// Whether a function named `identifier` has been declared.
    pub fn contains_func(&self, identifier: &str) -> (known: bool)
        ensures
            known == self@.contains_key(function_key(identifier@)),
    {
        let mut key = identifier.to_owned();
        key.append("()");
        self.get(key.as_str()).is_some()
    }
}

} // verus!
