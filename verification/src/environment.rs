//! The environment: the variables of a running program, in nested scopes.

use vstd::hash_map::StringHashMap;
use vstd::prelude::*;
use vstd::string::*;
use crate::tokens::{Kind, TokenType};

verus! {

/// The variables of one scope: names and their values.
pub type Scope = Map<Seq<char>, Kind>;

/// The scope that a map from names to values stands for: the same names, each with the
/// kind of its value.
pub closed spec fn scope_of(bindings: Map<Seq<char>, TokenType>) -> Scope {
    Map::new(|name: Seq<char>| bindings.contains_key(name), |name: Seq<char>| bindings[name]@)
}

/// The value of `name` in the innermost scope that holds it, if any does. The last scope
/// is the innermost.
pub open spec fn lookup(scopes: Seq<Scope>, name: Seq<char>) -> Option<Kind>
    decreases scopes.len(),
{
    if scopes.len() == 0 {
        None
    } else if scopes.last().contains_key(name) {
        Some(scopes.last()[name])
    } else {
        lookup(scopes.drop_last(), name)
    }
}

/// The scopes after `name` has been given `value` in the innermost scope that holds it.
/// Where no scope holds it, nothing changes.
pub open spec fn assigned(scopes: Seq<Scope>, name: Seq<char>, value: Kind) -> Seq<Scope>
    decreases scopes.len(),
{
    if scopes.len() == 0 {
        scopes
    } else if scopes.last().contains_key(name) {
        scopes.drop_last().push(scopes.last().insert(name, value))
    } else {
        assigned(scopes.drop_last(), name, value).push(scopes.last())
    }
}

/// The scopes after `name` has been declared with `value` in the innermost scope.
pub open spec fn defined(scopes: Seq<Scope>, name: Seq<char>, value: Kind) -> Seq<Scope>
    recommends
        scopes.len() > 0,
{
    scopes.drop_last().push(scopes.last().insert(name, value))
}

/// A stack of scopes, each a hash map from names to values. The global scope is at the
/// bottom and is never left.
pub struct Environment {
    scopes: Vec<StringHashMap<TokenType>>,
}

impl View for Environment {
    type V = Seq<Scope>;

    closed spec fn view(&self) -> Seq<Scope> {
        Seq::new(self.scopes@.len(), |i: int| scope_of(self.scopes@[i]@))
    }
}

/// An empty map is an empty scope.
proof fn lemma_scope_of_empty()
    ensures
        scope_of(Map::empty()) == Map::<Seq<char>, Kind>::empty(),
{
    assert(scope_of(Map::empty()) =~= Map::<Seq<char>, Kind>::empty());
}

/// One more binding in the map is one more binding in the scope.
proof fn lemma_scope_of_insert(bindings: Map<Seq<char>, TokenType>, name: Seq<char>, value: TokenType)
    ensures
        scope_of(bindings.insert(name, value)) == scope_of(bindings).insert(name, value@),
{
    assert(scope_of(bindings.insert(name, value)) =~= scope_of(bindings).insert(name, value@));
}

impl Default for Environment {
    /// An environment with a single empty scope.
    fn default() -> (r: Self)
        ensures
            r.well_formed(),
            r@ == seq![Map::<Seq<char>, Kind>::empty()],
    {
        Environment::new(None)
    }
}

impl Environment {
    /// Whether the environment has its global scope. Every environment that this module
    /// hands out has.
    pub open spec fn well_formed(&self) -> bool {
        self@.len() >= 1
    }

    /// An environment with one empty scope more than `enclosing`, or with a single empty
    /// scope where there is none.
    pub fn new(enclosing: Option<Box<Environment>>) -> (r: Self)
        ensures
            r.well_formed(),
            r@ == match enclosing {
                Some(outer) => outer@.push(Map::empty()),
                None => seq![Map::empty()],
            },
    {
        let ghost before: Seq<Scope> = match &enclosing {
            Some(outer) => outer@,
            None => Seq::empty(),
        };
        let mut scopes = match enclosing {
            Some(outer) => (*outer).scopes,
            None => Vec::new(),
        };
        scopes.push(StringHashMap::new());
        let r = Environment { scopes };
        proof {
            lemma_scope_of_empty();
            assert(r@ =~= before.push(Map::empty()));
            assert(Seq::<Scope>::empty().push(Map::empty()) =~= seq![Map::empty()]);
        }
        r
    }

    /// The number of scopes.
    pub fn depth(&self) -> (r: usize)
        ensures
            r == self@.len(),
    {
        self.scopes.len()
    }

    /// Opens a new innermost scope, empty.
    pub fn enter_scope(&mut self)
        ensures
            final(self)@ == old(self)@.push(Map::empty()),
            final(self).well_formed(),
    {
        self.scopes.push(StringHashMap::new());
        proof {
            lemma_scope_of_empty();
            assert(self@ =~= old(self)@.push(Map::empty()));
        }
    }

    /// Leaves the innermost scope. The global scope stays.
    pub fn exit_scope(&mut self)
        requires
            old(self).well_formed(),
        ensures
            final(self).well_formed(),
            final(self)@ == if old(self)@.len() > 1 {
                old(self)@.drop_last()
            } else {
                old(self)@
            },
    {
        if self.scopes.len() > 1 {
            self.scopes.pop();
            proof {
                assert(self@ =~= old(self)@.drop_last());
            }
        }
    }

    /// Declares `name` in the innermost scope with `value`, in place of any value that the
    /// name has there. The other scopes stay as they are.
    pub fn define(&mut self, name: String, value: TokenType)
        requires
            old(self).well_formed(),
        ensures
            final(self).well_formed(),
            final(self)@ == defined(old(self)@, name@, value@),
    {
        let last = self.scopes.len() - 1;
        proof {
            lemma_scope_of_insert(self.scopes@[last as int]@, name@, value);
        }
        self.scopes[last].insert(name, value);
        proof {
            assert(self@ =~= defined(old(self)@, name@, value@));
        }
    }

    /// A copy of the value of `name` in the innermost scope that holds it.
    pub fn get(&self, name: &str) -> (r: Option<TokenType>)
        ensures
            match r {
                Some(value) => lookup(self@, name@) == Some(value@),
                None => lookup(self@, name@) is None,
            },
    {
        let mut i: usize = self.scopes.len();
        proof {
            assert(self@.take(i as int) =~= self@);
        }
        while i > 0
            invariant
                i <= self.scopes@.len(),
                lookup(self@, name@) == lookup(self@.take(i as int), name@),
            decreases i,
        {
            proof {
                assert(self@.take(i as int).drop_last() =~= self@.take(i - 1));
            }
            i = i - 1;
            match self.scopes[i].get(name) {
                Some(value) => {
                    return Some(value.clone());
                },
                None => {},
            }
        }
        None
    }

    /// Gives `name` the value `value` in the innermost scope that holds it. Where no scope
    /// holds it, nothing changes and the result is `None`.
    pub fn assign(&mut self, name: &str, value: TokenType) -> (r: Option<()>)
        requires
            old(self).well_formed(),
        ensures
            final(self).well_formed(),
            r is Some <==> lookup(old(self)@, name@) is Some,
            final(self)@ == assigned(old(self)@, name@, value@),
    {
        let mut i: usize = self.scopes.len();
        while i > 0
            invariant
                self == old(self),
                i <= self.scopes@.len(),
                forall|j: int| i <= j < self@.len() ==> !(#[trigger] self@[j]).contains_key(name@),
            decreases i,
        {
            i = i - 1;
            if self.scopes[i].contains_key(name) {
                let key = String::from_str(name);
                proof {
                    lemma_scope_of_insert(self.scopes@[i as int]@, name@, value);
                    lemma_assigned_at(old(self)@, name@, value@, i as int);
                    lemma_lookup_at(old(self)@, name@, i as int);
                }
                self.scopes[i].insert(key, value);
                proof {
                    assert(self@ =~= old(self)@.update(
                        i as int,
                        old(self)@[i as int].insert(name@, value@),
                    ));
                }
                return Some(());
            }
        }
        proof {
            lemma_absent(self@, name@, value@);
        }
        None
    }
}

/// Where scope `i` is the innermost that holds the name, that is where it is found.
proof fn lemma_lookup_at(scopes: Seq<Scope>, name: Seq<char>, i: int)
    requires
        0 <= i < scopes.len(),
        scopes[i].contains_key(name),
        forall|j: int| i < j < scopes.len() ==> !(#[trigger] scopes[j]).contains_key(name),
    ensures
        lookup(scopes, name) == Some(scopes[i][name]),
    decreases scopes.len(),
{
    if i < scopes.len() - 1 {
        lemma_lookup_at(scopes.drop_last(), name, i);
    }
}

/// Where scope `i` is the innermost that holds the name, that is where it is assigned.
proof fn lemma_assigned_at(scopes: Seq<Scope>, name: Seq<char>, value: Kind, i: int)
    requires
        0 <= i < scopes.len(),
        scopes[i].contains_key(name),
        forall|j: int| i < j < scopes.len() ==> !(#[trigger] scopes[j]).contains_key(name),
    ensures
        assigned(scopes, name, value) == scopes.update(i, scopes[i].insert(name, value)),
    decreases scopes.len(),
{
    if i < scopes.len() - 1 {
        lemma_assigned_at(scopes.drop_last(), name, value, i);
        assert(assigned(scopes, name, value) =~= scopes.update(i, scopes[i].insert(name, value)));
    } else {
        assert(assigned(scopes, name, value) =~= scopes.update(i, scopes[i].insert(name, value)));
    }
}

/// Assigning to a name that is not found changes nothing.
pub proof fn lemma_assigned_unknown(scopes: Seq<Scope>, name: Seq<char>, value: Kind)
    requires
        lookup(scopes, name) is None,
    ensures
        assigned(scopes, name, value) == scopes,
    decreases scopes.len(),
{
    if scopes.len() > 0 {
        lemma_assigned_unknown(scopes.drop_last(), name, value);
        assert(scopes.drop_last().push(scopes.last()) =~= scopes);
    }
}

/// Assigning keeps the number of scopes.
pub proof fn lemma_assigned_len(scopes: Seq<Scope>, name: Seq<char>, value: Kind)
    ensures
        assigned(scopes, name, value).len() == scopes.len(),
    decreases scopes.len(),
{
    if scopes.len() > 0 {
        lemma_assigned_len(scopes.drop_last(), name, value);
    }
}

/// Where no scope holds the name, it is not found and assigning it changes nothing.
proof fn lemma_absent(scopes: Seq<Scope>, name: Seq<char>, value: Kind)
    requires
        forall|j: int| 0 <= j < scopes.len() ==> !(#[trigger] scopes[j]).contains_key(name),
    ensures
        lookup(scopes, name) is None,
        assigned(scopes, name, value) == scopes,
    decreases scopes.len(),
{
    if scopes.len() > 0 {
        lemma_absent(scopes.drop_last(), name, value);
        assert(scopes.drop_last().push(scopes.last()) =~= scopes);
    }
}

/// A variable that is declared in a new scope is found there with its value, whatever the
/// outer scopes hold under its name.
pub proof fn lemma_declared_is_found(scopes: Seq<Scope>, name: Seq<char>, value: Kind)
    ensures
        lookup(defined(scopes.push(Map::empty()), name, value), name) == Some(value),
{
}

/// Declaring a variable in a new scope changes no outer scope: when the new scope is left,
/// the scopes are what they were before it was entered.
pub proof fn lemma_scope_left(scopes: Seq<Scope>, name: Seq<char>, value: Kind)
    ensures
        defined(scopes.push(Map::empty()), name, value).drop_last() == scopes,
{
    assert(defined(scopes.push(Map::empty()), name, value).drop_last() =~= scopes);
}

/// Assigning to a variable that is found gives it the new value.
pub proof fn lemma_assigned_is_found(scopes: Seq<Scope>, name: Seq<char>, value: Kind)
    requires
        lookup(scopes, name) is Some,
    ensures
        lookup(assigned(scopes, name, value), name) == Some(value),
    decreases scopes.len(),
{
    if scopes.len() > 0 && !scopes.last().contains_key(name) {
        lemma_assigned_is_found(scopes.drop_last(), name, value);
        assert(assigned(scopes, name, value).drop_last() =~= assigned(
            scopes.drop_last(),
            name,
            value,
        ));
    } else if scopes.len() > 0 {
        assert(assigned(scopes, name, value).last().contains_key(name));
    }
}

/// Assigning and declaring leave every other variable as it was.
pub proof fn lemma_others_untouched(
    scopes: Seq<Scope>,
    name: Seq<char>,
    value: Kind,
    other: Seq<char>,
)
    requires
        other != name,
    ensures
        lookup(assigned(scopes, name, value), other) == lookup(scopes, other),
        scopes.len() > 0 ==> lookup(defined(scopes, name, value), other) == lookup(scopes, other),
    decreases scopes.len(),
{
    if scopes.len() > 0 {
        lemma_others_untouched(scopes.drop_last(), name, value, other);
        assert(defined(scopes, name, value).drop_last() =~= scopes.drop_last());
        if scopes.last().contains_key(name) {
            assert(assigned(scopes, name, value).drop_last() =~= scopes.drop_last());
        } else {
            assert(assigned(scopes, name, value).drop_last() =~= assigned(
                scopes.drop_last(),
                name,
                value,
            ));
        }
    }
}

} // verus!
