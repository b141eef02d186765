//! The two tables of the resolver: the definitions resolved so far, by name,
//! and the binders in scope, by letter.
//!
//! Both are association lists whose keys are pairwise distinct, viewed as
//! maps.

use crate::types::{TExpr, TExpression, Token};
use vstd::prelude::*;

verus! {

/// No key stands twice in `pairs`.
pub open spec fn keys_distinct<K, V>(pairs: Seq<(K, V)>) -> bool {
    forall|i: int, j: int|
        0 <= i < j < pairs.len() ==> (#[trigger] pairs[i]).0 != (#[trigger] pairs[j]).0
}

/// Whether `key` stands in `pairs`.
pub open spec fn has_key<K, V>(pairs: Seq<(K, V)>, key: K) -> bool {
    exists|i: int| 0 <= i < pairs.len() && (#[trigger] pairs[i]).0 == key
}

/// A place where `key` stands in `pairs`, if it does.
pub open spec fn key_index<K, V>(pairs: Seq<(K, V)>, key: K) -> int {
    choose|i: int| 0 <= i < pairs.len() && (#[trigger] pairs[i]).0 == key
}

/// The map that takes each key of `pairs` to the value beside it.
pub open spec fn pairs_map<K, V>(pairs: Seq<(K, V)>) -> Map<K, V> {
    Map::new(|key: K| has_key(pairs, key), |key: K| pairs[key_index(pairs, key)].1)
}

/// A key found at `at` is in the map, with the value beside it.
pub proof fn lemma_pairs_found<K, V>(pairs: Seq<(K, V)>, at: int)
    requires
        keys_distinct(pairs),
        0 <= at < pairs.len(),
    ensures
        pairs_map(pairs).contains_key(pairs[at].0),
        pairs_map(pairs)[pairs[at].0] == pairs[at].1,
{
    let key = pairs[at].0;
    let k = key_index(pairs, key);
    assert(0 <= k < pairs.len() && pairs[k].0 == key);
    assert(k == at);
}

/// Writing `(key, value)` over the pair that holds `key` is `insert` on the map.
pub proof fn lemma_pairs_replaced<K, V>(pairs: Seq<(K, V)>, at: int, key: K, value: V)
    requires
        keys_distinct(pairs),
        0 <= at < pairs.len(),
        pairs[at].0 == key,
    ensures
        keys_distinct(pairs.update(at, (key, value))),
        pairs_map(pairs.update(at, (key, value))) == pairs_map(pairs).insert(key, value),
{
    let after = pairs.update(at, (key, value));
    assert forall|a: int, b: int| 0 <= a < b < after.len() implies (#[trigger] after[a]).0 != (
    #[trigger] after[b]).0 by {
        assert(after[a].0 == pairs[a].0);
        assert(after[b].0 == pairs[b].0);
    }
    let m1 = pairs_map(after);
    let m2 = pairs_map(pairs).insert(key, value);
    assert forall|k: K| m1.dom().contains(k) <==> m2.dom().contains(k) by {
        if has_key(after, k) {
            let i = key_index(after, k);
            assert(pairs[i].0 == k);
        }
        if has_key(pairs, k) {
            let i = key_index(pairs, k);
            assert(after[i].0 == k);
        }
        if k == key {
            assert(after[at].0 == k);
        }
    }
    assert forall|k: K| m1.dom().contains(k) implies m1[k] == m2[k] by {
        let i = key_index(after, k);
        assert(0 <= i < after.len() && after[i].0 == k);
        if k == key {
            assert(after[at].0 == k);
            assert(i == at);
        } else {
            assert(pairs[i].0 == k);
            lemma_pairs_found(pairs, i);
        }
    }
    assert(m1 =~= m2);
}

/// Appending `(key, value)` where `key` does not stand yet is `insert` on the map.
pub proof fn lemma_pairs_pushed<K, V>(pairs: Seq<(K, V)>, key: K, value: V)
    requires
        keys_distinct(pairs),
        !has_key(pairs, key),
    ensures
        keys_distinct(pairs.push((key, value))),
        pairs_map(pairs.push((key, value))) == pairs_map(pairs).insert(key, value),
{
    let after = pairs.push((key, value));
    let last = pairs.len() as int;
    assert forall|a: int, b: int| 0 <= a < b < after.len() implies (#[trigger] after[a]).0 != (
    #[trigger] after[b]).0 by {
        assert(after[a] == pairs[a]);
        if b < last {
            assert(after[b] == pairs[b]);
        }
    }
    let m1 = pairs_map(after);
    let m2 = pairs_map(pairs).insert(key, value);
    assert forall|k: K| m1.dom().contains(k) <==> m2.dom().contains(k) by {
        if has_key(after, k) {
            let i = key_index(after, k);
            if i != last {
                assert(pairs[i].0 == k);
            }
        }
        if has_key(pairs, k) {
            let i = key_index(pairs, k);
            assert(after[i].0 == k);
        }
        if k == key {
            assert(after[last].0 == k);
        }
    }
    assert forall|k: K| m1.dom().contains(k) implies m1[k] == m2[k] by {
        let i = key_index(after, k);
        assert(0 <= i < after.len() && after[i].0 == k);
        if k == key {
            assert(after[last].0 == k);
            assert(i == last);
        } else {
            assert(pairs[i].0 == k);
            lemma_pairs_found(pairs, i);
        }
    }
    assert(m1 =~= m2);
}

/// As many keys are in the map as pairs are in `pairs`.
pub proof fn lemma_pairs_count<K, V>(pairs: Seq<(K, V)>)
    requires
        keys_distinct(pairs),
    ensures
        pairs_map(pairs).dom().finite(),
        pairs_map(pairs).dom().len() == pairs.len(),
    decreases pairs.len(),
{
    if pairs.len() == 0 {
        assert(pairs_map(pairs).dom() =~= Set::<K>::empty());
    } else {
        let front = pairs.drop_last();
        let last = pairs.last();
        assert(keys_distinct(front)) by {
            assert forall|i: int, j: int| 0 <= i < j < front.len() implies (#[trigger] front[i]).0
                != (#[trigger] front[j]).0 by {
                assert(front[i] == pairs[i]);
                assert(front[j] == pairs[j]);
            }
        }
        assert(!has_key(front, last.0)) by {
            if has_key(front, last.0) {
                let i = key_index(front, last.0);
                assert(front[i] == pairs[i]);
                assert(pairs[i].0 == pairs[pairs.len() - 1].0);
            }
        }
        assert(front.push(last) =~= pairs);
        lemma_pairs_count(front);
        lemma_pairs_pushed(front, last.0, last.1);
        assert(pairs_map(pairs).dom() =~= pairs_map(front).dom().insert(last.0));
    }
}

/// The views of a run of names, in order.
pub open spec fn name_views(names: Seq<String>) -> Seq<Seq<char>> {
    Seq::new(names.len(), |i: int| names[i]@)
}

/// The resolved definitions, by name. Names are unique, and what a name
/// stands for never changes once it is defined.
#[derive(Debug)]
pub struct Registry {
    entries: Vec<(String, TExpression)>,
}

/// Each entry as a name and a value.
spec fn entry_pairs(entries: Seq<(String, TExpression)>) -> Seq<(Seq<char>, TExpr)> {
    Seq::new(entries.len(), |i: int| (entries[i].0@, entries[i].1@))
}

impl View for Registry {
    type V = Map<Seq<char>, TExpr>;

    closed spec fn view(&self) -> Map<Seq<char>, TExpr> {
        pairs_map(entry_pairs(self.entries@))
    }
}

impl Registry {
    /// No name is defined twice.
    pub closed spec fn wf(&self) -> bool {
        keys_distinct(entry_pairs(self.entries@))
    }

    /// The registry that defines nothing.
    pub fn new() -> (registry: Self)
        ensures
            registry.wf(),
            registry@ == Map::<Seq<char>, TExpr>::empty(),
    {
        let registry = Registry { entries: Vec::new() };
        assert(registry@ =~= Map::<Seq<char>, TExpr>::empty());
        registry
    }

    /// What `name` stands for, if it is defined.
    pub fn get(&self, name: &str) -> (found: Option<&TExpression>)
        requires
            self.wf(),
        ensures
            match found {
                Some(expression) => self@.contains_key(name@) && expression@ == self@[name@],
                None => !self@.contains_key(name@),
            },
    {
        let key = name.to_owned();
        let ghost pairs = entry_pairs(self.entries@);
        let mut i: usize = 0;
        while i < self.entries.len()
            invariant
                i <= self.entries.len(),
                key@ == name@,
                pairs == entry_pairs(self.entries@),
                keys_distinct(pairs),
                forall|j: int| 0 <= j < i ==> (#[trigger] pairs[j]).0 != name@,
            decreases self.entries.len() - i,
        {
            if self.entries[i].0 == key {
                proof {
                    assert(pairs[i as int].0 == name@);
                    lemma_pairs_found(pairs, i as int);
                }
                return Some(&self.entries[i].1);
            }
            assert(pairs[i as int].0 != name@);
            i += 1;
        }
        None
    }

    /// The number of names that are defined.
    pub fn len(&self) -> (n: usize)
        requires
            self.wf(),
        ensures
            n == self@.dom().len(),
            self@.dom().finite(),
    {
        proof {
            lemma_pairs_count(entry_pairs(self.entries@));
        }
        self.entries.len()
    }

    /// The names that are defined, each once, in the order in which they
    /// were defined.
    pub fn names(&self) -> (names: Vec<String>)
        requires
            self.wf(),
        ensures
            name_views(names@).no_duplicates(),
            name_views(names@).to_set() == self@.dom(),
            names.len() == self@.dom().len(),
    {
        let ghost pairs = entry_pairs(self.entries@);
        let mut names: Vec<String> = Vec::new();
        let mut i: usize = 0;
        while i < self.entries.len()
            invariant
                i <= self.entries.len(),
                pairs == entry_pairs(self.entries@),
                names.len() == i,
                forall|j: int| 0 <= j < i ==> (#[trigger] names@[j])@ == pairs[j].0,
            decreases self.entries.len() - i,
        {
            let name = self.entries[i].0.clone();
            names.push(name);
            i += 1;
        }
        proof {
            let views = name_views(names@);
            lemma_pairs_count(pairs);
            assert forall|a: int, b: int| 0 <= a < views.len() && 0 <= b < views.len() && a
                != b implies views[a] != views[b] by {
                assert(views[a] == pairs[a].0);
                assert(views[b] == pairs[b].0);
            }
            assert forall|key: Seq<char>| views.to_set().contains(key) <==> self@.dom().contains(
                key,
            ) by {
                if views.to_set().contains(key) {
                    let j = choose|j: int| 0 <= j < views.len() && views[j] == key;
                    assert(pairs[j].0 == key);
                }
                if has_key(pairs, key) {
                    let j = key_index(pairs, key);
                    assert(views[j] == key);
                }
            }
            assert(views.to_set() =~= self@.dom());
        }
        names
    }

    /// Whether `name` is defined.
    pub fn contains_key(&self, name: &str) -> (found: bool)
        requires
            self.wf(),
        ensures
            found == self@.contains_key(name@),
    {
        self.get(name).is_some()
    }

    /// Defines `name` as `expression`, unless `name` is defined already: a
    /// definition is never replaced. Says whether the name was added.
    pub fn insert(&mut self, name: String, expression: TExpression) -> (added: bool)
        requires
            old(self).wf(),
        ensures
            final(self).wf(),
            added == !old(self)@.contains_key(name@),
            final(self)@ == if added {
                old(self)@.insert(name@, expression@)
            } else {
                old(self)@
            },
    {
        let ghost pairs = entry_pairs(self.entries@);
        let mut i: usize = 0;
        while i < self.entries.len()
            invariant
                i <= self.entries.len(),
                self.entries@ == old(self).entries@,
                pairs == entry_pairs(self.entries@),
                keys_distinct(pairs),
                forall|j: int| 0 <= j < i ==> (#[trigger] pairs[j]).0 != name@,
            decreases self.entries.len() - i,
        {
            if self.entries[i].0 == name {
                proof {
                    assert(pairs[i as int].0 == name@);
                    lemma_pairs_found(pairs, i as int);
                }
                return false;
            }
            assert(pairs[i as int].0 != name@);
            i += 1;
        }
        self.entries.push((name, expression));
        proof {
            lemma_pairs_pushed(pairs, name@, expression@);
            assert(entry_pairs(self.entries@) =~= pairs.push((name@, expression@)));
        }
        true
    }
}

/// The binders in scope, by letter. A letter bound again stands for the
/// inner binder.
#[derive(Debug)]
pub struct Scope {
    bindings: Vec<(char, Token)>,
}

impl View for Scope {
    type V = Map<char, Token>;

    closed spec fn view(&self) -> Map<char, Token> {
        pairs_map(self.bindings@)
    }
}

impl Scope {
    /// No letter is bound twice.
    pub closed spec fn wf(&self) -> bool {
        keys_distinct(self.bindings@)
    }

    /// The scope in which no letter is bound.
    pub fn new() -> (scope: Self)
        ensures
            scope.wf(),
            scope@ == Map::<char, Token>::empty(),
    {
        let scope = Scope { bindings: Vec::new() };
        assert(scope@ =~= Map::<char, Token>::empty());
        scope
    }

    /// The binder that `letter` refers to, if one is in scope.
    pub fn get(&self, letter: char) -> (found: Option<Token>)
        requires
            self.wf(),
        ensures
            match found {
                Some(token) => self@.contains_key(letter) && token == self@[letter],
                None => !self@.contains_key(letter),
            },
    {
        let mut i: usize = 0;
        while i < self.bindings.len()
            invariant
                i <= self.bindings.len(),
                keys_distinct(self.bindings@),
                forall|j: int| 0 <= j < i ==> (#[trigger] self.bindings@[j]).0 != letter,
            decreases self.bindings.len() - i,
        {
            if self.bindings[i].0 == letter {
                proof {
                    lemma_pairs_found(self.bindings@, i as int);
                }
                return Some(self.bindings[i].1);
            }
            i += 1;
        }
        None
    }

    /// Binds `letter` to `token`, in place of what it was bound to, if anything.
    pub fn insert(&mut self, letter: char, token: Token)
        requires
            old(self).wf(),
        ensures
            final(self).wf(),
            final(self)@ == old(self)@.insert(letter, token),
    {
        let mut i: usize = 0;
        while i < self.bindings.len()
            invariant
                i <= self.bindings.len(),
                self.bindings@ == old(self).bindings@,
                keys_distinct(self.bindings@),
                forall|j: int| 0 <= j < i ==> (#[trigger] self.bindings@[j]).0 != letter,
            decreases self.bindings.len() - i,
        {
            if self.bindings[i].0 == letter {
                proof {
                    lemma_pairs_replaced(self.bindings@, i as int, letter, token);
                }
                self.bindings.set(i, (letter, token));
                return ;
            }
            i += 1;
        }
        proof {
            lemma_pairs_pushed(self.bindings@, letter, token);
        }
        self.bindings.push((letter, token));
    }
}

impl Clone for Scope {
    fn clone(&self) -> (copy: Self)
        ensures
            copy@ == self@,
            self.wf() ==> copy.wf(),
    {
        let mut bindings: Vec<(char, Token)> = Vec::new();
        let mut i: usize = 0;
        while i < self.bindings.len()
            invariant
                i <= self.bindings.len(),
                bindings@ == self.bindings@.take(i as int),
            decreases self.bindings.len() - i,
        {
            bindings.push(self.bindings[i]);
            proof {
                assert(bindings@ =~= self.bindings@.take(i + 1));
            }
            i += 1;
        }
        proof {
            assert(bindings@ =~= self.bindings@);
        }
        Scope { bindings }
    }
}

} // verus!
