//! The binding environment: the mapping from top-level `let` names to their
//! terms, keys unique, last definition winning.

use vstd::prelude::*;
use crate::term::{LambdaTerm, SpecTerm};

verus! {

/// The mapping held by a list of definitions, later entries overriding
/// earlier ones.
pub open spec fn entries_map(s: Seq<(String, LambdaTerm)>) -> Map<Seq<char>, SpecTerm>
    decreases s.len(),
{
    if s.len() == 0 {
        Map::empty()
    } else {
        entries_map(s.drop_last()).insert(s.last().0@, s.last().1@)
    }
}

/// When no definition at or after position `k` uses `key`, the mapping at
/// `key` is decided by the first `k` definitions alone.
proof fn lemma_entries_map_skip_suffix(s: Seq<(String, LambdaTerm)>, key: Seq<char>, k: int)
    requires
        0 <= k <= s.len(),
        forall|j: int| k <= j < s.len() ==> s[j].0@ != key,
    ensures
        entries_map(s).contains_key(key) == entries_map(s.take(k)).contains_key(key),
        entries_map(s).contains_key(key) ==> entries_map(s)[key] == entries_map(s.take(k))[key],
    decreases s.len() - k,
{
    if k == s.len() {
        assert(s.take(k) =~= s);
    } else {
        assert(s.last().0@ != key);
        lemma_entries_map_skip_suffix(s.drop_last(), key, k);
        assert(s.drop_last().take(k) =~= s.take(k));
    }
}

/// The binding environment. It is created empty, grows as `let` instructions
/// are processed, and is read by every `eval`.
#[derive(Clone)]
pub struct Bindings {
    /// The recorded definitions, oldest first.
    entries: Vec<(String, LambdaTerm)>,
}

impl View for Bindings {
    type V = Map<Seq<char>, SpecTerm>;

    closed spec fn view(&self) -> Map<Seq<char>, SpecTerm> {
        entries_map(self.entries@)
    }
}

impl Bindings {
    /// The empty environment.
    pub fn new() -> (r: Self)
        ensures
            r@ == Map::<Seq<char>, SpecTerm>::empty(),
    {
        Bindings { entries: Vec::new() }
    }

    /// Record a definition, overwriting any earlier one of the same name.
    pub fn define(&mut self, name: String, lambda_term: LambdaTerm)
        ensures
            final(self)@ == old(self)@.insert(name@, lambda_term@),
    {
        let ghost prefix = self.entries@;
        let ghost key = name@;
        let ghost value = lambda_term@;
        self.entries.push((name, lambda_term));
        proof {
            assert(self.entries@.drop_last() =~= prefix);
            assert(self.entries@.last().0@ == key);
            assert(self.entries@.last().1@ == value);
        }
    }

    /// Look a name up: the latest definition of it, if there is one.
    pub fn lookup(&self, name: &String) -> (r: Option<&LambdaTerm>)
        ensures
            match r {
                Some(t) => self@.contains_key(name@) && t@ == self@[name@],
                None => !self@.contains_key(name@),
            },
    {
        let mut k: usize = self.entries.len();
        while k > 0
            invariant
                k <= self.entries@.len(),
                forall|j: int| k <= j < self.entries@.len() ==> self.entries@[j].0@ != name@,
            decreases k,
        {
            k -= 1;
            if self.entries[k].0.eq(name) {
                proof {
                    lemma_entries_map_skip_suffix(self.entries@, name@, k + 1);
                    assert(self.entries@.take(k + 1).drop_last() =~= self.entries@.take(
                        k as int,
                    ));
                    assert(self.entries@.take(k + 1).last() == self.entries@[k as int]);
                }
                return Some(&self.entries[k].1);
            }
        }
        proof {
            lemma_entries_map_skip_suffix(self.entries@, name@, 0);
            assert(self.entries@.take(0) =~= Seq::<(String, LambdaTerm)>::empty());
        }
        None
    }
}

} // verus!
