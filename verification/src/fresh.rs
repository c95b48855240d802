//! Deterministic fresh-name generation: starting from a base name, try
//! `base`, `base1`, `base2`, ... until a name outside the forbidden set is
//! found.

use vstd::prelude::*;
use vstd::string::StringExecFns;
use crate::term::{
    contains_name, lemma_names_of_props, names_of, spec_all_vars, LambdaTerm,
};

verus! {

/// The character for a single decimal digit.
pub open spec fn digit_char(d: nat) -> char {
    if d == 0 {
        '0'
    } else if d == 1 {
        '1'
    } else if d == 2 {
        '2'
    } else if d == 3 {
        '3'
    } else if d == 4 {
        '4'
    } else if d == 5 {
        '5'
    } else if d == 6 {
        '6'
    } else if d == 7 {
        '7'
    } else if d == 8 {
        '8'
    } else {
        '9'
    }
}

/// The decimal spelling of a natural number, most significant digit first.
pub open spec fn dec_seq(n: nat) -> Seq<char>
    decreases n,
{
    if n < 10 {
        seq![digit_char(n)]
    } else {
        dec_seq(n / 10).push(digit_char(n % 10))
    }
}

/// The candidate tried at attempt `i`: the base name itself first, then the
/// base followed by the attempt number.
pub open spec fn spec_candidate(base: Seq<char>, i: nat) -> Seq<char> {
    if i == 0 {
        base
    } else {
        base + dec_seq(i)
    }
}

/// Attempt `i` is the first whose candidate lies outside `forbidden`.
pub open spec fn first_fresh_index(base: Seq<char>, forbidden: Set<Seq<char>>, i: nat) -> bool {
    &&& !forbidden.contains(spec_candidate(base, i))
    &&& forall|j: nat| j < i ==> forbidden.contains(spec_candidate(base, j))
}

/// The attempt number at which the generator stops.
pub open spec fn spec_fresh_index(base: Seq<char>, forbidden: Set<Seq<char>>) -> nat {
    choose|i: nat| first_fresh_index(base, forbidden, i)
}

/// The name the generator returns: the first candidate outside `forbidden`.
pub open spec fn spec_fresh(base: Seq<char>, forbidden: Set<Seq<char>>) -> Seq<char> {
    spec_candidate(base, spec_fresh_index(base, forbidden))
}

/// A decimal spelling is never empty.
pub proof fn lemma_dec_seq_len(n: nat)
    ensures
        dec_seq(n).len() >= 1,
        n >= 10 ==> dec_seq(n).len() >= 2,
    decreases n,
{
    if n >= 10 {
        lemma_dec_seq_len(n / 10);
    }
}

/// Distinct numbers have distinct decimal spellings.
pub proof fn lemma_dec_seq_injective(m: nat, n: nat)
    requires
        dec_seq(m) == dec_seq(n),
    ensures
        m == n,
    decreases m,
{
    assert(forall|d1: nat, d2: nat|
        d1 < 10 && d2 < 10 && digit_char(d1) == digit_char(d2) ==> d1 == d2);
    if m < 10 && n < 10 {
        assert(dec_seq(m) == seq![digit_char(m)]);
        assert(dec_seq(n) == seq![digit_char(n)]);
        assert(seq![digit_char(m)][0] == digit_char(m));
        assert(seq![digit_char(n)][0] == digit_char(n));
        assert(digit_char(m) == digit_char(n));
        assert(m == n);
    } else if m >= 10 && n >= 10 {
        let sm = dec_seq(m / 10);
        let sn = dec_seq(n / 10);
        assert(sm.push(digit_char(m % 10)) == sn.push(digit_char(n % 10)));
        assert(sm.push(digit_char(m % 10)).len() == sn.push(digit_char(n % 10)).len());
        assert(sm =~= sn) by {
            assert(forall|k: int|
                0 <= k < sm.len() ==> sm[k] == sm.push(digit_char(m % 10))[k]);
            assert(forall|k: int|
                0 <= k < sn.len() ==> sn[k] == sn.push(digit_char(n % 10))[k]);
        }
        assert(dec_seq(m)[sm.len() as int] == digit_char(m % 10));
        assert(dec_seq(n)[sn.len() as int] == digit_char(n % 10));
        lemma_dec_seq_injective(m / 10, n / 10);
        assert(m % 10 == n % 10);
    } else if m < 10 {
        lemma_dec_seq_len(n);
        assert(dec_seq(m).len() == 1);
        assert(false);
    } else {
        lemma_dec_seq_len(m);
        assert(dec_seq(n).len() == 1);
        assert(false);
    }
}

/// Distinct attempts produce distinct candidate names.
pub proof fn lemma_candidate_injective(base: Seq<char>, i: nat, j: nat)
    ensures
        spec_candidate(base, i) == spec_candidate(base, j) ==> i == j,
{
    if spec_candidate(base, i) == spec_candidate(base, j) && i != j {
        if i == 0 {
            lemma_dec_seq_len(j);
            assert(spec_candidate(base, j).len() > base.len());
            assert(false);
        } else if j == 0 {
            lemma_dec_seq_len(i);
            assert(spec_candidate(base, i).len() > base.len());
            assert(false);
        } else {
            assert((base + dec_seq(i)).len() == (base + dec_seq(j)).len());
            assert(dec_seq(i) =~= dec_seq(j)) by {
                assert(forall|k: int|
                    0 <= k < dec_seq(i).len() ==> dec_seq(i)[k] == (base + dec_seq(i))[
                        base.len() + k
                    ]);
                assert(forall|k: int|
                    0 <= k < dec_seq(j).len() ==> dec_seq(j)[k] == (base + dec_seq(j))[
                        base.len() + k
                    ]);
            }
            lemma_dec_seq_injective(i, j);
            assert(false);
        }
    }
}

/// A finite forbidden set cannot hold every candidate: some attempt at or
/// after `start`, within the set's size, escapes it.
proof fn lemma_fresh_exists(base: Seq<char>, s: Set<Seq<char>>, start: nat)
    requires
        s.finite(),
    ensures
        exists|i: nat|
            start <= i <= start + s.len() && !s.contains(spec_candidate(base, i)),
    decreases s.len(),
{
    if !s.contains(spec_candidate(base, start)) {
        assert(start <= start <= start + s.len() && !s.contains(spec_candidate(base, start)));
    } else {
        let s2 = s.remove(spec_candidate(base, start));
        assert(s2.len() == s.len() - 1);
        lemma_fresh_exists(base, s2, start + 1);
        let i = choose|i: nat|
            start + 1 <= i <= start + 1 + s2.len() && !s2.contains(spec_candidate(base, i));
        lemma_candidate_injective(base, i, start);
        assert(spec_candidate(base, i) != spec_candidate(base, start));
        assert(!s.contains(spec_candidate(base, i)));
        assert(start <= i <= start + s.len());
    }
}

/// Below any escaping attempt there is a first one.
proof fn lemma_minimal_fresh(base: Seq<char>, s: Set<Seq<char>>, w: nat)
    requires
        !s.contains(spec_candidate(base, w)),
    ensures
        exists|i: nat| i <= w && first_fresh_index(base, s, i),
    decreases w,
{
    if forall|j: nat| j < w ==> s.contains(spec_candidate(base, j)) {
        assert(first_fresh_index(base, s, w));
    } else {
        let j = choose|j: nat| j < w && !s.contains(spec_candidate(base, j));
        lemma_minimal_fresh(base, s, j);
        let i = choose|i: nat| i <= j && first_fresh_index(base, s, i);
        assert(i <= w && first_fresh_index(base, s, i));
    }
}

/// Only one attempt can be the first to escape.
pub proof fn lemma_first_fresh_unique(base: Seq<char>, s: Set<Seq<char>>, i: nat, j: nat)
    requires
        first_fresh_index(base, s, i),
        first_fresh_index(base, s, j),
    ensures
        i == j,
{
    if i < j {
        assert(s.contains(spec_candidate(base, i)));
        assert(false);
    }
    if j < i {
        assert(s.contains(spec_candidate(base, j)));
        assert(false);
    }
}

/// For a finite forbidden set the generator's spelling is well defined: its
/// attempt number is the first escaping one, lies within the set's size, and
/// the name it yields is not forbidden.
pub proof fn lemma_spec_fresh(base: Seq<char>, s: Set<Seq<char>>)
    requires
        s.finite(),
    ensures
        first_fresh_index(base, s, spec_fresh_index(base, s)),
        spec_fresh_index(base, s) <= s.len(),
        !s.contains(spec_fresh(base, s)),
{
    lemma_fresh_exists(base, s, 0);
    let w = choose|i: nat| 0 <= i <= s.len() && !s.contains(spec_candidate(base, i));
    lemma_minimal_fresh(base, s, w);
    let i = choose|i: nat| i <= w && first_fresh_index(base, s, i);
    assert(first_fresh_index(base, s, i));
    let picked = spec_fresh_index(base, s);
    assert(first_fresh_index(base, s, picked));
    lemma_first_fresh_unique(base, s, i, picked);
}

/// The text of one decimal digit.
fn digit_str(d: usize) -> (r: &'static str)
    requires
        d < 10,
    ensures
        r@ == seq![digit_char(d as nat)],
{
    if d == 0 {
        proof {
            reveal_strlit("0");
            assert("0"@ =~= seq![digit_char(0)]);
        }
        return "0";
    }
    if d == 1 {
        proof {
            reveal_strlit("1");
            assert("1"@ =~= seq![digit_char(1)]);
        }
        return "1";
    }
    if d == 2 {
        proof {
            reveal_strlit("2");
            assert("2"@ =~= seq![digit_char(2)]);
        }
        return "2";
    }
    if d == 3 {
        proof {
            reveal_strlit("3");
            assert("3"@ =~= seq![digit_char(3)]);
        }
        return "3";
    }
    if d == 4 {
        proof {
            reveal_strlit("4");
            assert("4"@ =~= seq![digit_char(4)]);
        }
        return "4";
    }
    if d == 5 {
        proof {
            reveal_strlit("5");
            assert("5"@ =~= seq![digit_char(5)]);
        }
        return "5";
    }
    if d == 6 {
        proof {
            reveal_strlit("6");
            assert("6"@ =~= seq![digit_char(6)]);
        }
        return "6";
    }
    if d == 7 {
        proof {
            reveal_strlit("7");
            assert("7"@ =~= seq![digit_char(7)]);
        }
        return "7";
    }
    if d == 8 {
        proof {
            reveal_strlit("8");
            assert("8"@ =~= seq![digit_char(8)]);
        }
        return "8";
    }
    proof {
        reveal_strlit("9");
        assert("9"@ =~= seq![digit_char(9)]);
    }
    "9"
}

/// The decimal text of a number.
fn dec_string(n: usize) -> (r: String)
    ensures
        r@ == dec_seq(n as nat),
    decreases n,
{
    if n < 10 {
        let d = digit_str(n);
        d.to_owned()
    } else {
        let mut s = dec_string(n / 10);
        s.append(digit_str(n % 10));
        proof {
            assert(dec_seq((n / 10) as nat) + seq![digit_char((n % 10) as nat)] =~= dec_seq(
                (n / 10) as nat,
            ).push(digit_char((n % 10) as nat)));
        }
        s
    }
}

impl LambdaTerm {
    /// Generate a fresh variable name that doesn't conflict with any variables
    /// in the current context or the replacement.
    pub fn generate_fresh_variable(
        base_name: &str,
        current_vars: &Vec<String>,
        replacement: &LambdaTerm,
    ) -> (r: String)
        ensures
            r@ == spec_fresh(
                base_name@,
                names_of(current_vars@).union(spec_all_vars(replacement@)),
            ),
            !names_of(current_vars@).contains(r@),
            !spec_all_vars(replacement@).contains(r@),
    {
        let ghost forbidden = names_of(current_vars@).union(spec_all_vars(replacement@));
        let mut used: Vec<String> = Vec::new();
        let mut k: usize = 0;
        while k < current_vars.len()
            invariant
                k <= current_vars@.len(),
                used@ =~= current_vars@.take(k as int),
            decreases current_vars@.len() - k,
        {
            used.push(current_vars[k].clone());
            k += 1;
        }
        proof {
            assert(current_vars@.take(current_vars@.len() as int) =~= current_vars@);
        }
        let repl_vars = replacement.all_variables();
        let mut k2: usize = 0;
        let ghost cur = used@;
        while k2 < repl_vars.len()
            invariant
                k2 <= repl_vars@.len(),
                used@ =~= cur + repl_vars@.take(k2 as int),
            decreases repl_vars@.len() - k2,
        {
            used.push(repl_vars[k2].clone());
            k2 += 1;
        }
        proof {
            assert(repl_vars@.take(repl_vars@.len() as int) =~= repl_vars@);
            assert(used@ =~= cur + repl_vars@);
            lemma_names_of_concat(cur, repl_vars@);
            lemma_names_of_views(cur, current_vars@);
            assert(names_of(used@) =~= forbidden);
            lemma_names_of_props(used@);
            lemma_vars_finite_set(forbidden, current_vars@, replacement@);
            lemma_spec_fresh(base_name@, forbidden);
        }
        let ghost target: nat = spec_fresh_index(base_name@, forbidden);
        let used_len: usize = used.len();
        let mut i: usize = 0;
        let mut candidate: String = base_name.to_owned();
        while contains_name(&used, &candidate)
            invariant
                names_of(used@) == forbidden,
                forbidden.finite(),
                first_fresh_index(base_name@, forbidden, target),
                target <= forbidden.len(),
                forbidden.len() <= used_len,
                (i as nat) <= target,
                candidate@ == spec_candidate(base_name@, i as nat),
            decreases target - i as nat,
        {
            proof {
                assert(forbidden.contains(spec_candidate(base_name@, i as nat)));
                assert((i as nat) != target);
                assert((i as nat) < target);
            }
            i += 1;
            let mut next = base_name.to_owned();
            next.append(dec_string(i).as_str());
            candidate = next;
        }
        proof {
            assert(!forbidden.contains(spec_candidate(base_name@, i as nat)));
            if (i as nat) < target {
                assert(forbidden.contains(spec_candidate(base_name@, i as nat)));
                assert(false);
            }
            assert((i as nat) == target);
        }
        candidate
    }
}

/// Splitting a name vector splits its name set.
proof fn lemma_names_of_concat(a: Seq<String>, b: Seq<String>)
    ensures
        names_of(a + b) =~= names_of(a).union(names_of(b)),
    decreases b.len(),
{
    if b.len() == 0 {
        assert(a + b =~= a);
    } else {
        lemma_names_of_concat(a, b.drop_last());
        assert((a + b).drop_last() =~= a + b.drop_last());
        assert((a + b).last() == b.last());
    }
}

/// Vectors that spell the same names have the same name set.
proof fn lemma_names_of_views(a: Seq<String>, b: Seq<String>)
    requires
        a =~= b,
    ensures
        names_of(a) == names_of(b),
{
}

/// The forbidden set of the generator is finite.
proof fn lemma_vars_finite_set(forbidden: Set<Seq<char>>, vars: Seq<String>, t: crate::term::SpecTerm)
    requires
        forbidden == names_of(vars).union(spec_all_vars(t)),
    ensures
        forbidden.finite(),
{
    lemma_names_of_props(vars);
    crate::term::lemma_vars_finite(t);
}

} // verus!
