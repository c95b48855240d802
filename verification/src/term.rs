//! The term model: the `LambdaTerm` tree, its mathematical view `SpecTerm`,
//! and the free- and bound-variable analyses.

use vstd::prelude::*;
use vstd::string::StringExecFns;

verus! {

/// The mathematical model of a lambda term: names are character sequences.
pub enum SpecTerm {
    /// A variable, identified purely by its name.
    Var(Seq<char>),
    /// An abstraction binding a parameter within a body.
    Abs(Seq<char>, Box<SpecTerm>),
    /// An application of a function to an argument.
    App(Box<SpecTerm>, Box<SpecTerm>),
}

/// The number of nodes of a term; substitution is measured by it.
pub open spec fn term_size(t: SpecTerm) -> nat
    decreases t,
{
    match t {
        SpecTerm::Var(_) => 1,
        SpecTerm::Abs(_, body) => 1 + term_size(*body),
        SpecTerm::App(func, arg) => 1 + term_size(*func) + term_size(*arg),
    }
}

/// The set of variable names occurring free in `t`: a variable contributes
/// itself, an abstraction removes its own parameter from its body's free
/// names, an application contributes both sides.
pub open spec fn spec_free_vars(t: SpecTerm) -> Set<Seq<char>>
    decreases t,
{
    match t {
        SpecTerm::Var(v) => set![v],
        SpecTerm::Abs(param, body) => spec_free_vars(*body).remove(param),
        SpecTerm::App(func, arg) => spec_free_vars(*func).union(spec_free_vars(*arg)),
    }
}

/// The set of all variable names occurring anywhere in `t`, free or bound.
pub open spec fn spec_all_vars(t: SpecTerm) -> Set<Seq<char>>
    decreases t,
{
    match t {
        SpecTerm::Var(v) => set![v],
        SpecTerm::Abs(param, body) => spec_all_vars(*body).insert(param),
        SpecTerm::App(func, arg) => spec_all_vars(*func).union(spec_all_vars(*arg)),
    }
}

/// Both variable sets are finite, and every free variable occurs in the term.
pub proof fn lemma_vars_finite(t: SpecTerm)
    ensures
        spec_free_vars(t).finite(),
        spec_all_vars(t).finite(),
        spec_free_vars(t).subset_of(spec_all_vars(t)),
    decreases t,
{
    match t {
        SpecTerm::Var(_) => {},
        SpecTerm::Abs(_, body) => {
            lemma_vars_finite(*body);
        },
        SpecTerm::App(func, arg) => {
            lemma_vars_finite(*func);
            lemma_vars_finite(*arg);
        },
    }
}

/// A lambda calculus term.
#[derive(Debug)]
pub enum LambdaTerm {
    /// A variable, represented by its name.
    Variable(String),
    /// A lambda abstraction, represented by its parameter and body. (\x.body)
    LambdaAbstraction(String, Box<LambdaTerm>),
    /// An application, represented by its function and argument. (func arg)
    Application(Box<LambdaTerm>, Box<LambdaTerm>),
}

/// The model of an executable term.
pub open spec fn term_view(t: &LambdaTerm) -> SpecTerm
    decreases t,
{
    match t {
        LambdaTerm::Variable(name) => SpecTerm::Var(name@),
        LambdaTerm::LambdaAbstraction(param, body) => SpecTerm::Abs(
            param@,
            Box::new(term_view(body)),
        ),
        LambdaTerm::Application(func, arg) => SpecTerm::App(
            Box::new(term_view(func)),
            Box::new(term_view(arg)),
        ),
    }
}

impl View for LambdaTerm {
    type V = SpecTerm;

    open spec fn view(&self) -> SpecTerm {
        term_view(self)
    }
}

impl Clone for LambdaTerm {
    fn clone(&self) -> (r: Self)
        ensures
            r@ == self@,
        decreases *self,
    {
        match self {
            LambdaTerm::Variable(name) => LambdaTerm::Variable(name.clone()),
            LambdaTerm::LambdaAbstraction(param, body) => LambdaTerm::LambdaAbstraction(
                param.clone(),
                Box::new((**body).clone()),
            ),
            LambdaTerm::Application(func, arg) => LambdaTerm::Application(
                Box::new((**func).clone()),
                Box::new((**arg).clone()),
            ),
        }
    }
}

impl LambdaTerm {
    /// Structural equality of terms; the fixpoint-detection signal during
    /// reduction.
    pub fn eq_term(&self, other: &LambdaTerm) -> (r: bool)
        ensures
            r == (self@ == other@),
        decreases *self,
    {
        match (self, other) {
            (LambdaTerm::Variable(a), LambdaTerm::Variable(b)) => a.eq(b),
            (
                LambdaTerm::LambdaAbstraction(p1, b1),
                LambdaTerm::LambdaAbstraction(p2, b2),
            ) => p1.eq(p2) && b1.eq_term(b2),
            (LambdaTerm::Application(f1, a1), LambdaTerm::Application(f2, a2)) => f1.eq_term(f2)
                && a1.eq_term(a2),
            _ => false,
        }
    }

    /// The set of names free in this term, without duplicates.
    pub fn free_variables(&self) -> (r: Vec<String>)
        ensures
            names_of(r@) == spec_free_vars(self@),
            distinct_names(r@),
        decreases *self,
    {
        match self {
            LambdaTerm::Variable(v) => {
                let mut r: Vec<String> = Vec::new();
                r.push(v.clone());
                proof {
                    reveal_with_fuel(names_of, 2);
                    assert(r@.drop_last() =~= Seq::<String>::empty());
                    assert(names_of(r@) =~= set![v@]);
                }
                r
            },
            LambdaTerm::LambdaAbstraction(param, body) => {
                let fv = body.free_variables();
                remove_name(&fv, param)
            },
            LambdaTerm::Application(func, arg) => {
                let fv = func.free_variables();
                let av = arg.free_variables();
                union_names(fv, &av)
            },
        }
    }

    /// The set of all names occurring in this term, free or bound, without
    /// duplicates.
    pub fn all_variables(&self) -> (r: Vec<String>)
        ensures
            names_of(r@) == spec_all_vars(self@),
            distinct_names(r@),
        decreases *self,
    {
        match self {
            LambdaTerm::Variable(v) => {
                let mut r: Vec<String> = Vec::new();
                r.push(v.clone());
                proof {
                    reveal_with_fuel(names_of, 2);
                    assert(r@.drop_last() =~= Seq::<String>::empty());
                    assert(names_of(r@) =~= set![v@]);
                }
                r
            },
            LambdaTerm::LambdaAbstraction(param, body) => {
                let mut r = body.all_variables();
                if !contains_name(&r, param) {
                    let ghost prefix = r@;
                    proof {
                        lemma_names_of_props(r@);
                    }
                    r.push(param.clone());
                    proof {
                        assert(r@.drop_last() =~= prefix);
                    }
                } else {
                    proof {
                        assert(names_of(r@) =~= names_of(r@).insert(param@));
                    }
                }
                r
            },
            LambdaTerm::Application(func, arg) => {
                let fv = func.all_variables();
                let av = arg.all_variables();
                union_names(fv, &av)
            },
        }
    }
}

/// The textual form of a term: a variable is its name, an abstraction is
/// `λparam.body`, an application is `(func arg)`.
pub open spec fn spec_render(t: SpecTerm) -> Seq<char>
    decreases t,
{
    match t {
        SpecTerm::Var(v) => v,
        SpecTerm::Abs(param, body) => seq!['λ'] + param + seq!['.'] + spec_render(*body),
        SpecTerm::App(func, arg) => seq!['('] + spec_render(*func) + seq![' '] + spec_render(
            *arg,
        ) + seq![')'],
    }
}

impl LambdaTerm {
    /// The textual form of the term; the sole observable output of
    /// evaluation.
    pub fn render(&self) -> (r: String)
        ensures
            r@ == spec_render(self@),
        decreases *self,
    {
        match self {
            LambdaTerm::Variable(name) => name.clone(),
            LambdaTerm::LambdaAbstraction(param, body) => {
                let mut s: String = String::new();
                s.append("λ");
                s.append(param.as_str());
                s.append(".");
                let body_text = body.render();
                s.append(body_text.as_str());
                proof {
                    reveal_strlit("λ");
                    reveal_strlit(".");
                    assert("λ"@ =~= seq!['λ']);
                    assert("."@ =~= seq!['.']);
                    assert(s@ =~= spec_render(self@));
                }
                s
            },
            LambdaTerm::Application(func, arg) => {
                let mut s: String = String::new();
                s.append("(");
                let func_text = func.render();
                s.append(func_text.as_str());
                s.append(" ");
                let arg_text = arg.render();
                s.append(arg_text.as_str());
                s.append(")");
                proof {
                    reveal_strlit("(");
                    reveal_strlit(" ");
                    reveal_strlit(")");
                    assert("("@ =~= seq!['(']);
                    assert(" "@ =~= seq![' ']);
                    assert(")"@ =~= seq![')']);
                    assert(s@ =~= spec_render(self@));
                }
                s
            },
        }
    }
}

/// The set of name views held in a vector of names.
pub open spec fn names_of(s: Seq<String>) -> Set<Seq<char>>
    decreases s.len(),
{
    if s.len() == 0 {
        Set::empty()
    } else {
        names_of(s.drop_last()).insert(s.last()@)
    }
}

/// No two entries of the vector spell the same name.
pub open spec fn distinct_names(s: Seq<String>) -> bool {
    forall|i: int, j: int| 0 <= i < j < s.len() ==> s[i]@ != s[j]@
}

/// `names_of` is finite, no larger than the vector, and holds exactly the
/// views of the vector's entries.
pub proof fn lemma_names_of_props(s: Seq<String>)
    ensures
        names_of(s).finite(),
        names_of(s).len() <= s.len(),
        forall|v: Seq<char>|
            names_of(s).contains(v) <==> (exists|k: int| 0 <= k < s.len() && s[k]@ == v),
    decreases s.len(),
{
    if s.len() == 0 {
    } else {
        lemma_names_of_props(s.drop_last());
        assert forall|v: Seq<char>| names_of(s).contains(v) implies (exists|k: int|
            0 <= k < s.len() && s[k]@ == v) by {
            if v == s.last()@ {
                assert(s[s.len() - 1]@ == v);
            } else {
                let k = choose|k: int| 0 <= k < s.drop_last().len() && s.drop_last()[k]@ == v;
                assert(s[k]@ == v);
            }
        }
        assert forall|v: Seq<char>| (exists|k: int| 0 <= k < s.len() && s[k]@ == v)
            implies names_of(s).contains(v) by {
            let k = choose|k: int| 0 <= k < s.len() && s[k]@ == v;
            if k == s.len() - 1 {
            } else {
                assert(s.drop_last()[k]@ == v);
            }
        }
    }
}

/// Whether some entry of `vars` spells `name`.
pub fn contains_name(vars: &Vec<String>, name: &String) -> (b: bool)
    ensures
        b == names_of(vars@).contains(name@),
{
    proof {
        lemma_names_of_props(vars@);
    }
    let mut k: usize = 0;
    while k < vars.len()
        invariant
            k <= vars.len(),
            forall|j: int| 0 <= j < k ==> vars@[j]@ != name@,
        decreases vars.len() - k,
    {
        if vars[k].eq(name) {
            proof {
                lemma_names_of_props(vars@);
            }
            return true;
        }
        k += 1;
    }
    proof {
        lemma_names_of_props(vars@);
    }
    false
}

/// A copy of `vars` with every entry spelling `name` left out.
pub fn remove_name(vars: &Vec<String>, name: &String) -> (r: Vec<String>)
    requires
        distinct_names(vars@),
    ensures
        names_of(r@) == names_of(vars@).remove(name@),
        distinct_names(r@),
{
    let mut r: Vec<String> = Vec::new();
    let mut k: usize = 0;
    proof {
        lemma_names_of_props(vars@);
    }
    while k < vars.len()
        invariant
            k <= vars.len(),
            distinct_names(vars@),
            distinct_names(r@),
            names_of(r@) == names_of(vars@.take(k as int)).remove(name@),
            forall|v: Seq<char>|
                names_of(r@).contains(v) ==> (exists|j: int| 0 <= j < k && vars@[j]@ == v),
        decreases vars.len() - k,
    {
        let ghost old_r = r@;
        let ghost taken = vars@.take(k as int);
        if !vars[k].eq(name) {
            proof {
                lemma_names_of_props(r@);
            }
            r.push(vars[k].clone());
            proof {
                assert(r@.drop_last() =~= old_r);
                assert(vars@.take(k as int + 1).drop_last() =~= taken);
                assert(names_of(r@) =~= names_of(vars@.take(k as int + 1)).remove(name@));
                lemma_names_of_props(r@);
            }
        } else {
            proof {
                assert(vars@.take(k as int + 1).drop_last() =~= taken);
                assert(names_of(r@) =~= names_of(vars@.take(k as int + 1)).remove(name@));
            }
        }
        k += 1;
    }
    proof {
        assert(vars@.take(vars@.len() as int) =~= vars@);
    }
    r
}

/// The entries of `a` followed by those entries of `b` not already present.
pub fn union_names(a: Vec<String>, b: &Vec<String>) -> (r: Vec<String>)
    requires
        distinct_names(a@),
        distinct_names(b@),
    ensures
        names_of(r@) == names_of(a@).union(names_of(b@)),
        distinct_names(r@),
{
    let mut r = a;
    let mut k: usize = 0;
    while k < b.len()
        invariant
            k <= b.len(),
            distinct_names(r@),
            names_of(r@) == names_of(a@).union(names_of(b@.take(k as int))),
        decreases b.len() - k,
    {
        let ghost old_r = r@;
        let ghost taken = b@.take(k as int);
        if !contains_name(&r, &b[k]) {
            proof {
                lemma_names_of_props(r@);
            }
            r.push(b[k].clone());
            proof {
                assert(r@.drop_last() =~= old_r);
            }
        }
        proof {
            assert(b@.take(k as int + 1).drop_last() =~= taken);
            assert(names_of(r@) =~= names_of(a@).union(names_of(b@.take(k as int + 1))));
        }
        k += 1;
    }
    proof {
        assert(b@.take(b@.len() as int) =~= b@);
    }
    r
}

} // verus!
