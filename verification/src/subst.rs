//! Capture-avoiding substitution: replacing every free occurrence of a
//! variable by a replacement term, alpha-renaming binders where the
//! replacement's free variables would otherwise be captured.

use vstd::prelude::*;
use crate::fresh::{lemma_spec_fresh, spec_fresh};
use crate::term::{
    contains_name, lemma_vars_finite, names_of, spec_all_vars, spec_free_vars, term_size,
    LambdaTerm, SpecTerm,
};

verus! {

/// Renaming of free occurrences: every occurrence of `a` not under a binder
/// for `a` becomes `b`.
pub open spec fn spec_rename(t: SpecTerm, a: Seq<char>, b: Seq<char>) -> SpecTerm
    decreases t,
{
    match t {
        SpecTerm::Var(v) => if v == a {
            SpecTerm::Var(b)
        } else {
            SpecTerm::Var(v)
        },
        SpecTerm::Abs(p, body) => if p == a {
            SpecTerm::Abs(p, body)
        } else {
            SpecTerm::Abs(p, Box::new(spec_rename(*body, a, b)))
        },
        SpecTerm::App(func, arg) => SpecTerm::App(
            Box::new(spec_rename(*func, a, b)),
            Box::new(spec_rename(*arg, a, b)),
        ),
    }
}

/// Renaming keeps the shape, hence the size, of a term.
pub proof fn lemma_rename_size(t: SpecTerm, a: Seq<char>, b: Seq<char>)
    ensures
        term_size(spec_rename(t, a, b)) == term_size(t),
    decreases t,
{
    match t {
        SpecTerm::Var(_) => {},
        SpecTerm::Abs(p, body) => {
            if p != a {
                lemma_rename_size(*body, a, b);
            }
        },
        SpecTerm::App(func, arg) => {
            lemma_rename_size(*func, a, b);
            lemma_rename_size(*arg, a, b);
        },
    }
}

/// The names an abstraction's renaming must avoid: everything visible in the
/// abstraction itself and everything in the replacement.
pub open spec fn spec_subst_forbidden(p: Seq<char>, body: SpecTerm, r: SpecTerm) -> Set<
    Seq<char>,
> {
    spec_all_vars(body).insert(p).union(spec_all_vars(r))
}

/// The fresh parameter chosen when substituting into `Abs(p, body)` would
/// capture a free variable of `r`.
pub open spec fn spec_subst_fresh(p: Seq<char>, body: SpecTerm, r: SpecTerm) -> Seq<char> {
    spec_fresh(p, spec_subst_forbidden(p, body, r))
}

/// The chosen fresh parameter avoids the abstraction's variables, the old
/// parameter, and the replacement's variables.
pub proof fn lemma_subst_fresh_props(p: Seq<char>, body: SpecTerm, r: SpecTerm)
    ensures
        !spec_all_vars(body).contains(spec_subst_fresh(p, body, r)),
        spec_subst_fresh(p, body, r) != p,
        !spec_all_vars(r).contains(spec_subst_fresh(p, body, r)),
{
    lemma_vars_finite(body);
    lemma_vars_finite(r);
    lemma_spec_fresh(p, spec_subst_forbidden(p, body, r));
    assert(spec_subst_forbidden(p, body, r).contains(p));
}

/// Capture-avoiding substitution of `r` for the free occurrences of `x`:
/// a shadowing binder stops the substitution, and a binder that would capture
/// a free variable of `r` is first renamed to a fresh name.
pub open spec fn spec_subst(t: SpecTerm, x: Seq<char>, r: SpecTerm) -> SpecTerm
    decreases term_size(t),
    via spec_subst_decreases
{
    match t {
        SpecTerm::Var(v) => if v == x {
            r
        } else {
            SpecTerm::Var(v)
        },
        SpecTerm::Abs(p, body) => if p == x {
            SpecTerm::Abs(p, body)
        } else if spec_free_vars(r).contains(p) {
            let f = spec_subst_fresh(p, *body, r);
            SpecTerm::Abs(f, Box::new(spec_subst(spec_rename(*body, p, f), x, r)))
        } else {
            SpecTerm::Abs(p, Box::new(spec_subst(*body, x, r)))
        },
        SpecTerm::App(func, arg) => SpecTerm::App(
            Box::new(spec_subst(*func, x, r)),
            Box::new(spec_subst(*arg, x, r)),
        ),
    }
}

#[via_fn]
proof fn spec_subst_decreases(t: SpecTerm, x: Seq<char>, r: SpecTerm) {
    match t {
        SpecTerm::Abs(p, body) => {
            if p != x && spec_free_vars(r).contains(p) {
                lemma_rename_size(*body, p, spec_subst_fresh(p, *body, r));
            }
        },
        _ => {},
    }
}

/// Substitution never descends into a scope that already rebinds the target
/// variable: on `Abs(x, body)` it is the identity, whatever `r` is.
pub proof fn lemma_shadowing_noop(x: Seq<char>, body: SpecTerm, r: SpecTerm)
    ensures
        spec_subst(SpecTerm::Abs(x, Box::new(body)), x, r) == SpecTerm::Abs(x, Box::new(body)),
{
}

/// How renaming to a name not occurring in the term changes the free names:
/// the renamed variable's free occurrences now spell the new name, everything
/// else is untouched.
pub proof fn lemma_rename_free_vars(t: SpecTerm, a: Seq<char>, b: Seq<char>)
    requires
        !spec_all_vars(t).contains(b),
    ensures
        spec_free_vars(spec_rename(t, a, b)) == if spec_free_vars(t).contains(a) {
            spec_free_vars(t).remove(a).insert(b)
        } else {
            spec_free_vars(t)
        },
    decreases t,
{
    lemma_vars_finite(t);
    match t {
        SpecTerm::Var(v) => {
            if v == a {
                assert(spec_free_vars(spec_rename(t, a, b)) =~= spec_free_vars(t).remove(
                    a,
                ).insert(b));
            }
        },
        SpecTerm::Abs(p, body) => {
            assert(spec_all_vars(t) == spec_all_vars(*body).insert(p));
            assert(!spec_all_vars(*body).contains(b));
            assert(p != b);
            if p == a {
                assert(spec_rename(t, a, b) == t);
                assert(!spec_free_vars(t).contains(a));
            } else {
                lemma_rename_free_vars(*body, a, b);
                lemma_vars_finite(*body);
                if spec_free_vars(*body).contains(a) {
                    assert(spec_free_vars(t).contains(a));
                    assert(spec_free_vars(spec_rename(t, a, b)) =~= spec_free_vars(t).remove(
                        a,
                    ).insert(b));
                } else {
                    assert(!spec_free_vars(t).contains(a));
                    assert(spec_free_vars(spec_rename(t, a, b)) =~= spec_free_vars(t));
                }
            }
        },
        SpecTerm::App(func, arg) => {
            lemma_rename_free_vars(*func, a, b);
            lemma_rename_free_vars(*arg, a, b);
            lemma_vars_finite(*func);
            lemma_vars_finite(*arg);
            if spec_free_vars(t).contains(a) {
                assert(spec_free_vars(spec_rename(t, a, b)) =~= spec_free_vars(t).remove(
                    a,
                ).insert(b));
            } else {
                assert(spec_free_vars(spec_rename(t, a, b)) =~= spec_free_vars(t));
            }
        },
    }
}

/// Substituting a bare variable that occurs nowhere in the term is exactly a
/// renaming.
pub proof fn lemma_subst_var_is_rename(t: SpecTerm, a: Seq<char>, b: Seq<char>)
    requires
        !spec_all_vars(t).contains(b),
    ensures
        spec_subst(t, a, SpecTerm::Var(b)) == spec_rename(t, a, b),
    decreases t,
{
    match t {
        SpecTerm::Var(_) => {},
        SpecTerm::Abs(p, body) => {
            assert(spec_all_vars(t).contains(p));
            assert(p != b);
            if p != a {
                assert(spec_free_vars(SpecTerm::Var(b)) =~= set![b]);
                assert(!spec_free_vars(SpecTerm::Var(b)).contains(p));
                lemma_subst_var_is_rename(*body, a, b);
            }
        },
        SpecTerm::App(func, arg) => {
            lemma_subst_var_is_rename(*func, a, b);
            lemma_subst_var_is_rename(*arg, a, b);
        },
    }
}

/// Alpha-safety of substitution. When `x` is free in `t`, the free names of
/// the result are exactly those of `t` less `x`, together with every free
/// name of `r`: no free variable of `r` is captured by a binder of the
/// result, and no free variable of `t` is lost. When `x` is not free, the
/// free names of `t` all survive and nothing beyond those of `r` can appear.
pub proof fn lemma_substitute_free_vars(t: SpecTerm, x: Seq<char>, r: SpecTerm)
    ensures
        spec_free_vars(t).contains(x) ==> spec_free_vars(spec_subst(t, x, r))
            == spec_free_vars(t).remove(x).union(spec_free_vars(r)),
        !spec_free_vars(t).contains(x) ==> spec_free_vars(t).subset_of(
            spec_free_vars(spec_subst(t, x, r)),
        ) && spec_free_vars(spec_subst(t, x, r)).subset_of(
            spec_free_vars(t).union(spec_free_vars(r)),
        ),
    decreases term_size(t),
{
    match t {
        SpecTerm::Var(v) => {
            if v == x {
                assert(spec_free_vars(spec_subst(t, x, r)) =~= spec_free_vars(t).remove(
                    x,
                ).union(spec_free_vars(r)));
            }
        },
        SpecTerm::Abs(p, body) => {
            let fb = spec_free_vars(*body);
            lemma_vars_finite(*body);
            lemma_vars_finite(r);
            if p == x {
                assert(!spec_free_vars(t).contains(x));
            } else if spec_free_vars(r).contains(p) {
                let f = spec_subst_fresh(p, *body, r);
                lemma_subst_fresh_props(p, *body, r);
                let renamed = spec_rename(*body, p, f);
                lemma_rename_free_vars(*body, p, f);
                lemma_rename_size(*body, p, f);
                lemma_substitute_free_vars(renamed, x, r);
                assert(spec_subst(t, x, r) == SpecTerm::Abs(
                    f,
                    Box::new(spec_subst(renamed, x, r)),
                ));
                if spec_free_vars(t).contains(x) {
                    assert(fb.contains(x) && x != p);
                    assert(x != f);
                    assert(spec_free_vars(renamed).contains(x));
                    assert(spec_free_vars(spec_subst(renamed, x, r)) == spec_free_vars(
                        renamed,
                    ).remove(x).union(spec_free_vars(r)));
                    assert(spec_free_vars(spec_subst(t, x, r)) =~= spec_free_vars(t).remove(
                        x,
                    ).union(spec_free_vars(r)));
                } else {
                    assert(!fb.contains(x) || x == p);
                    if spec_free_vars(renamed).contains(x) {
                        assert(x == f);
                        assert(spec_free_vars(spec_subst(renamed, x, r)) == spec_free_vars(
                            renamed,
                        ).remove(x).union(spec_free_vars(r)));
                        assert(spec_free_vars(t).subset_of(spec_free_vars(spec_subst(t, x, r))));
                        assert(spec_free_vars(spec_subst(t, x, r)).subset_of(
                            spec_free_vars(t).union(spec_free_vars(r)),
                        ));
                    } else {
                        assert(spec_free_vars(t).subset_of(spec_free_vars(spec_subst(t, x, r))));
                        assert(spec_free_vars(spec_subst(t, x, r)).subset_of(
                            spec_free_vars(t).union(spec_free_vars(r)),
                        ));
                    }
                }
            } else {
                lemma_substitute_free_vars(*body, x, r);
                assert(spec_subst(t, x, r) == SpecTerm::Abs(
                    p,
                    Box::new(spec_subst(*body, x, r)),
                ));
                if spec_free_vars(t).contains(x) {
                    assert(spec_free_vars(spec_subst(t, x, r)) =~= spec_free_vars(t).remove(
                        x,
                    ).union(spec_free_vars(r)));
                } else {
                    assert(spec_free_vars(t).subset_of(spec_free_vars(spec_subst(t, x, r))));
                    assert(spec_free_vars(spec_subst(t, x, r)).subset_of(
                        spec_free_vars(t).union(spec_free_vars(r)),
                    ));
                }
            }
        },
        SpecTerm::App(func, arg) => {
            lemma_substitute_free_vars(*func, x, r);
            lemma_substitute_free_vars(*arg, x, r);
            if spec_free_vars(t).contains(x) {
                assert(spec_free_vars(spec_subst(t, x, r)) =~= spec_free_vars(t).remove(
                    x,
                ).union(spec_free_vars(r)));
            } else {
                assert(spec_free_vars(t).subset_of(spec_free_vars(spec_subst(t, x, r))));
                assert(spec_free_vars(spec_subst(t, x, r)).subset_of(
                    spec_free_vars(t).union(spec_free_vars(r)),
                ));
            }
        },
    }
}

impl LambdaTerm {
    /// Substitute all occurrences of a variable with a given lambda term.
    /// Implements alpha conversion to avoid variable capture.
    pub fn substitute(&self, var: &str, replacement: &LambdaTerm) -> (res: Self)
        ensures
            res@ == spec_subst(self@, var@, replacement@),
        decreases term_size(self@),
    {
        let var_name: String = var.to_owned();
        match self {
            LambdaTerm::Variable(v) => {
                if v.eq(&var_name) {
                    replacement.clone()
                } else {
                    LambdaTerm::Variable(v.clone())
                }
            },
            LambdaTerm::LambdaAbstraction(param, body) => {
                if param.eq(&var_name) {
                    LambdaTerm::LambdaAbstraction(param.clone(), Box::new((**body).clone()))
                } else {
                    let repl_free = replacement.free_variables();
                    if contains_name(&repl_free, param) {
                        let all_vars = self.all_variables();
                        let fresh_param = LambdaTerm::generate_fresh_variable(
                            param.as_str(),
                            &all_vars,
                            replacement,
                        );
                        proof {
                            assert(names_of(all_vars@).union(spec_all_vars(replacement@))
                                =~= spec_subst_forbidden(param@, (**body)@, replacement@));
                            lemma_subst_var_is_rename((**body)@, param@, fresh_param@);
                            lemma_rename_size((**body)@, param@, fresh_param@);
                        }
                        let renamed_body = body.substitute(
                            param.as_str(),
                            &LambdaTerm::Variable(fresh_param.clone()),
                        );
                        let substituted = renamed_body.substitute(var, replacement);
                        LambdaTerm::LambdaAbstraction(fresh_param, Box::new(substituted))
                    } else {
                        LambdaTerm::LambdaAbstraction(
                            param.clone(),
                            Box::new(body.substitute(var, replacement)),
                        )
                    }
                }
            },
            LambdaTerm::Application(func, arg) => LambdaTerm::Application(
                Box::new(func.substitute(var, replacement)),
                Box::new(arg.substitute(var, replacement)),
            ),
        }
    }
}

} // verus!
