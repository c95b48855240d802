//! The reduction engine: the single normal-order reduction pass, the loop
//! driving a term to its normal form, and the instructions the driver feeds
//! to the engine.

use vstd::prelude::*;
use crate::bindings::Bindings;
use crate::subst::spec_subst;
use crate::term::{spec_render, LambdaTerm, SpecTerm};

verus! {

/// One normal-order reduction pass: subterms are reduced first, with free
/// variables resolved against the environment, and an application whose
/// function position reduced to an abstraction is then contracted by
/// capture-avoiding substitution.
pub open spec fn spec_step(t: SpecTerm, env: Map<Seq<char>, SpecTerm>) -> SpecTerm
    decreases t,
{
    match t {
        SpecTerm::Var(v) => if env.contains_key(v) {
            env[v]
        } else {
            SpecTerm::Var(v)
        },
        SpecTerm::Abs(param, body) => SpecTerm::Abs(param, Box::new(spec_step(*body, env))),
        SpecTerm::App(func, arg) => {
            let func_reduced = spec_step(*func, env);
            let arg_reduced = spec_step(*arg, env);
            match func_reduced {
                SpecTerm::Abs(param, body) => spec_subst(*body, param, arg_reduced),
                _ => SpecTerm::App(Box::new(func_reduced), Box::new(arg_reduced)),
            }
        },
    }
}

/// `k` reduction passes in a row.
pub open spec fn spec_step_n(t: SpecTerm, env: Map<Seq<char>, SpecTerm>, k: nat) -> SpecTerm
    decreases k,
{
    if k == 0 {
        t
    } else {
        spec_step(spec_step_n(t, env, (k - 1) as nat), env)
    }
}

/// `r` is the normal form of `t` under `env`: it is reached from `t` by some
/// number of passes, and a further pass leaves it unchanged.
pub open spec fn normalizes_to(
    t: SpecTerm,
    env: Map<Seq<char>, SpecTerm>,
    r: SpecTerm,
) -> bool {
    &&& spec_step(r, env) == r
    &&& exists|k: nat| spec_step_n(t, env, k) == r
}

/// A fixpoint of the reduction pass stays fixed under any number of passes.
pub proof fn lemma_step_n_fixpoint(n: SpecTerm, env: Map<Seq<char>, SpecTerm>, k: nat)
    requires
        spec_step(n, env) == n,
    ensures
        spec_step_n(n, env, k) == n,
    decreases k,
{
    if k > 0 {
        lemma_step_n_fixpoint(n, env, (k - 1) as nat);
    }
}

/// Passes compose: `j + k` passes are `j` passes followed by `k` more.
pub proof fn lemma_step_n_add(t: SpecTerm, env: Map<Seq<char>, SpecTerm>, j: nat, k: nat)
    ensures
        spec_step_n(t, env, j + k) == spec_step_n(spec_step_n(t, env, j), env, k),
    decreases k,
{
    if k > 0 {
        lemma_step_n_add(t, env, j, (k - 1) as nat);
        assert(j + k - 1 == (j + k - 1) as nat);
    }
}

/// The reduction pass is a function, so a term has at most one normal form:
/// any two results of normalization from the same start agree.
pub proof fn lemma_normal_form_unique(
    t: SpecTerm,
    env: Map<Seq<char>, SpecTerm>,
    r1: SpecTerm,
    r2: SpecTerm,
)
    requires
        normalizes_to(t, env, r1),
        normalizes_to(t, env, r2),
    ensures
        r1 == r2,
{
    let k1 = choose|k: nat| spec_step_n(t, env, k) == r1;
    let k2 = choose|k: nat| spec_step_n(t, env, k) == r2;
    if k1 <= k2 {
        lemma_step_n_add(t, env, k1, (k2 - k1) as nat);
        lemma_step_n_fixpoint(r1, env, (k2 - k1) as nat);
    } else {
        lemma_step_n_add(t, env, k2, (k1 - k2) as nat);
        lemma_step_n_fixpoint(r2, env, (k1 - k2) as nat);
    }
}

/// Normalization is idempotent: normalizing a normal form gives it back
/// unchanged.
pub proof fn lemma_normalize_idempotent(
    t: SpecTerm,
    env: Map<Seq<char>, SpecTerm>,
    r: SpecTerm,
    r2: SpecTerm,
)
    requires
        normalizes_to(t, env, r),
        normalizes_to(r, env, r2),
    ensures
        r2 == r,
{
    assert(spec_step_n(r, env, 0) == r);
    lemma_normal_form_unique(r, env, r, r2);
}

impl LambdaTerm {
    /// Apply a single step of beta reduction to the lambda term.
    pub fn apply_beta_reduction(&self, save_lambda_term: &Bindings) -> (r: Self)
        ensures
            r@ == spec_step(self@, save_lambda_term@),
        decreases *self,
    {
        match self {
            LambdaTerm::Variable(v) => {
                match save_lambda_term.lookup(v) {
                    Some(lambda) => lambda.clone(),
                    None => LambdaTerm::Variable(v.clone()),
                }
            },
            LambdaTerm::LambdaAbstraction(param, body) => LambdaTerm::LambdaAbstraction(
                param.clone(),
                Box::new(body.apply_beta_reduction(save_lambda_term)),
            ),
            LambdaTerm::Application(func, arg) => {
                let func_reduced = func.apply_beta_reduction(save_lambda_term);
                let arg_reduced = arg.apply_beta_reduction(save_lambda_term);
                match func_reduced {
                    LambdaTerm::LambdaAbstraction(param, body) => {
                        body.substitute(param.as_str(), &arg_reduced)
                    },
                    _ => LambdaTerm::Application(
                        Box::new(func_reduced),
                        Box::new(arg_reduced),
                    ),
                }
            },
        }
    }

    /// Perform beta reduction on the lambda term until no more reductions can
    /// be made: the result is a fixpoint of the reduction pass, reached from
    /// the input. The term must have a normal form: on a term without one the
    /// reduction loop would never come to rest.
    #[verifier::loop_isolation(false)]
    pub fn beta_reduction(self, save_lambda_term: &Bindings) -> (r: Self)
        requires
            exists|n: SpecTerm| normalizes_to(self@, save_lambda_term@, n),
        ensures
            normalizes_to(self@, save_lambda_term@, r@),
    {
        let ghost t0 = self@;
        let ghost env = save_lambda_term@;
        let ghost nf = choose|n: SpecTerm| normalizes_to(t0, env, n);
        let ghost total: nat = choose|k: nat| spec_step_n(t0, env, k) == nf;
        let ghost mut steps: nat = 0;
        let mut current = self;
        loop
            invariant
                current@ == spec_step_n(t0, env, steps),
                steps <= total,
                spec_step_n(t0, env, total) == nf,
                spec_step(nf, env) == nf,
                env == save_lambda_term@,
            decreases total - steps,
        {
            let reduced = current.apply_beta_reduction(save_lambda_term);
            if current.eq_term(&reduced) {
                proof {
                    assert(spec_step_n(t0, save_lambda_term@, steps) == current@);
                }
                return current;
            }
            proof {
                if steps >= total {
                    lemma_step_n_add(t0, env, total, (steps - total) as nat);
                    lemma_step_n_fixpoint(nf, env, (steps - total) as nat);
                    assert(current@ == nf);
                    assert(false);
                }
                steps = steps + 1;
            }
            current = reduced;
        }
    }
}

/// An instruction in the lambda calculus language.
#[derive(Debug)]
pub enum Instruction {
    /// Bind a name to a lambda term.
    Let {
        /// The name to bind.
        name: String,
        /// The lambda term to bind to the name.
        lambda_term: LambdaTerm,
    },
    /// Evaluate the lambda term by beta reduction and report its rendering.
    Eval(LambdaTerm),
}

/// The model of an instruction.
pub enum SpecInstruction {
    /// Bind a name to a term.
    Let(Seq<char>, SpecTerm),
    /// Evaluate a term.
    Eval(SpecTerm),
}

impl View for Instruction {
    type V = SpecInstruction;

    open spec fn view(&self) -> SpecInstruction {
        match self {
            Instruction::Let { name, lambda_term } => SpecInstruction::Let(
                name@,
                lambda_term@,
            ),
            Instruction::Eval(lambda_term) => SpecInstruction::Eval(lambda_term@),
        }
    }
}

impl Instruction {
    /// Execute the instruction against the environment. A `Let` records its
    /// binding and yields nothing; an `Eval` reduces its term to normal form
    /// against a snapshot of the current environment and yields the normal
    /// form's text.
    pub fn process(self, env: &mut Bindings) -> (r: Option<String>)
        requires
            match self@ {
                SpecInstruction::Let(_, _) => true,
                SpecInstruction::Eval(lambda_term) => exists|n: SpecTerm|
                    normalizes_to(lambda_term, old(env)@, n),
            },
        ensures
            match self@ {
                SpecInstruction::Let(name, lambda_term) => {
                    &&& final(env)@ == old(env)@.insert(name, lambda_term)
                    &&& r is None
                },
                SpecInstruction::Eval(lambda_term) => {
                    &&& final(env)@ == old(env)@
                    &&& match r {
                        Some(text) => exists|n: SpecTerm|
                            normalizes_to(lambda_term, old(env)@, n) && text@ == spec_render(n),
                        None => false,
                    }
                },
            },
    {
        match self {
            Instruction::Let { name, lambda_term } => {
                env.define(name, lambda_term);
                None
            },
            Instruction::Eval(lambda_term) => {
                let ghost e = env@;
                let normal = lambda_term.beta_reduction(env);
                let text = normal.render();
                proof {
                    assert(normalizes_to(lambda_term@, e, normal@) && text@ == spec_render(
                        normal@,
                    ));
                }
                Some(text)
            },
        }
    }
}

} // verus!
