use lambda::{Bindings, Instruction, LambdaTerm};

fn var(name: &str) -> LambdaTerm {
    LambdaTerm::Variable(name.to_string())
}

fn abs(param: &str, body: LambdaTerm) -> LambdaTerm {
    LambdaTerm::LambdaAbstraction(param.to_string(), Box::new(body))
}

fn app(func: LambdaTerm, arg: LambdaTerm) -> LambdaTerm {
    LambdaTerm::Application(Box::new(func), Box::new(arg))
}

#[test]
fn eval_identity_application() {
    // eval (\x.x a)  =>  a
    let mut env = Bindings::new();
    let term = app(abs("x", var("x")), var("a"));
    let result = Instruction::Eval(term).process(&mut env);
    assert_eq!(result, Some("a".to_string()));
}

#[test]
fn let_then_eval() {
    // let id = \x.x  then  eval (id b)  =>  b
    let mut env = Bindings::new();
    let bind = Instruction::Let {
        name: "id".to_string(),
        lambda_term: abs("x", var("x")),
    };
    assert_eq!(bind.process(&mut env), None);
    let term = app(var("id"), var("b"));
    let result = Instruction::Eval(term).process(&mut env);
    assert_eq!(result, Some("b".to_string()));
}

#[test]
fn capture_substitution_renames_binder() {
    // Substituting x -> \z.y into \y.(x y) must rename the binder, yielding
    // \y1.((\z.y) y1), never \y.((\z.y) y).
    let term = abs("y", app(var("x"), var("y")));
    let replacement = abs("z", var("y"));
    let result = term.substitute("x", &replacement);
    assert!(result.eq_term(&abs("y1", app(abs("z", var("y")), var("y1")))));
    assert_eq!(result.render(), "λy1.(λz.y y1)");
}

#[test]
fn divergent_self_application_steps_to_itself() {
    // (\x.(x x)) (\x.(x x)) reproduces itself under one reduction pass.
    let omega_half = abs("x", app(var("x"), var("x")));
    let omega = app(omega_half.clone(), omega_half);
    let env = Bindings::new();
    let stepped = omega.apply_beta_reduction(&env);
    assert!(stepped.eq_term(&omega));
}

#[test]
fn normalization_is_idempotent_on_results() {
    // Normalizing a normal form hands it back unchanged.
    let mut env = Bindings::new();
    let term = app(abs("x", var("x")), abs("y", var("y")));
    let first = Instruction::Eval(term.clone()).process(&mut env);
    let normal = term.apply_beta_reduction(&Bindings::new());
    let second = Instruction::Eval(normal).process(&mut env);
    assert_eq!(first, Some("λy.y".to_string()));
    assert_eq!(first, second);
}

#[test]
fn last_definition_wins() {
    let mut env = Bindings::new();
    Instruction::Let {
        name: "v".to_string(),
        lambda_term: var("first"),
    }
    .process(&mut env);
    Instruction::Let {
        name: "v".to_string(),
        lambda_term: var("second"),
    }
    .process(&mut env);
    let result = Instruction::Eval(var("v")).process(&mut env);
    assert_eq!(result, Some("second".to_string()));
}

#[test]
fn render_forms() {
    assert_eq!(var("x").render(), "x");
    assert_eq!(abs("x", var("x")).render(), "λx.x");
    assert_eq!(app(var("a"), var("b")).render(), "(a b)");
    assert_eq!(
        abs("f", app(var("f"), abs("y", var("y")))).render(),
        "λf.(f λy.y)"
    );
}

#[test]
fn free_variables_of_application() {
    let term = app(abs("x", app(var("x"), var("y"))), var("z"));
    let free_vars = term.free_variables();
    assert_eq!(free_vars.len(), 2);
    assert!(free_vars.iter().any(|v| v == "y"));
    assert!(free_vars.iter().any(|v| v == "z"));
}

#[test]
fn all_variables_include_binders() {
    let term = abs("x", var("y"));
    let vars = term.all_variables();
    assert_eq!(vars.len(), 2);
    assert!(vars.iter().any(|v| v == "x"));
    assert!(vars.iter().any(|v| v == "y"));
}

#[test]
fn shadowing_substitution_is_noop() {
    // substitute(\x.x, x, anything) leaves the abstraction untouched.
    let term = abs("x", var("x"));
    let replacement = var("q");
    let result = term.substitute("x", &replacement);
    assert!(result.eq_term(&abs("x", var("x"))));
}

#[test]
fn fresh_variable_is_deterministic() {
    let used = vec!["n".to_string(), "n1".to_string(), "n2".to_string()];
    let replacement = var("other");
    let first = LambdaTerm::generate_fresh_variable("n", &used, &replacement);
    let second = LambdaTerm::generate_fresh_variable("n", &used, &replacement);
    assert_eq!(first, "n3");
    assert_eq!(first, second);
    assert!(!used.iter().any(|v| *v == first));
}

#[test]
fn fresh_variable_avoids_replacement_variables() {
    let used = vec!["k".to_string()];
    let replacement = abs("k1", var("k2"));
    let fresh = LambdaTerm::generate_fresh_variable("k", &used, &replacement);
    assert_eq!(fresh, "k3");
}
