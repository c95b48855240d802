use lambda::LambdaTerm;

#[test]
fn test_free_variables() {
    // Variable: x
    let term = LambdaTerm::Variable("x".to_string());
    let free_vars = term.free_variables();
    assert!(free_vars.iter().any(|v| v == "x"));
    assert_eq!(free_vars.len(), 1);

    // Lambda abstraction: λx.x (no free variables)
    let term = LambdaTerm::LambdaAbstraction(
        "x".to_string(),
        Box::new(LambdaTerm::Variable("x".to_string())),
    );
    let free_vars = term.free_variables();
    assert_eq!(free_vars.len(), 0);

    // Lambda abstraction: λx.y (y is free)
    let term = LambdaTerm::LambdaAbstraction(
        "x".to_string(),
        Box::new(LambdaTerm::Variable("y".to_string())),
    );
    let free_vars = term.free_variables();
    assert!(free_vars.iter().any(|v| v == "y"));
    assert!(!free_vars.iter().any(|v| v == "x"));
    assert_eq!(free_vars.len(), 1);
}

#[test]
fn test_alpha_conversion_simple() {
    // Test case: (λx.x) should substitute without alpha conversion
    let term = LambdaTerm::LambdaAbstraction(
        "x".to_string(),
        Box::new(LambdaTerm::Variable("x".to_string())),
    );
    let replacement = LambdaTerm::Variable("y".to_string());
    let result = term.substitute("z", &replacement);

    // Should remain unchanged since z is not bound in the term
    match result {
        LambdaTerm::LambdaAbstraction(param, _) => {
            assert_eq!(param, "x");
        }
        _ => panic!("Expected lambda abstraction"),
    }
}

#[test]
fn test_alpha_conversion_with_capture() {
    // Test case: λy.(x y) where we substitute x with λz.y
    // This should trigger alpha conversion since y would be captured
    let term = LambdaTerm::LambdaAbstraction(
        "y".to_string(),
        Box::new(LambdaTerm::Application(
            Box::new(LambdaTerm::Variable("x".to_string())),
            Box::new(LambdaTerm::Variable("y".to_string())),
        )),
    );

    let replacement = LambdaTerm::LambdaAbstraction(
        "z".to_string(),
        Box::new(LambdaTerm::Variable("y".to_string())),
    );

    let result = term.substitute("x", &replacement);

    // The parameter should be renamed to avoid capturing the free 'y' in
    // replacement
    match result {
        LambdaTerm::LambdaAbstraction(param, body) => {
            assert_ne!(param, "y"); // Should be renamed
            assert!(param.starts_with("y")); // Should be based on "y"

            // Verify the body has the correct structure
            match body.as_ref() {
                LambdaTerm::Application(func, arg) => {
                    // Function should be the replacement (λz.y)
                    match func.as_ref() {
                        LambdaTerm::LambdaAbstraction(z_param, z_body) => {
                            assert_eq!(z_param, "z");
                            match z_body.as_ref() {
                                LambdaTerm::Variable(var) => assert_eq!(var, "y"),
                                _ => panic!("Expected variable y in replacement body"),
                            }
                        }
                        _ => panic!("Expected lambda abstraction after substitution"),
                    }

                    // Argument should be the renamed parameter
                    match arg.as_ref() {
                        LambdaTerm::Variable(var) => assert_eq!(var, &param),
                        _ => panic!("Expected variable with renamed parameter"),
                    }
                }
                _ => panic!("Expected application in body"),
            }
        }
        _ => panic!("Expected lambda abstraction"),
    }
}

#[test]
fn test_generate_fresh_variable() {
    let used_vars = vec!["x".to_string(), "x1".to_string()];

    let replacement = LambdaTerm::Variable("x2".to_string());

    let fresh = LambdaTerm::generate_fresh_variable("x", &used_vars, &replacement);
    assert_eq!(fresh, "x3");
}
