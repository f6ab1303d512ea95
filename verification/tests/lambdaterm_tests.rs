use fcmc_machines::lambdaterm::LambdaTerm;

fn sorted(mut v: Vec<String>) -> Vec<String> {
    v.sort();
    v
}

fn expected_names(names: &[&str]) -> Vec<String> {
    let mut v: Vec<String> = names.iter().map(|s| s.to_string()).collect();
    v.sort();
    v
}

#[test]
fn lambdaterm_produces_used_names() {
    let term = LambdaTerm::example5();
    assert_eq!(sorted(term.get_used_names()), expected_names(&["x", "b", "y", "a"]));
}

#[test]
fn lambdaterm_produces_fresh_name() {
    let term = LambdaTerm::example5();
    assert_eq!(term.get_fresh_name(), "c".to_string());
}

#[test]
fn lambdaterm_renames() {
    let mut term = LambdaTerm::example5();
    term.rename(&"b".to_string(), &"z".to_string());
    assert_eq!(term, LambdaTerm::example6());
}

#[test]
fn substitutes() {
    let zero = LambdaTerm::new_num(0);
    let term = LambdaTerm::example5().substitute(&"b".to_string(), &zero);
    assert_eq!(term, *LambdaTerm::example7());
}

#[test]
fn lamdaterm_produces_used_names() {
    let term = LambdaTerm::example5();
    assert_eq!(sorted(term.get_used_names()), expected_names(&["x", "b", "y", "a"]));
}

#[test]
fn lamdaterm_produces_fresh_name() {
    let term = LambdaTerm::example5();
    assert_eq!(term.get_fresh_name(), "c".to_string());
}

#[test]
fn lamdaterm_renames() {
    let mut term = LambdaTerm::example5();
    term.rename(&"b".to_string(), &"z".to_string());
    assert_eq!(term, LambdaTerm::example6());
}

#[test]
fn renaming_an_unused_name_changes_nothing() {
    let term = LambdaTerm::term1();
    let renamed = term.renamed(&"q".to_string(), &"w".to_string());
    assert_eq!(renamed, term);
}

#[test]
fn substitution_moves_free_names() {
    // (\y. x) with x := (\a. b): x disappears, the free b of the
    // replacement appears, and the binder is refreshed without capture.
    let target = LambdaTerm::Lambda {
        arg: "y".to_string(),
        body: Box::new(LambdaTerm::new_var("x")),
    };
    let replacement = LambdaTerm::Lambda {
        arg: "a".to_string(),
        body: Box::new(LambdaTerm::new_var("b")),
    };
    let result = target.substitute(&"x".to_string(), &replacement);
    // avoid = {y, x, a, b}; the first free candidate is c.
    let expected = LambdaTerm::Lambda {
        arg: "c".to_string(),
        body: Box::new(LambdaTerm::Lambda {
            arg: "a".to_string(),
            body: Box::new(LambdaTerm::new_var("b")),
        }),
    };
    assert_eq!(result, expected);
}

#[test]
fn substitution_avoids_capture() {
    // (\z. x) with x := z must not let z be captured by the binder.
    let target = LambdaTerm::Lambda {
        arg: "z".to_string(),
        body: Box::new(LambdaTerm::new_var("x")),
    };
    let result = target.substitute(&"x".to_string(), &LambdaTerm::new_var("z"));
    // avoid = {z, x}; the binder becomes a, the body becomes z (free).
    let expected = LambdaTerm::Lambda {
        arg: "a".to_string(),
        body: Box::new(LambdaTerm::new_var("z")),
    };
    assert_eq!(result, expected);
}

#[test]
fn fresh_name_after_all_letters() {
    let used: Vec<String> = ('a'..='z').map(|c| c.to_string()).collect();
    assert_eq!(LambdaTerm::fresh_from_used(used), "a1".to_string());
}

#[test]
fn fresh_name_skips_suffixed_names() {
    let mut used: Vec<String> = ('a'..='z').map(|c| c.to_string()).collect();
    used.push("a1".to_string());
    assert_eq!(LambdaTerm::fresh_from_used(used), "b1".to_string());
}

#[test]
fn church_encodings_print() {
    assert_eq!(LambdaTerm::new_num(0).display_string(), "\\f. \\x. x");
    assert_eq!(LambdaTerm::new_num(3).display_string(), "\\f. \\x. f (f (f x))");
    assert_eq!(LambdaTerm::new_bool(true).display_string(), "\\a. \\b. a");
    assert_eq!(LambdaTerm::new_bool(false).display_string(), "\\a. \\b. b");
}
