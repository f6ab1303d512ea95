use fcmc_machines::sam::SClosure;
use fcmc_machines::sam::SLambdaTerm;
use fcmc_machines::sam::SState;

const FUEL: usize = 100000;

#[test]
fn prints_seq_state() {
    let s = SState::state1();
    assert_eq!(s.display_string(), "([<x>.[x]].<f>.f;f;f, [(\"y\", [<x>.[x]].<f>.f;f;f, [])], [([<x>.[x]].<f>.f;f;f, [(\"y\", [<x>.[x]].<f>.f;f;f, [])]), (<x>.<y>, [(\"y\", <x>.[x].[x], [])])], [])");
}

#[test]
fn prints_seq_closure() {
    let c = SClosure::closure1();
    assert_eq!(
        c.display_string(),
        "[<x>.[x]].<f>.f;f;f, [(\"y\", [<x>.[x]].<f>.f;f;f, [])]"
    );
}

#[test]
fn sam_term_into_state() {
    let s = SState::start(SLambdaTerm::term1(), vec![]);
    assert_eq!(s.display_string(), "(<x>.[x].[x], [], [], [])");
}

#[test]
fn sam_detect_end_state() {
    let s = SState::state1();
    let s2 = SState::state2();
    assert_eq!(s.final_(), false);
    assert_eq!(s2.final_(), true);
}

#[test]
fn sam_closure_to_term() {
    let ans = SState::state2().readback();
    assert_eq!(ans, vec![SLambdaTerm::term2(), SLambdaTerm::term3()])
}

#[test]
fn run_term4() {
    let ans = SState::run(SLambdaTerm::term4(), FUEL).unwrap();
    assert_eq!(
        ans,
        vec![
            SLambdaTerm::Variable {
                name: "y".to_string()
            },
            SLambdaTerm::Variable {
                name: "x".to_string()
            },
            SLambdaTerm::Variable {
                name: "y".to_string()
            },
            SLambdaTerm::Variable {
                name: "x".to_string()
            },
        ]
    );
}

#[test]
fn pop_from_empty_stack_is_an_error() {
    let term = SLambdaTerm::new_pop("x", SLambdaTerm::Skip);
    let mut s = SState::start(term.clone(), vec![]);
    let r = s.step();
    assert_eq!(
        r,
        Err("Term cannot be executed. Pop action encountered but execution stack is empty."
            .to_string())
    );
    // The driver surfaces the failure as an empty result.
    assert_eq!(SState::run(term, FUEL), Some(vec![]));
}

#[test]
fn variable_over_empty_environment_is_an_error() {
    let mut s = SState::start(SLambdaTerm::new_variable("x"), vec![]);
    let r = s.step();
    assert_eq!(
        r,
        Err("Term cannot be executed. Variable lookup encountered but environment is empty."
            .to_string())
    );
}

#[test]
fn run_out_of_steps_returns_nothing() {
    // term4 needs more than one transition, so one step of allowance is
    // not enough to finish.
    assert_eq!(SState::run(SLambdaTerm::term4(), 1), None);
}
