use fcmc_machines::fcmc::FcmcProgramState;
use fcmc_machines::fcmc::FcmcTerm;
use fcmc_machines::fmc::FmcState;
use fcmc_machines::fmc::FmcTerm;
use fcmc_machines::sam::SLambdaTerm;
use fcmc_machines::sam::SState;

const FUEL: usize = 100000;

#[test]
fn prints_term() {
    let term = FcmcTerm::term1();
    let state = FcmcProgramState::start(term.clone(), term.channel_scan());
    assert_eq!(
        state.threads[0].closure.term.display_string(),
        "{[[x]~out]~a}.~a<y>.y"
    );
}

#[test]
fn spawn_thread() {
    let fork_term = FcmcTerm::new_fork(
        FcmcTerm::new_push(
            FcmcTerm::new_variable("x"),
            "~a".to_string(),
            FcmcTerm::Skip,
        ),
        FcmcTerm::new_pop("~a".to_string(), "y", FcmcTerm::Skip),
    );
    let ans = FcmcProgramState::run(fork_term, FUEL).unwrap();
    assert_eq!(ans, vec![]);
}

#[test]
fn fcmc_run_term1() {
    let ans = FcmcProgramState::run(FcmcTerm::term1(), FUEL).unwrap();
    let expected = ("~out".to_string(), FcmcTerm::new_variable("x"));
    assert_eq!(ans, vec![expected]);
}

#[test]
fn fcmc_run_term2() {
    let ans = FcmcProgramState::run(FcmcTerm::term2(), FUEL).unwrap();
    let expected = ("out".to_string(), FcmcTerm::new_variable("z"));
    assert_eq!(ans, vec![expected]);
}

#[test]
fn run_term3() {
    let ans = FcmcProgramState::run(FcmcTerm::term3(), FUEL).unwrap();
    let expected = ("~out".to_string(), FcmcTerm::new_variable("x"));
    assert_eq!(ans, vec![expected]);
}

#[test]
fn deadlocked_program_gives_empty_result() {
    // The main thread waits on a channel nobody sends to.
    let term = FcmcTerm::new_pop("~a".to_string(), "y", FcmcTerm::Skip);
    assert_eq!(FcmcProgramState::run(term, FUEL), Some(vec![]));
}

#[test]
fn pop_from_missing_location_fails_the_machine() {
    // A pop from a stack location that was never pushed to fails the
    // only thread, so the run gives an empty result.
    let term = FcmcTerm::new_pop("a".to_string(), "y", FcmcTerm::Skip);
    assert_eq!(FcmcProgramState::run(term, FUEL), Some(vec![]));
}

#[test]
fn fmc_runs_a_push_pop_sequence() {
    let ans = FmcState::run(FmcTerm::term1(), FUEL).unwrap();
    assert_eq!(ans, vec![]);
}

#[test]
fn fmc_missing_location_is_an_error() {
    let term = FmcTerm::new_pop("a".to_string(), "x", FmcTerm::Skip);
    let mut s = FmcState::start(term.clone());
    assert_eq!(s.step(), Err("Specified location doesn't exist".to_string()));
    assert_eq!(FmcState::run(term, FUEL), Some(vec![]));
}

#[test]
fn fmc_keeps_a_pushed_value() {
    // [z]out leaves z on the location out.
    let term = FmcTerm::new_push(FmcTerm::new_variable("z"), "out".to_string(), FmcTerm::Skip);
    let ans = FmcState::run(term, FUEL).unwrap();
    assert_eq!(ans, vec![("out".to_string(), FmcTerm::new_variable("z"))]);
}

#[test]
fn single_threaded_fcmc_matches_the_sequential_machine() {
    // term2 has no fork and no channel location: the concurrent machine
    // runs it in its single main thread and agrees with the sequential
    // location machine on the same program.
    let concurrent = FcmcProgramState::run(FcmcTerm::term2(), FUEL).unwrap();
    let fmc_term2 = FmcTerm::new_push(
        FmcTerm::new_pop("a".to_string(), "x", FmcTerm::new_variable("x")),
        "b".to_string(),
        FmcTerm::new_push(
            FmcTerm::new_push(FmcTerm::new_variable("z"), "out".to_string(), FmcTerm::Skip),
            "a".to_string(),
            FmcTerm::new_pop("b".to_string(), "f", FmcTerm::new_variable("f")),
        ),
    );
    let sequential = FmcState::run(fmc_term2, FUEL).unwrap();
    let concurrent_shown: Vec<(String, String)> = concurrent
        .iter()
        .map(|p| (p.0.clone(), p.1.display_string()))
        .collect();
    assert_eq!(concurrent_shown, vec![("out".to_string(), "z".to_string())]);
    assert_eq!(
        sequential,
        vec![("out".to_string(), FmcTerm::new_variable("z"))]
    );
}

#[test]
fn prints_program_state() {
    let term = FcmcTerm::term1();
    let state = FcmcProgramState::start(term.clone(), term.channel_scan());
    assert_eq!(
        state.display_string(),
        "({[[x]~out]~a}.~a<y>.y, [], ~a[], ~out[], [])"
    );
}

#[test]
fn prints_fmc_state() {
    let s = FmcState::start(FmcTerm::term1());
    assert_eq!(s.display_string(), "([x]a;a<y>, [], [], [])");
}

#[test]
fn one_location_fmc_matches_sam_after_erasure() {
    // [[y]a.[x]a]a.a<z>.z.z on the one location `a` is [[y].[x]].<z>.z.z
    // with the location tags erased.
    let loc = || "a".to_string();
    let fmc_term = FmcTerm::new_push(
        FmcTerm::new_push(
            FmcTerm::new_variable("y"),
            loc(),
            FmcTerm::new_push(FmcTerm::new_variable("x"), loc(), FmcTerm::Skip),
        ),
        loc(),
        FmcTerm::new_pop(
            loc(),
            "z",
            FmcTerm::new_seq(
                FmcTerm::new_variable("z"),
                FmcTerm::new_seq(FmcTerm::new_variable("z"), FmcTerm::Skip),
            ),
        ),
    );
    let located = FmcState::run(fmc_term, 100000).unwrap();
    let erased = SState::run(SLambdaTerm::term4(), 100000).unwrap();
    let located_shown: Vec<String> = located.iter().map(|p| p.1.display_string()).collect();
    let erased_shown: Vec<String> = erased.iter().map(|t| t.display_string()).collect();
    assert_eq!(located_shown, erased_shown);
    assert!(located.iter().all(|p| p.0 == "a"));
}
