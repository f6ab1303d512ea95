use fcmc_machines::kam::Closure;
use fcmc_machines::kam::State;
use fcmc_machines::lambdaterm::LambdaTerm;
use fcmc_machines::pam::PState;

const FUEL: usize = 100000;

#[test]
fn prints() {
    let state = PState::state1();
    assert_eq!(
        state.display_string(),
        "(\\x. \\y. x, [\\a. \\b. a, \\a. \\b. b, *])"
    );
}

#[test]
fn pam_term_into_state() {
    let created = PState::p_start(LambdaTerm::term1());
    assert_eq!(
        created.display_string(),
        "(((\\x. \\y. x) (\\a. \\b. a)) (\\a. \\b. b),[*])"
    );
}

#[test]
fn pam_detect_end_state() {
    assert_eq!(PState::state1().p_final(), false);
    assert_eq!(PState::p_start(LambdaTerm::term1()).p_final(), false);
    assert_eq!(PState::state2().p_final(), true);
    assert_eq!(PState::state3().p_final(), true);
}

#[test]
fn run_pam() {
    let ans = PState::p_run(LambdaTerm::term1(), FUEL).unwrap();
    assert_eq!(PState::p_start(ans.clone()).p_final(), true);
    assert_eq!(
        ans,
        LambdaTerm::Lambda {
            arg: "d".to_string(),
            body: Box::new(LambdaTerm::Lambda {
                arg: "e".to_string(),
                body: Box::new(LambdaTerm::new_var("d"))
            })
        }
    );
}

#[test]
fn stepping_a_final_state_changes_nothing() {
    let mut s = PState::state2();
    s.p_step();
    assert_eq!(s, PState::state2());
}

#[test]
fn prints_state() {
    let s = State::start(LambdaTerm::term1());
    assert_eq!(
        s.display_string(),
        "(((\\x. \\y. x) (\\a. \\b. a)) (\\a. \\b. b), [], [])"
    );
}

#[test]
fn prints_closure() {
    let c = Closure::new(
        LambdaTerm::Lambda {
            arg: "b".to_string(),
            body: Box::new(LambdaTerm::new_var("a")),
        },
        vec![
            (
                "b".to_string(),
                Closure::new(
                    LambdaTerm::Lambda {
                        arg: "z".to_string(),
                        body: Box::new(LambdaTerm::new_var("z")),
                    },
                    vec![],
                ),
            ),
            (
                "a".to_string(),
                Closure::new(
                    LambdaTerm::new_var("b"),
                    vec![(
                        "x".to_string(),
                        Closure::new(
                            LambdaTerm::Lambda {
                                arg: "a".to_string(),
                                body: Box::new(LambdaTerm::Lambda {
                                    arg: "b".to_string(),
                                    body: Box::new(LambdaTerm::new_var("b")),
                                }),
                            },
                            vec![],
                        ),
                    )],
                ),
            ),
        ],
    );
    assert_eq!(
        c.display_string(),
        "\\b. a, [(\"a\", b, [(\"x\", \\a. \\b. b, [])]), (\"b\", \\z. z, [])]"
    )
}

#[test]
fn kam_term_into_state() {
    let s = State::start(LambdaTerm::term1());
    let ans = State::new(Closure::new(LambdaTerm::term1(), vec![]), vec![]);
    assert_eq!(s, ans);
}

#[test]
fn kam_detect_end_state() {
    let s = State::start(LambdaTerm::term1());
    let s2 = State::new(
        Closure::new(
            LambdaTerm::Lambda {
                arg: "y".to_string(),
                body: Box::new(LambdaTerm::new_var("a")),
            },
            vec![],
        ),
        vec![],
    );
    let s3 = State::new(Closure::new(LambdaTerm::new_var("a"), vec![]), vec![]);
    let s4 = State::new(
        Closure::new(
            LambdaTerm::Lambda {
                arg: "y".to_string(),
                body: Box::new(LambdaTerm::new_var("a")),
            },
            vec![(
                "x".to_string(),
                Closure::new(
                    LambdaTerm::Lambda {
                        arg: "y".to_string(),
                        body: Box::new(LambdaTerm::new_var("a")),
                    },
                    vec![],
                ),
            )],
        ),
        vec![],
    );
    let s5 = State::new(
        Closure::new(
            LambdaTerm::Lambda {
                arg: "y".to_string(),
                body: Box::new(LambdaTerm::new_var("a")),
            },
            vec![],
        ),
        vec![s4.closure.clone()],
    );
    let s6 = State::new(
        Closure::new(
            LambdaTerm::Lambda {
                arg: "y".to_string(),
                body: Box::new(LambdaTerm::new_var("a")),
            },
            vec![(
                "x".to_string(),
                Closure::new(
                    LambdaTerm::Lambda {
                        arg: "y".to_string(),
                        body: Box::new(LambdaTerm::new_var("a")),
                    },
                    vec![],
                ),
            )],
        ),
        vec![s4.closure.clone()],
    );

    assert_eq!(s.final_(), false);
    assert_eq!(s2.final_(), true);
    assert_eq!(s3.final_(), true);
    assert_eq!(s4.final_(), true);
    assert_eq!(s5.final_(), false);
    assert_eq!(s6.final_(), false);
}

#[test]
fn kam_closure_to_term() {
    let s = State::state2();
    let ans = LambdaTerm::Apply {
        t1: Box::new(LambdaTerm::Lambda {
            arg: "x".to_string(),
            body: Box::new(LambdaTerm::new_var("x")),
        }),
        t2: Box::new(LambdaTerm::Lambda {
            arg: "z".to_string(),
            body: Box::new(LambdaTerm::new_var("z")),
        }),
    };
    assert_eq!(s.closure.retrieve_term(), ans);

    let s2 = State::state4();
    let ans2 = LambdaTerm::Lambda {
        arg: "y".to_string(),
        body: Box::new(LambdaTerm::new_var("x")),
    };
    assert_eq!(s2.closure.retrieve_term(), ans2);

    let s3 = State::new(
        Closure::new(
            LambdaTerm::Lambda {
                arg: "b".to_string(),
                body: Box::new(LambdaTerm::new_var("a")),
            },
            vec![
                (
                    "a".to_string(),
                    Closure::new(
                        LambdaTerm::new_var("b"),
                        vec![
                            (
                                "x".to_string(),
                                Closure::new(
                                    LambdaTerm::Lambda {
                                        arg: "a".to_string(),
                                        body: Box::new(LambdaTerm::Lambda {
                                            arg: "b".to_string(),
                                            body: Box::new(LambdaTerm::new_var("b")),
                                        }),
                                    },
                                    vec![],
                                ),
                            ),
                            (
                                "a".to_string(),
                                Closure::new(
                                    LambdaTerm::Lambda {
                                        arg: "a".to_string(),
                                        body: Box::new(LambdaTerm::Lambda {
                                            arg: "b".to_string(),
                                            body: Box::new(LambdaTerm::new_var("a")),
                                        }),
                                    },
                                    vec![(
                                        "b".to_string(),
                                        Closure::new(
                                            LambdaTerm::Lambda {
                                                arg: "z".to_string(),
                                                body: Box::new(LambdaTerm::new_var("z")),
                                            },
                                            vec![],
                                        ),
                                    )],
                                ),
                            ),
                            (
                                "b".to_string(),
                                Closure::new(
                                    LambdaTerm::Lambda {
                                        arg: "z".to_string(),
                                        body: Box::new(LambdaTerm::new_var("z")),
                                    },
                                    vec![],
                                ),
                            ),
                        ],
                    ),
                ),
                (
                    "b".to_string(),
                    Closure::new(
                        LambdaTerm::Lambda {
                            arg: "z".to_string(),
                            body: Box::new(LambdaTerm::new_var("z")),
                        },
                        vec![],
                    ),
                ),
            ],
        ),
        vec![],
    );
    let ans3 = LambdaTerm::Lambda {
        arg: "b".to_string(),
        body: Box::new(LambdaTerm::Lambda {
            arg: "z".to_string(),
            body: Box::new(LambdaTerm::new_var("z")),
        }),
    };
    assert_eq!(s3.closure.retrieve_term(), ans3);
}

#[test]
fn application_step() {
    let mut step0 = State::new(
        Closure::new(
            LambdaTerm::Apply {
                t1: Box::new(LambdaTerm::Lambda {
                    arg: "x".to_string(),
                    body: Box::new(LambdaTerm::new_var("x")),
                }),
                t2: Box::new(LambdaTerm::Lambda {
                    arg: "z".to_string(),
                    body: Box::new(LambdaTerm::new_var("z")),
                }),
            },
            vec![],
        ),
        vec![],
    );
    step0.step();
    let step1 = State::new(
        Closure::new(
            LambdaTerm::Lambda {
                arg: "x".to_string(),
                body: Box::new(LambdaTerm::new_var("x")),
            },
            vec![],
        ),
        vec![Closure::new(
            LambdaTerm::Lambda {
                arg: "z".to_string(),
                body: Box::new(LambdaTerm::new_var("z")),
            },
            vec![],
        )],
    );
    assert_eq!(step0, step1);
}

#[test]
fn lambda_step() {
    let mut step0 = State::new(
        Closure::new(
            LambdaTerm::Lambda {
                arg: "a".to_string(),
                body: Box::new(LambdaTerm::Lambda {
                    arg: "b".to_string(),
                    body: Box::new(LambdaTerm::new_var("a")),
                }),
            },
            vec![(
                "b".to_string(),
                Closure::new(
                    LambdaTerm::Lambda {
                        arg: "z".to_string(),
                        body: Box::new(LambdaTerm::new_var("z")),
                    },
                    vec![],
                ),
            )],
        ),
        vec![Closure::new(
            LambdaTerm::new_var("b"),
            vec![(
                "x".to_string(),
                Closure::new(
                    LambdaTerm::Lambda {
                        arg: "a".to_string(),
                        body: Box::new(LambdaTerm::Lambda {
                            arg: "b".to_string(),
                            body: Box::new(LambdaTerm::new_var("b")),
                        }),
                    },
                    vec![],
                ),
            )],
        )],
    );
    step0.step();
    let step1 = State::new(
        Closure::new(
            LambdaTerm::Lambda {
                arg: "b".to_string(),
                body: Box::new(LambdaTerm::new_var("a")),
            },
            vec![
                (
                    "b".to_string(),
                    Closure::new(
                        LambdaTerm::Lambda {
                            arg: "z".to_string(),
                            body: Box::new(LambdaTerm::new_var("z")),
                        },
                        vec![],
                    ),
                ),
                (
                    "a".to_string(),
                    Closure::new(
                        LambdaTerm::new_var("b"),
                        vec![(
                            "x".to_string(),
                            Closure::new(
                                LambdaTerm::Lambda {
                                    arg: "a".to_string(),
                                    body: Box::new(LambdaTerm::Lambda {
                                        arg: "b".to_string(),
                                        body: Box::new(LambdaTerm::new_var("b")),
                                    }),
                                },
                                vec![],
                            ),
                        )],
                    ),
                ),
            ],
        ),
        vec![],
    );
    assert_eq!(step0, step1);
}

#[test]
fn kam_run_term1() {
    let s = State::run(LambdaTerm::term1(), FUEL).unwrap();
    assert_eq!(LambdaTerm::new_bool(true).display_string(), s.display_string());
}

#[test]
fn kam_run_term2() {
    let s = State::run(LambdaTerm::term2(), FUEL).unwrap();
    let s2 = LambdaTerm::Lambda {
        arg: "b".to_string(),
        body: Box::new(LambdaTerm::Lambda {
            arg: "z".to_string(),
            body: Box::new(LambdaTerm::new_var("z")),
        }),
    };
    assert_eq!(s, s2);
}

#[test]
fn pam_and_kam_agree_on_term1() {
    // The two machines reduce term1 to alpha-equivalent booleans: the
    // substitution machine refreshes binder names, the environment
    // machine keeps them.
    let pam_ans = PState::p_run(LambdaTerm::term1(), FUEL).unwrap();
    let kam_ans = State::run(LambdaTerm::term1(), FUEL).unwrap();
    assert_eq!(pam_ans.display_string(), "\\d. \\e. d");
    assert_eq!(kam_ans.display_string(), "\\a. \\b. a");
}

#[test]
fn readback_is_idempotent() {
    let once = Closure::closure2().retrieve_term();
    let twice = Closure::new(once.clone(), vec![]).retrieve_term();
    assert_eq!(twice, once);
}

#[test]
fn alpha_equivalence_checks() {
    let id_a = LambdaTerm::Lambda {
        arg: "a".to_string(),
        body: Box::new(LambdaTerm::new_var("a")),
    };
    let id_b = LambdaTerm::Lambda {
        arg: "b".to_string(),
        body: Box::new(LambdaTerm::new_var("b")),
    };
    let const_b = LambdaTerm::Lambda {
        arg: "a".to_string(),
        body: Box::new(LambdaTerm::new_var("b")),
    };
    assert!(id_a.alpha_eq(&id_b));
    assert!(!id_a.alpha_eq(&const_b));
    // Free variables must agree by name.
    assert!(LambdaTerm::new_var("x").alpha_eq(&LambdaTerm::new_var("x")));
    assert!(!LambdaTerm::new_var("x").alpha_eq(&LambdaTerm::new_var("y")));
}

#[test]
fn pam_and_kam_results_are_alpha_equivalent() {
    let pam1 = PState::p_run(LambdaTerm::term1(), FUEL).unwrap();
    let kam1 = State::run(LambdaTerm::term1(), FUEL).unwrap();
    assert!(pam1.alpha_eq(&kam1));
    let pam2 = PState::p_run(LambdaTerm::term2(), FUEL).unwrap();
    let kam2 = State::run(LambdaTerm::term2(), FUEL).unwrap();
    assert!(pam2.alpha_eq(&kam2));
}
