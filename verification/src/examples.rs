//! Ready-made example terms, closures and states for each machine.

use crate::kam::Closure;
use crate::kam::ClosureV;
use crate::kam::State;
use crate::kam::StateV;
use crate::kam::env_view;
use crate::kam::stack_view;
use crate::lambdaterm::LambdaTerm;
use crate::lambdaterm::TermV;
use crate::lambdaterm::Var;
use crate::lambdaterm::bool_view;
use crate::lambdaterm::term_view;
use crate::fcmc::CClosureV;
use crate::fcmc::CTermV;
use crate::fcmc::FcmcTerm;
use crate::fmc::fenv_view;
use crate::fmc::FmcClosure;
use crate::fmc::FmcTerm;
use crate::pam::PState;
use crate::sam::senv_view;
use crate::sam::sstack_view;
use crate::sam::SClosure;
use crate::sam::SClosureV;
use crate::sam::SLambdaTerm;
use crate::sam::SState;
use crate::sam::SStateV;
use crate::sam::STermV;
use crate::pam::PStateV;
use crate::pam::terms_view;
use vstd::prelude::*;

verus! {

/// The model of `(\x. \y. x) (\a. \b. a) (\a. \b. b)`.
pub open spec fn term1_v() -> TermV {
    TermV::App {
        t1: Box::new(
            TermV::App {
                t1: Box::new(
                    TermV::Lam {
                        arg: "x"@,
                        body: Box::new(
                            TermV::Lam {
                                arg: "y"@,
                                body: Box::new(TermV::Var { name: "x"@ }),
                            },
                        ),
                    },
                ),
                t2: Box::new(bool_view(true)),
            },
        ),
        t2: Box::new(bool_view(false)),
    }
}

/// The model of `(\b. (\a. \x. (\y. a) x b) (\a. \b. a)) (\z. z) (\a. \b. b)`.
pub open spec fn term2_v() -> TermV {
    TermV::App {
        t1: Box::new(
            TermV::App {
                t1: Box::new(
                    TermV::Lam {
                        arg: "b"@,
                        body: Box::new(
                            TermV::App {
                                t1: Box::new(
                                    TermV::Lam {
                                        arg: "a"@,
                                        body: Box::new(
                                            TermV::Lam {
                                                arg: "x"@,
                                                body: Box::new(
                                                    TermV::App {
                                                        t1: Box::new(
                                                            TermV::App {
                                                                t1: Box::new(
                                                                    TermV::Lam {
                                                                        arg: "y"@,
                                                                        body: Box::new(
                                                                            TermV::Var {
                                                                                name: "a"@,
                                                                            },
                                                                        ),
                                                                    },
                                                                ),
                                                                t2: Box::new(
                                                                    TermV::Var { name: "x"@ },
                                                                ),
                                                            },
                                                        ),
                                                        t2: Box::new(TermV::Var { name: "b"@ }),
                                                    },
                                                ),
                                            },
                                        ),
                                    },
                                ),
                                t2: Box::new(bool_view(true)),
                            },
                        ),
                    },
                ),
                t2: Box::new(
                    TermV::Lam { arg: "z"@, body: Box::new(TermV::Var { name: "z"@ }) },
                ),
            },
        ),
        t2: Box::new(bool_view(false)),
    }
}

/// The model of `\a. \x. (\y. a) x b`.
pub open spec fn example5_v() -> TermV {
    TermV::Lam {
        arg: "a"@,
        body: Box::new(
            TermV::Lam {
                arg: "x"@,
                body: Box::new(
                    TermV::App {
                        t1: Box::new(
                            TermV::App {
                                t1: Box::new(
                                    TermV::Lam {
                                        arg: "y"@,
                                        body: Box::new(TermV::Var { name: "a"@ }),
                                    },
                                ),
                                t2: Box::new(TermV::Var { name: "x"@ }),
                            },
                        ),
                        t2: Box::new(TermV::Var { name: "b"@ }),
                    },
                ),
            },
        ),
    }
}

impl LambdaTerm {
    /// `(\x. \y. x) (\a. \b. a) (\a. \b. b)`
    pub fn term1() -> (r: Self)
        ensures
            r@ == term1_v(),
    {
        let r = LambdaTerm::Apply {
            t1: Box::new(
                LambdaTerm::Apply {
                    t1: Box::new(
                        LambdaTerm::Lambda {
                            arg: String::from_str("x"),
                            body: Box::new(
                                LambdaTerm::Lambda {
                                    arg: String::from_str("y"),
                                    body: Box::new(LambdaTerm::new_var("x")),
                                },
                            ),
                        },
                    ),
                    t2: Box::new(LambdaTerm::new_bool(true)),
                },
            ),
            t2: Box::new(LambdaTerm::new_bool(false)),
        };
        proof {
            reveal_with_fuel(term_view, 6);
            assert(r@ =~~= term1_v());
        }
        r
    }

    /// `(\b. (\a. \x. (\y. a) x b) (\a. \b. a)) (\z. z) (\a. \b. b)`
    pub fn term2() -> (r: Self)
        ensures
            r@ == term2_v(),
    {
        let r = LambdaTerm::Apply {
            t1: Box::new(
                LambdaTerm::Apply {
                    t1: Box::new(
                        LambdaTerm::Lambda {
                            arg: String::from_str("b"),
                            body: Box::new(
                                LambdaTerm::Apply {
                                    t1: Box::new(
                                        LambdaTerm::Lambda {
                                            arg: String::from_str("a"),
                                            body: Box::new(
                                                LambdaTerm::Lambda {
                                                    arg: String::from_str("x"),
                                                    body: Box::new(
                                                        LambdaTerm::Apply {
                                                            t1: Box::new(
                                                                LambdaTerm::Apply {
                                                                    t1: Box::new(
                                                                        LambdaTerm::Lambda {
                                                                            arg: String::from_str(
                                                                                "y",
                                                                            ),
                                                                            body: Box::new(
                                                                                LambdaTerm::new_var(
                                                                                    "a",
                                                                                ),
                                                                            ),
                                                                        },
                                                                    ),
                                                                    t2: Box::new(
                                                                        LambdaTerm::new_var("x"),
                                                                    ),
                                                                },
                                                            ),
                                                            t2: Box::new(
                                                                LambdaTerm::new_var("b"),
                                                            ),
                                                        },
                                                    ),
                                                },
                                            ),
                                        },
                                    ),
                                    t2: Box::new(LambdaTerm::new_bool(true)),
                                },
                            ),
                        },
                    ),
                    t2: Box::new(
                        LambdaTerm::Lambda {
                            arg: String::from_str("z"),
                            body: Box::new(LambdaTerm::new_var("z")),
                        },
                    ),
                },
            ),
            t2: Box::new(LambdaTerm::new_bool(false)),
        };
        proof {
            reveal_with_fuel(term_view, 10);
            assert(r@ =~~= term2_v());
        }
        r
    }

    /// `\a. \x. (\y. a) x b`
    pub fn example5() -> (r: Box<Self>)
        ensures
            r@ == example5_v(),
    {
        let r = Box::new(
            LambdaTerm::Lambda {
                arg: String::from_str("a"),
                body: Box::new(
                    LambdaTerm::Lambda {
                        arg: String::from_str("x"),
                        body: Box::new(
                            LambdaTerm::Apply {
                                t1: Box::new(
                                    LambdaTerm::Apply {
                                        t1: Box::new(
                                            LambdaTerm::Lambda {
                                                arg: String::from_str("y"),
                                                body: Box::new(LambdaTerm::new_var("a")),
                                            },
                                        ),
                                        t2: Box::new(LambdaTerm::new_var("x")),
                                    },
                                ),
                                t2: Box::new(LambdaTerm::new_var("b")),
                            },
                        ),
                    },
                ),
            },
        );
        proof {
            reveal_with_fuel(term_view, 8);
            assert((*r)@ =~~= example5_v());
        }
        r
    }

    /// `\a. \x. (\y. a) x z`
    pub fn example6() -> (r: Box<Self>)
        ensures
            r@ == example6_v(),
    {
        let r = Box::new(
            LambdaTerm::Lambda {
                arg: String::from_str("a"),
                body: Box::new(
                    LambdaTerm::Lambda {
                        arg: String::from_str("x"),
                        body: Box::new(
                            LambdaTerm::Apply {
                                t1: Box::new(
                                    LambdaTerm::Apply {
                                        t1: Box::new(
                                            LambdaTerm::Lambda {
                                                arg: String::from_str("y"),
                                                body: Box::new(LambdaTerm::new_var("a")),
                                            },
                                        ),
                                        t2: Box::new(LambdaTerm::new_var("x")),
                                    },
                                ),
                                t2: Box::new(LambdaTerm::new_var("z")),
                            },
                        ),
                    },
                ),
            },
        );
        proof {
            reveal_with_fuel(term_view, 8);
            assert((*r)@ =~~= example6_v());
        }
        r
    }

    /// `\c. \a. ((\a. c) a) (\f. \x. x)`
    pub fn example7() -> (r: Box<Self>)
        ensures
            r@ == example7_v(),
    {
        let r = Box::new(
            LambdaTerm::Lambda {
                arg: String::from_str("c"),
                body: Box::new(
                    LambdaTerm::Lambda {
                        arg: String::from_str("a"),
                        body: Box::new(
                            LambdaTerm::Apply {
                                t1: Box::new(
                                    LambdaTerm::Apply {
                                        t1: Box::new(
                                            LambdaTerm::Lambda {
                                                arg: String::from_str("a"),
                                                body: Box::new(LambdaTerm::new_var("c")),
                                            },
                                        ),
                                        t2: Box::new(LambdaTerm::new_var("a")),
                                    },
                                ),
                                t2: Box::new(LambdaTerm::new_num(0)),
                            },
                        ),
                    },
                ),
            },
        );
        proof {
            reveal_with_fuel(term_view, 8);
            assert((*r)@ =~~= example7_v());
        }
        r
    }
}

/// The model of `\a. \x. (\y. a) x z`.
pub open spec fn example6_v() -> TermV {
    TermV::Lam {
        arg: "a"@,
        body: Box::new(
            TermV::Lam {
                arg: "x"@,
                body: Box::new(
                    TermV::App {
                        t1: Box::new(
                            TermV::App {
                                t1: Box::new(
                                    TermV::Lam {
                                        arg: "y"@,
                                        body: Box::new(TermV::Var { name: "a"@ }),
                                    },
                                ),
                                t2: Box::new(TermV::Var { name: "x"@ }),
                            },
                        ),
                        t2: Box::new(TermV::Var { name: "z"@ }),
                    },
                ),
            },
        ),
    }
}

/// The model of `\c. \a. ((\a. c) a) (\f. \x. x)`.
pub open spec fn example7_v() -> TermV {
    TermV::Lam {
        arg: "c"@,
        body: Box::new(
            TermV::Lam {
                arg: "a"@,
                body: Box::new(
                    TermV::App {
                        t1: Box::new(
                            TermV::App {
                                t1: Box::new(
                                    TermV::Lam {
                                        arg: "a"@,
                                        body: Box::new(TermV::Var { name: "c"@ }),
                                    },
                                ),
                                t2: Box::new(TermV::Var { name: "a"@ }),
                            },
                        ),
                        t2: Box::new(crate::lambdaterm::church_view(0)),
                    },
                ),
            },
        ),
    }
}

impl PState {
    /// `(\x. \y. x, [\a. \b. a, \a. \b. b, *])`
    pub fn state1() -> (r: Self)
        ensures
            r@ == (PStateV {
                term: TermV::Lam {
                    arg: "x"@,
                    body: Box::new(
                        TermV::Lam { arg: "y"@, body: Box::new(TermV::Var { name: "x"@ }) },
                    ),
                },
                stack: seq![bool_view(false), bool_view(true)],
            }),
    {
        let term = LambdaTerm::Lambda {
            arg: String::from_str("x"),
            body: Box::new(
                LambdaTerm::Lambda {
                    arg: String::from_str("y"),
                    body: Box::new(LambdaTerm::new_var("x")),
                },
            ),
        };
        let mut stack: Vec<LambdaTerm> = Vec::new();
        stack.push(LambdaTerm::new_bool(false));
        stack.push(LambdaTerm::new_bool(true));
        proof {
            reveal_with_fuel(term_view, 4);
            assert(terms_view(stack@) =~= seq![bool_view(false), bool_view(true)]);
        }
        PState::new(term, stack)
    }

    /// `(\x. \y. x,[*])`
    pub fn state2() -> (r: Self)
        ensures
            r@ == (PStateV {
                term: TermV::Lam {
                    arg: "x"@,
                    body: Box::new(
                        TermV::Lam { arg: "y"@, body: Box::new(TermV::Var { name: "x"@ }) },
                    ),
                },
                stack: Seq::<TermV>::empty(),
            }),
    {
        let term = LambdaTerm::Lambda {
            arg: String::from_str("x"),
            body: Box::new(
                LambdaTerm::Lambda {
                    arg: String::from_str("y"),
                    body: Box::new(LambdaTerm::new_var("x")),
                },
            ),
        };
        proof {
            reveal_with_fuel(term_view, 4);
            assert(terms_view(Seq::<LambdaTerm>::empty()) =~= Seq::<TermV>::empty());
        }
        PState::new(term, Vec::new())
    }

    /// `(y, [\x. \y. x, *])`
    pub fn state3() -> (r: Self)
        ensures
            r@ == (PStateV {
                term: TermV::Var { name: "y"@ },
                stack: seq![
                    TermV::Lam {
                        arg: "x"@,
                        body: Box::new(
                            TermV::Lam { arg: "y"@, body: Box::new(TermV::Var { name: "x"@ }) },
                        ),
                    },
                ],
            }),
    {
        let mut stack: Vec<LambdaTerm> = Vec::new();
        stack.push(
            LambdaTerm::Lambda {
                arg: String::from_str("x"),
                body: Box::new(
                    LambdaTerm::Lambda {
                        arg: String::from_str("y"),
                        body: Box::new(LambdaTerm::new_var("x")),
                    },
                ),
            },
        );
        proof {
            reveal_with_fuel(term_view, 4);
            assert(terms_view(stack@) =~= seq![
                TermV::Lam {
                    arg: "x"@,
                    body: Box::new(
                        TermV::Lam { arg: "y"@, body: Box::new(TermV::Var { name: "x"@ }) },
                    ),
                },
            ]);
        }
        PState::new(LambdaTerm::new_var("y"), stack)
    }
}

/// The model of the closure `((\x. x) y, [("y", \z. z, [])])`.
pub open spec fn closure2_v() -> ClosureV {
    ClosureV {
        term: TermV::App {
            t1: Box::new(TermV::Lam { arg: "x"@, body: Box::new(TermV::Var { name: "x"@ }) }),
            t2: Box::new(TermV::Var { name: "y"@ }),
        },
        env: seq![
            (
                "y"@,
                ClosureV {
                    term: TermV::Lam { arg: "z"@, body: Box::new(TermV::Var { name: "z"@ }) },
                    env: Seq::empty(),
                },
            ),
        ],
    }
}

/// The model of the closure `(\y. x, [])`.
pub open spec fn closure4_v() -> ClosureV {
    ClosureV {
        term: TermV::Lam { arg: "y"@, body: Box::new(TermV::Var { name: "x"@ }) },
        env: Seq::empty(),
    }
}

impl Closure {
    /// `((\x. x) y, [("y", \z. z, [])])`
    pub fn closure2() -> (r: Self)
        ensures
            r@ == closure2_v(),
    {
        let term = LambdaTerm::Apply {
            t1: Box::new(
                LambdaTerm::Lambda {
                    arg: String::from_str("x"),
                    body: Box::new(LambdaTerm::new_var("x")),
                },
            ),
            t2: Box::new(LambdaTerm::new_var("y")),
        };
        let inner = Closure::new(
            LambdaTerm::Lambda {
                arg: String::from_str("z"),
                body: Box::new(LambdaTerm::new_var("z")),
            },
            Vec::new(),
        );
        let mut env: Vec<(Var, Closure)> = Vec::new();
        env.push((String::from_str("y"), inner));
        let r = Closure::new(term, env);
        proof {
            reveal_with_fuel(term_view, 4);
            assert(env_view(Seq::<(Var, Closure)>::empty()) =~= Seq::<(
                Seq<char>,
                ClosureV,
            )>::empty());
            assert(r@.env =~= closure2_v().env);
            assert(r@ =~~= closure2_v());
        }
        r
    }

    /// `(\y. x, [])`
    pub fn closure4() -> (r: Self)
        ensures
            r@ == closure4_v(),
    {
        let r = Closure::new(
            LambdaTerm::Lambda {
                arg: String::from_str("y"),
                body: Box::new(LambdaTerm::new_var("x")),
            },
            Vec::new(),
        );
        proof {
            reveal_with_fuel(term_view, 4);
            assert(env_view(Seq::<(Var, Closure)>::empty()) =~= Seq::<(
                Seq<char>,
                ClosureV,
            )>::empty());
            assert(r@ =~~= closure4_v());
        }
        r
    }
}

/// The model of the state `((\x. x) y, [("y", \z. z, [])], [])`.
pub open spec fn kstate2_v() -> StateV {
    StateV { closure: closure2_v(), stack: Seq::empty() }
}

/// The model of the state `(\y. x, [], [(z, [("z", \a. b, [("b", b, [])])])])`.
pub open spec fn kstate4_v() -> StateV {
    StateV {
        closure: closure4_v(),
        stack: seq![
            ClosureV {
                term: TermV::Var { name: "z"@ },
                env: seq![
                    (
                        "z"@,
                        ClosureV {
                            term: TermV::Lam {
                                arg: "a"@,
                                body: Box::new(TermV::Var { name: "b"@ }),
                            },
                            env: seq![
                                (
                                    "b"@,
                                    ClosureV {
                                        term: TermV::Var { name: "b"@ },
                                        env: Seq::empty(),
                                    },
                                ),
                            ],
                        },
                    ),
                ],
            },
        ],
    }
}

impl State {
    /// `((\x. x) y, [("y", \z. z, [])], [])`
    pub fn state2() -> (r: Self)
        ensures
            r@ == kstate2_v(),
    {
        let r = State::new(Closure::closure2(), Vec::new());
        proof {
            assert(stack_view(Seq::<Closure>::empty()) =~= Seq::<ClosureV>::empty());
        }
        r
    }

    /// `(\y. x, [], [(z, [("z", \a. b, [("b", b, [])])])])`
    pub fn state4() -> (r: Self)
        ensures
            r@ == kstate4_v(),
    {
        let innermost = Closure::new(LambdaTerm::new_var("b"), Vec::new());
        proof {
            assert(env_view(Seq::<(Var, Closure)>::empty()) =~= Seq::<(
                Seq<char>,
                ClosureV,
            )>::empty());
            assert(innermost@ =~~= (ClosureV {
                term: TermV::Var { name: "b"@ },
                env: Seq::empty(),
            }));
        }
        let mut env_b: Vec<(Var, Closure)> = Vec::new();
        env_b.push((String::from_str("b"), innermost));
        proof {
            assert(env_view(env_b@) =~= seq![
                ("b"@, ClosureV { term: TermV::Var { name: "b"@ }, env: Seq::empty() }),
            ]);
        }
        let mid = Closure::new(
            LambdaTerm::Lambda {
                arg: String::from_str("a"),
                body: Box::new(LambdaTerm::new_var("b")),
            },
            env_b,
        );
        proof {
            reveal_with_fuel(term_view, 3);
            assert(mid@ =~~= kstate4_v().stack[0].env[0].1);
        }
        let mut env_z: Vec<(Var, Closure)> = Vec::new();
        env_z.push((String::from_str("z"), mid));
        proof {
            assert(env_view(env_z@) =~= seq![("z"@, kstate4_v().stack[0].env[0].1)]);
        }
        let stack_entry = Closure::new(LambdaTerm::new_var("z"), env_z);
        proof {
            assert(stack_entry@ =~~= kstate4_v().stack[0]);
        }
        let mut stack: Vec<Closure> = Vec::new();
        stack.push(stack_entry);
        let r = State::new(Closure::closure4(), stack);
        proof {
            assert(r@.stack =~= kstate4_v().stack);
            assert(r@ =~~= kstate4_v());
        }
        r
    }
}

/// The model of `<x>.[x].[x]`.
pub open spec fn sterm1_v() -> STermV {
    STermV::Pop {
        arg: "x"@,
        next: Box::new(
            STermV::Push {
                term: Box::new(STermV::Var { name: "x"@ }),
                next: Box::new(
                    STermV::Push {
                        term: Box::new(STermV::Var { name: "x"@ }),
                        next: Box::new(STermV::Skip),
                    },
                ),
            },
        ),
    }
}

/// The model of `<x>.<y>`.
pub open spec fn sterm2_v() -> STermV {
    STermV::Pop {
        arg: "x"@,
        next: Box::new(STermV::Pop { arg: "y"@, next: Box::new(STermV::Skip) }),
    }
}

/// The model of `[<x>.[x]].<f>.f;f;f`.
pub open spec fn sterm3_v() -> STermV {
    STermV::Push {
        term: Box::new(
            STermV::Pop {
                arg: "x"@,
                next: Box::new(
                    STermV::Push {
                        term: Box::new(STermV::Var { name: "x"@ }),
                        next: Box::new(STermV::Skip),
                    },
                ),
            },
        ),
        next: Box::new(
            STermV::Pop {
                arg: "f"@,
                next: Box::new(
                    STermV::Sequence {
                        term: Box::new(STermV::Var { name: "f"@ }),
                        next: Box::new(
                            STermV::Sequence {
                                term: Box::new(STermV::Var { name: "f"@ }),
                                next: Box::new(
                                    STermV::Sequence {
                                        term: Box::new(STermV::Var { name: "f"@ }),
                                        next: Box::new(STermV::Skip),
                                    },
                                ),
                            },
                        ),
                    },
                ),
            },
        ),
    }
}

/// The model of `[[y].[x]].<z>.z.z`.
pub open spec fn sterm4_v() -> STermV {
    STermV::Push {
        term: Box::new(
            STermV::Push {
                term: Box::new(STermV::Var { name: "y"@ }),
                next: Box::new(
                    STermV::Push {
                        term: Box::new(STermV::Var { name: "x"@ }),
                        next: Box::new(STermV::Skip),
                    },
                ),
            },
        ),
        next: Box::new(
            STermV::Pop {
                arg: "z"@,
                next: Box::new(
                    STermV::Sequence {
                        term: Box::new(STermV::Var { name: "z"@ }),
                        next: Box::new(
                            STermV::Sequence {
                                term: Box::new(STermV::Var { name: "z"@ }),
                                next: Box::new(STermV::Skip),
                            },
                        ),
                    },
                ),
            },
        ),
    }
}

impl SLambdaTerm {
    /// `<x>.[x].[x]`
    pub fn term1() -> (r: Self)
        ensures
            r@ == sterm1_v(),
    {
        SLambdaTerm::new_pop(
            "x",
            SLambdaTerm::new_push(
                SLambdaTerm::new_variable("x"),
                SLambdaTerm::new_push(SLambdaTerm::new_variable("x"), SLambdaTerm::Skip),
            ),
        )
    }

    /// `<x>.<y>`
    pub fn term2() -> (r: Self)
        ensures
            r@ == sterm2_v(),
    {
        SLambdaTerm::new_pop("x", SLambdaTerm::new_pop("y", SLambdaTerm::Skip))
    }

    /// `[<x>.[x]].<f>.f;f;f`
    pub fn term3() -> (r: Self)
        ensures
            r@ == sterm3_v(),
    {
        SLambdaTerm::new_push(
            SLambdaTerm::new_pop(
                "x",
                SLambdaTerm::new_push(SLambdaTerm::new_variable("x"), SLambdaTerm::Skip),
            ),
            SLambdaTerm::new_pop(
                "f",
                SLambdaTerm::new_seq(
                    SLambdaTerm::new_variable("f"),
                    SLambdaTerm::new_seq(
                        SLambdaTerm::new_variable("f"),
                        SLambdaTerm::new_seq(SLambdaTerm::new_variable("f"), SLambdaTerm::Skip),
                    ),
                ),
            ),
        )
    }

    /// `[[y].[x]].<z>.z.z`
    pub fn term4() -> (r: Self)
        ensures
            r@ == sterm4_v(),
    {
        SLambdaTerm::new_push(
            SLambdaTerm::new_push(
                SLambdaTerm::new_variable("y"),
                SLambdaTerm::new_push(SLambdaTerm::new_variable("x"), SLambdaTerm::Skip),
            ),
            SLambdaTerm::new_pop(
                "z",
                SLambdaTerm::new_seq(
                    SLambdaTerm::new_variable("z"),
                    SLambdaTerm::new_seq(SLambdaTerm::new_variable("z"), SLambdaTerm::Skip),
                ),
            ),
        )
    }
}

/// The model of the closure `([<x>.[x]].<f>.f;f;f, [("y", [<x>.[x]].<f>.f;f;f, [])])`.
pub open spec fn sclosure1_v() -> SClosureV {
    SClosureV {
        term: sterm3_v(),
        env: seq![("y"@, SClosureV { term: sterm3_v(), env: Seq::empty() })],
    }
}

/// The model of the closure `(<x>.<y>, [("y", <x>.[x].[x], [])])`.
pub open spec fn sclosure2_v() -> SClosureV {
    SClosureV {
        term: sterm2_v(),
        env: seq![("y"@, SClosureV { term: sterm1_v(), env: Seq::empty() })],
    }
}

impl SClosure {
    /// `([<x>.[x]].<f>.f;f;f, [("y", [<x>.[x]].<f>.f;f;f, [])])`
    pub fn closure1() -> (r: Self)
        ensures
            r@ == sclosure1_v(),
    {
        let inner = SClosure::new(SLambdaTerm::term3(), Vec::new());
        proof {
            assert(senv_view(Seq::<(Var, SClosure)>::empty()) =~= Seq::<(
                Seq<char>,
                SClosureV,
            )>::empty());
        }
        let mut env: Vec<(Var, SClosure)> = Vec::new();
        env.push((String::from_str("y"), inner));
        proof {
            assert(senv_view(env@) =~= sclosure1_v().env);
        }
        let r = SClosure::new(SLambdaTerm::term3(), env);
        r
    }

    /// `(<x>.<y>, [("y", <x>.[x].[x], [])])`
    pub fn closure2() -> (r: Self)
        ensures
            r@ == sclosure2_v(),
    {
        let inner = SClosure::new(SLambdaTerm::term1(), Vec::new());
        proof {
            assert(senv_view(Seq::<(Var, SClosure)>::empty()) =~= Seq::<(
                Seq<char>,
                SClosureV,
            )>::empty());
        }
        let mut env: Vec<(Var, SClosure)> = Vec::new();
        env.push((String::from_str("y"), inner));
        proof {
            assert(senv_view(env@) =~= sclosure2_v().env);
        }
        let r = SClosure::new(SLambdaTerm::term2(), env);
        r
    }
}

impl SState {
    /// The closure `closure1` over the argument stack holding `closure2`
    /// and `closure1`, with an empty continuation.
    pub fn state1() -> (r: Self)
        ensures
            r@ == (SStateV {
                closure: sclosure1_v(),
                stack: seq![sclosure2_v(), sclosure1_v()],
                continuation: Seq::<SClosureV>::empty(),
            }),
    {
        let mut stack: Vec<SClosure> = Vec::new();
        stack.push(SClosure::closure2());
        stack.push(SClosure::closure1());
        proof {
            assert(sstack_view(stack@) =~= seq![sclosure2_v(), sclosure1_v()]);
            assert(sstack_view(Seq::<SClosure>::empty()) =~= Seq::<SClosureV>::empty());
        }
        SState::new(SClosure::closure1(), stack, Vec::new())
    }

    /// The finished program over the argument stack holding `closure2`
    /// and `closure1`.
    pub fn state2() -> (r: Self)
        ensures
            r@ == (SStateV {
                closure: SClosureV {
                    term: STermV::Skip,
                    env: Seq::<(Seq<char>, SClosureV)>::empty(),
                },
                stack: seq![sclosure2_v(), sclosure1_v()],
                continuation: Seq::<SClosureV>::empty(),
            }),
    {
        let mut stack: Vec<SClosure> = Vec::new();
        stack.push(SClosure::closure2());
        stack.push(SClosure::closure1());
        proof {
            assert(sstack_view(stack@) =~= seq![sclosure2_v(), sclosure1_v()]);
            assert(sstack_view(Seq::<SClosure>::empty()) =~= Seq::<SClosureV>::empty());
            assert(senv_view(Seq::<(Var, SClosure)>::empty()) =~= Seq::<(
                Seq<char>,
                SClosureV,
            )>::empty());
        }
        SState::new(SClosure::new(SLambdaTerm::Skip, Vec::new()), stack, Vec::new())
    }
}

/// The model of `[x]a;a<y>`: push `x` to `a`, then pop it back.
pub open spec fn fterm1_v() -> CTermV {
    CTermV::Sequence {
        term: Box::new(
            CTermV::Push {
                term: Box::new(CTermV::Var { name: "x"@ }),
                location: "a"@,
                next: Box::new(CTermV::Skip),
            },
        ),
        next: Box::new(
            CTermV::Pop { location: "a"@, arg: "y"@, next: Box::new(CTermV::Skip) },
        ),
    }
}

impl FmcTerm {
    /// `[x]a;a<y>`: push `x` to `a`, then pop it back.
    pub fn term1() -> (r: Self)
        ensures
            r@ == fterm1_v(),
    {
        FmcTerm::new_seq(
            FmcTerm::new_push(
                FmcTerm::new_variable("x"),
                String::from_str("a"),
                FmcTerm::Skip,
            ),
            FmcTerm::new_pop(String::from_str("a"), "y", FmcTerm::Skip),
        )
    }
}

impl FmcClosure {
    /// The closure of `term1` over an empty environment.
    pub fn closure1() -> (r: Self)
        ensures
            r@ == (CClosureV { term: fterm1_v(), env: Seq::<(Seq<char>, CClosureV)>::empty() }),
    {
        let r = FmcClosure::new(FmcTerm::term1(), Vec::new());
        proof {
            assert(fenv_view(Seq::<(Var, FmcClosure)>::empty()) =~= Seq::<(
                Seq<char>,
                CClosureV,
            )>::empty());
        }
        r
    }
}

/// The model of `{[[x]~out]~a}.~a<y>.y`: a forked thread sends a push
/// program over the channel `~a`; the main thread receives and runs it,
/// leaving `x` on `~out`.
pub open spec fn cterm1_v() -> CTermV {
    CTermV::Fork {
        forked: Box::new(
            CTermV::Push {
                term: Box::new(
                    CTermV::Push {
                        term: Box::new(CTermV::Var { name: "x"@ }),
                        location: "~out"@,
                        next: Box::new(CTermV::Skip),
                    },
                ),
                location: "~a"@,
                next: Box::new(CTermV::Skip),
            },
        ),
        cont: Box::new(
            CTermV::Pop {
                location: "~a"@,
                arg: "y"@,
                next: Box::new(CTermV::Var { name: "y"@ }),
            },
        ),
    }
}

/// The model of `[a<x>.x]b.[[z]out]a.b<f>.f`: stack locations only.
pub open spec fn cterm2_v() -> CTermV {
    CTermV::Push {
        term: Box::new(
            CTermV::Pop {
                location: "a"@,
                arg: "x"@,
                next: Box::new(CTermV::Var { name: "x"@ }),
            },
        ),
        location: "b"@,
        next: Box::new(
            CTermV::Push {
                term: Box::new(
                    CTermV::Push {
                        term: Box::new(CTermV::Var { name: "z"@ }),
                        location: "out"@,
                        next: Box::new(CTermV::Skip),
                    },
                ),
                location: "a"@,
                next: Box::new(
                    CTermV::Pop {
                        location: "b"@,
                        arg: "f"@,
                        next: Box::new(CTermV::Var { name: "f"@ }),
                    },
                ),
            },
        ),
    }
}

/// The model of
/// `[x]~a.({~a<y>.[[y]~out]~b.[*]~t1}.({~b<z>.z;[*]~t2}.~t1<n>.~t2<m>.*))`:
/// a producer/consumer pipeline synchronised by completion tokens.
pub open spec fn cterm3_v() -> CTermV {
    CTermV::Push {
        term: Box::new(CTermV::Var { name: "x"@ }),
        location: "~a"@,
        next: Box::new(
            CTermV::Fork {
                forked: Box::new(
                    CTermV::Pop {
                        location: "~a"@,
                        arg: "y"@,
                        next: Box::new(
                            CTermV::Push {
                                term: Box::new(
                                    CTermV::Push {
                                        term: Box::new(CTermV::Var { name: "y"@ }),
                                        location: "~out"@,
                                        next: Box::new(CTermV::Skip),
                                    },
                                ),
                                location: "~b"@,
                                next: Box::new(
                                    CTermV::Push {
                                        term: Box::new(CTermV::Skip),
                                        location: "~t1"@,
                                        next: Box::new(CTermV::Skip),
                                    },
                                ),
                            },
                        ),
                    },
                ),
                cont: Box::new(
                    CTermV::Fork {
                        forked: Box::new(
                            CTermV::Pop {
                                location: "~b"@,
                                arg: "z"@,
                                next: Box::new(
                                    CTermV::Sequence {
                                        term: Box::new(CTermV::Var { name: "z"@ }),
                                        next: Box::new(
                                            CTermV::Push {
                                                term: Box::new(CTermV::Skip),
                                                location: "~t2"@,
                                                next: Box::new(CTermV::Skip),
                                            },
                                        ),
                                    },
                                ),
                            },
                        ),
                        cont: Box::new(
                            CTermV::Pop {
                                location: "~t1"@,
                                arg: "n"@,
                                next: Box::new(
                                    CTermV::Pop {
                                        location: "~t2"@,
                                        arg: "m"@,
                                        next: Box::new(CTermV::Skip),
                                    },
                                ),
                            },
                        ),
                    },
                ),
            },
        ),
    }
}

impl FcmcTerm {
    /// `{[[x]~out]~a}.~a<y>.y`
    pub fn term1() -> (r: Self)
        ensures
            r@ == cterm1_v(),
    {
        FcmcTerm::new_fork(
            FcmcTerm::new_push(
                FcmcTerm::new_push(
                    FcmcTerm::new_variable("x"),
                    String::from_str("~out"),
                    FcmcTerm::Skip,
                ),
                String::from_str("~a"),
                FcmcTerm::Skip,
            ),
            FcmcTerm::new_pop(String::from_str("~a"), "y", FcmcTerm::new_variable("y")),
        )
    }

    /// `[a<x>.x]b.[[z]out]a.b<f>.f`
    pub fn term2() -> (r: Self)
        ensures
            r@ == cterm2_v(),
    {
        FcmcTerm::new_push(
            FcmcTerm::new_pop(String::from_str("a"), "x", FcmcTerm::new_variable("x")),
            String::from_str("b"),
            FcmcTerm::new_push(
                FcmcTerm::new_push(
                    FcmcTerm::new_variable("z"),
                    String::from_str("out"),
                    FcmcTerm::Skip,
                ),
                String::from_str("a"),
                FcmcTerm::new_pop(String::from_str("b"), "f", FcmcTerm::new_variable("f")),
            ),
        )
    }

    /// `[x]~a.({~a<y>.[[y]~out]~b.[*]~t1}.({~b<z>.z;[*]~t2}.~t1<n>.~t2<m>.*))`
    pub fn term3() -> (r: Self)
        ensures
            r@ == cterm3_v(),
    {
        FcmcTerm::new_push(
            FcmcTerm::new_variable("x"),
            String::from_str("~a"),
            FcmcTerm::new_fork(
                FcmcTerm::new_pop(
                    String::from_str("~a"),
                    "y",
                    FcmcTerm::new_push(
                        FcmcTerm::new_push(
                            FcmcTerm::new_variable("y"),
                            String::from_str("~out"),
                            FcmcTerm::Skip,
                        ),
                        String::from_str("~b"),
                        FcmcTerm::new_push(
                            FcmcTerm::Skip,
                            String::from_str("~t1"),
                            FcmcTerm::Skip,
                        ),
                    ),
                ),
                FcmcTerm::new_fork(
                    FcmcTerm::new_pop(
                        String::from_str("~b"),
                        "z",
                        FcmcTerm::new_seq(
                            FcmcTerm::new_variable("z"),
                            FcmcTerm::new_push(
                                FcmcTerm::Skip,
                                String::from_str("~t2"),
                                FcmcTerm::Skip,
                            ),
                        ),
                    ),
                    FcmcTerm::new_pop(
                        String::from_str("~t1"),
                        "n",
                        FcmcTerm::new_pop(String::from_str("~t2"), "m", FcmcTerm::Skip),
                    ),
                ),
            ),
        )
    }
}

} // verus!
