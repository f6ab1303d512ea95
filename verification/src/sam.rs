//! The sequential abstract machine: a calculus of push, pop and sequence
//! instructions, run over closures with an explicit continuation stack.

use crate::lambdaterm::Var;
use vstd::prelude::*;

verus! {

/// The model of a sequential term.
#[verifier::ext_equal]
pub enum STermV {
    Skip,
    Var { name: Seq<char> },
    Pop { arg: Seq<char>, next: Box<STermV> },
    Push { term: Box<STermV>, next: Box<STermV> },
    Sequence { term: Box<STermV>, next: Box<STermV> },
}

/// A term of the sequential calculus: a right-nested instruction list.
#[derive(Debug, PartialEq)]
pub enum SLambdaTerm {
    Skip,
    Variable { name: Var },
    Pop { arg: Var, next: Box<SLambdaTerm> },
    Push { term: Box<SLambdaTerm>, next: Box<SLambdaTerm> },
    Sequence { term: Box<SLambdaTerm>, next: Box<SLambdaTerm> },
}

pub open spec fn sterm_view(t: SLambdaTerm) -> STermV
    decreases t,
{
    match t {
        SLambdaTerm::Skip => STermV::Skip,
        SLambdaTerm::Variable { name } => STermV::Var { name: name@ },
        SLambdaTerm::Pop { arg, next } => STermV::Pop {
            arg: arg@,
            next: Box::new(sterm_view(*next)),
        },
        SLambdaTerm::Push { term, next } => STermV::Push {
            term: Box::new(sterm_view(*term)),
            next: Box::new(sterm_view(*next)),
        },
        SLambdaTerm::Sequence { term, next } => STermV::Sequence {
            term: Box::new(sterm_view(*term)),
            next: Box::new(sterm_view(*next)),
        },
    }
}

impl View for SLambdaTerm {
    type V = STermV;

    open spec fn view(&self) -> STermV {
        sterm_view(*self)
    }
}

impl Clone for SLambdaTerm {
    fn clone(&self) -> (res: Self)
        ensures
            res@ == self@,
        decreases *self,
    {
        match self {
            SLambdaTerm::Skip => SLambdaTerm::Skip,
            SLambdaTerm::Variable { name } => SLambdaTerm::Variable { name: name.clone() },
            SLambdaTerm::Pop { arg, next } => SLambdaTerm::Pop {
                arg: arg.clone(),
                next: Box::new((**next).clone()),
            },
            SLambdaTerm::Push { term, next } => SLambdaTerm::Push {
                term: Box::new((**term).clone()),
                next: Box::new((**next).clone()),
            },
            SLambdaTerm::Sequence { term, next } => SLambdaTerm::Sequence {
                term: Box::new((**term).clone()),
                next: Box::new((**next).clone()),
            },
        }
    }
}

/// The printed form of a sequential term: `*` for skip, `<x>` for a pop,
/// `[t]` for a push, `;` for sequencing, `.` as the connective.
pub open spec fn sterm_dsp(t: STermV) -> Seq<char>
    decreases t,
{
    match t {
        STermV::Skip => "*"@,
        STermV::Var { name } => name,
        STermV::Pop { arg, next } => if *next is Skip {
            "<"@ + arg + ">"@
        } else {
            "<"@ + arg + ">."@ + sterm_dsp(*next)
        },
        STermV::Push { term, next } => if *next is Skip {
            "["@ + sterm_dsp(*term) + "]"@
        } else {
            "["@ + sterm_dsp(*term) + "]."@ + sterm_dsp(*next)
        },
        STermV::Sequence { term, next } => if *next is Skip {
            sterm_dsp(*term)
        } else {
            sterm_dsp(*term) + ";"@ + sterm_dsp(*next)
        },
    }
}

impl SLambdaTerm {
    /// Turn a `&str` into a `Variable`.
    pub fn new_variable(name: &str) -> (r: Self)
        ensures
            r@ == (STermV::Var { name: name@ }),
    {
        SLambdaTerm::Variable { name: name.to_owned() }
    }

    /// Turn a `&str` and a term into a `Pop`.
    pub fn new_pop(arg: &str, next: SLambdaTerm) -> (r: Self)
        ensures
            r@ == (STermV::Pop { arg: arg@, next: Box::new(next@) }),
    {
        SLambdaTerm::Pop { arg: arg.to_owned(), next: Box::new(next) }
    }

    /// Turn two terms into a `Push`.
    pub fn new_push(term: SLambdaTerm, next: SLambdaTerm) -> (r: Self)
        ensures
            r@ == (STermV::Push { term: Box::new(term@), next: Box::new(next@) }),
    {
        SLambdaTerm::Push { term: Box::new(term), next: Box::new(next) }
    }

    /// Turn two terms into a `Seq`.
    pub fn new_seq(term: SLambdaTerm, next: SLambdaTerm) -> (r: Self)
        ensures
            r@ == (STermV::Sequence { term: Box::new(term@), next: Box::new(next@) }),
    {
        SLambdaTerm::Sequence { term: Box::new(term), next: Box::new(next) }
    }

    /// The printed form of the term.
    pub fn display_string(&self) -> (r: String)
        ensures
            r@ == sterm_dsp(self@),
        decreases *self,
    {
        match self {
            SLambdaTerm::Skip => String::from_str("*"),
            SLambdaTerm::Variable { name } => name.clone(),
            SLambdaTerm::Pop { arg, next } => {
                let mut s = String::from_str("<");
                s.append(arg.as_str());
                if matches!(**next, SLambdaTerm::Skip) {
                    s.append(">");
                } else {
                    s.append(">.");
                    let nd = next.display_string();
                    s.append(nd.as_str());
                }
                proof {
                    reveal_with_fuel(sterm_view, 2);
                    assert(s@ =~= sterm_dsp(self@));
                }
                s
            }
            SLambdaTerm::Push { term, next } => {
                let mut s = String::from_str("[");
                let td = term.display_string();
                s.append(td.as_str());
                if matches!(**next, SLambdaTerm::Skip) {
                    s.append("]");
                } else {
                    s.append("].");
                    let nd = next.display_string();
                    s.append(nd.as_str());
                }
                proof {
                    reveal_with_fuel(sterm_view, 2);
                    assert(s@ =~= sterm_dsp(self@));
                }
                s
            }
            SLambdaTerm::Sequence { term, next } => {
                let mut s = term.display_string();
                if !matches!(**next, SLambdaTerm::Skip) {
                    s.append(";");
                    let nd = next.display_string();
                    s.append(nd.as_str());
                }
                proof {
                    reveal_with_fuel(sterm_view, 2);
                    assert(s@ =~= sterm_dsp(self@));
                }
                s
            }
        }
    }
}

/// The model of a sequential closure.
#[verifier::ext_equal]
pub struct SClosureV {
    pub term: STermV,
    pub env: Seq<(Seq<char>, SClosureV)>,
}

/// A closure of the sequential machine.
#[derive(Debug, PartialEq)]
pub struct SClosure {
    pub term: SLambdaTerm,
    pub env: Vec<(Var, SClosure)>,
}

/// The view of an environment.
pub open spec fn senv_view(env: Seq<(Var, SClosure)>) -> Seq<(Seq<char>, SClosureV)>
    decreases env,
{
    Seq::new(
        env.len(),
        |i: int|
            if 0 <= i < env.len() {
                (env[i].0@, sclosure_view(env[i].1))
            } else {
                (
                    Seq::<char>::empty(),
                    SClosureV { term: STermV::Skip, env: Seq::empty() },
                )
            },
    )
}

pub open spec fn sclosure_view(c: SClosure) -> SClosureV
    decreases c,
{
    SClosureV { term: sterm_view(c.term), env: senv_view(c.env@) }
}

impl View for SClosure {
    type V = SClosureV;

    open spec fn view(&self) -> SClosureV {
        sclosure_view(*self)
    }
}

/// The weight of a sequential term: a pop binder weighs more than the
/// self-binding that read-back adds for it.
pub open spec fn swsize(t: STermV) -> nat
    decreases t,
{
    match t {
        STermV::Skip => 1,
        STermV::Var { .. } => 1,
        STermV::Pop { next, .. } => 3 + swsize(*next),
        STermV::Push { term, next } => 1 + swsize(*term) + swsize(*next),
        STermV::Sequence { term, next } => 1 + swsize(*term) + swsize(*next),
    }
}

/// The weight of the first `n` entries of an environment.
pub open spec fn sesize(env: Seq<(Seq<char>, SClosureV)>, n: int) -> nat
    decreases env, n,
{
    if n <= 0 || n > env.len() {
        0
    } else {
        sesize(env, n - 1) + 1 + scsize(env[n - 1].1)
    }
}

/// The weight of a closure.
pub open spec fn scsize(c: SClosureV) -> nat
    decreases c, 0int,
{
    swsize(c.term) + sesize(c.env, c.env.len() as int)
}

/// `sesize` looks only at the entries below `n`.
pub proof fn lemma_sesize_prefix(
    env1: Seq<(Seq<char>, SClosureV)>,
    env2: Seq<(Seq<char>, SClosureV)>,
    n: int,
)
    requires
        0 <= n <= env1.len(),
        n <= env2.len(),
        forall|i: int| 0 <= i < n ==> env1[i] == env2[i],
    ensures
        sesize(env1, n) == sesize(env2, n),
    decreases n,
{
    if n > 0 {
        lemma_sesize_prefix(env1, env2, n - 1);
    }
}

/// Every entry of an environment weighs less than the whole environment.
pub proof fn lemma_sesize_element(env: Seq<(Seq<char>, SClosureV)>, i: int, n: int)
    requires
        0 <= i < n <= env.len(),
    ensures
        scsize(env[i].1) < sesize(env, n),
    decreases n,
{
    if i < n - 1 {
        lemma_sesize_element(env, i, n - 1);
    }
}

/// The model of read-back for sequential closures: apply the environment
/// to the term; a pop binder extends the environment with a self-binding.
pub open spec fn sretrieve_v(c: SClosureV) -> STermV
    decreases scsize(c),
    via sretrieve_v_dec
{
    match c.term {
        STermV::Skip => c.term,
        STermV::Var { name } => {
            if c.env.len() == 0 {
                c.term
            } else if c.env.last().0 == name {
                sretrieve_v(c.env.last().1)
            } else {
                sretrieve_v(SClosureV { term: c.term, env: c.env.drop_last() })
            }
        }
        STermV::Pop { arg, next } => STermV::Pop {
            arg,
            next: Box::new(
                sretrieve_v(
                    SClosureV {
                        term: *next,
                        env: c.env.push(
                            (arg, SClosureV { term: STermV::Var { name: arg }, env: Seq::empty() }),
                        ),
                    },
                ),
            ),
        },
        STermV::Push { term, next } => STermV::Push {
            term: Box::new(sretrieve_v(SClosureV { term: *term, env: c.env })),
            next: Box::new(sretrieve_v(SClosureV { term: *next, env: c.env })),
        },
        STermV::Sequence { term, next } => STermV::Sequence {
            term: Box::new(sretrieve_v(SClosureV { term: *term, env: c.env })),
            next: Box::new(sretrieve_v(SClosureV { term: *next, env: c.env })),
        },
    }
}

#[via_fn]
proof fn sretrieve_v_dec(c: SClosureV) {
    let len = c.env.len() as int;
    match c.term {
        STermV::Var { name } => {
            if c.env.len() > 0 {
                if c.env.last().0 == name {
                    lemma_sesize_element(c.env, len - 1, len);
                } else {
                    let shorter = c.env.drop_last();
                    lemma_sesize_prefix(shorter, c.env, len - 1);
                    lemma_sesize_element(c.env, len - 1, len);
                }
            }
        }
        STermV::Pop { arg, next } => {
            let selfbind = SClosureV { term: STermV::Var { name: arg }, env: Seq::empty() };
            let pushed = c.env.push((arg, selfbind));
            lemma_sesize_prefix(c.env, pushed, len);
            assert(sesize(pushed, len + 1) == sesize(pushed, len) + 1 + scsize(selfbind));
            assert(scsize(selfbind) == 1) by {
                assert(sesize(Seq::<(Seq<char>, SClosureV)>::empty(), 0) == 0);
            }
        }
        _ => {}
    }
}

/// An environment holding only self-bindings, as read-back of a binder
/// introduces them.
pub open spec fn s_self_env(env: Seq<(Seq<char>, SClosureV)>) -> bool {
    forall|i: int| 0 <= i < env.len() ==> env[i].1 == (SClosureV {
        term: STermV::Var { name: env[i].0 },
        env: Seq::<(Seq<char>, SClosureV)>::empty(),
    })
}

/// Under an environment of self-bindings only, read-back returns the
/// term unchanged.
pub proof fn lemma_sretrieve_self_env(c: SClosureV)
    requires
        s_self_env(c.env),
    ensures
        sretrieve_v(c) == c.term,
    decreases scsize(c),
{
    let len = c.env.len() as int;
    match c.term {
        STermV::Var { name } => {
            if c.env.len() > 0 {
                if c.env.last().0 == name {
                    lemma_sesize_element(c.env, len - 1, len);
                    lemma_sretrieve_self_env(c.env.last().1);
                } else {
                    let shorter = c.env.drop_last();
                    lemma_sesize_prefix(shorter, c.env, len - 1);
                    lemma_sesize_element(c.env, len - 1, len);
                    lemma_sretrieve_self_env(SClosureV { term: c.term, env: shorter });
                }
            }
        }
        STermV::Pop { arg, next } => {
            let selfbind = SClosureV { term: STermV::Var { name: arg }, env: Seq::empty() };
            let pushed = c.env.push((arg, selfbind));
            lemma_sesize_prefix(c.env, pushed, len);
            assert(sesize(pushed, len + 1) == sesize(pushed, len) + 1 + scsize(selfbind));
            assert(scsize(selfbind) == 1) by {
                assert(sesize(Seq::<(Seq<char>, SClosureV)>::empty(), 0) == 0);
            }
            assert(s_self_env(pushed));
            lemma_sretrieve_self_env(SClosureV { term: *next, env: pushed });
        }
        STermV::Push { term, next } => {
            lemma_sretrieve_self_env(SClosureV { term: *term, env: c.env });
            lemma_sretrieve_self_env(SClosureV { term: *next, env: c.env });
        }
        STermV::Sequence { term, next } => {
            lemma_sretrieve_self_env(SClosureV { term: *term, env: c.env });
            lemma_sretrieve_self_env(SClosureV { term: *next, env: c.env });
        }
        STermV::Skip => {}
    }
}

/// Read-back is idempotent: reading back a closure of the read-back of
/// `c` over the empty environment gives the read-back of `c` again.
pub proof fn lemma_sreadback_idempotent(c: SClosureV)
    ensures
        sretrieve_v(
            SClosureV { term: sretrieve_v(c), env: Seq::<(Seq<char>, SClosureV)>::empty() },
        ) == sretrieve_v(c),
{
    lemma_sretrieve_self_env(
        SClosureV { term: sretrieve_v(c), env: Seq::<(Seq<char>, SClosureV)>::empty() },
    );
}

/// Clone an environment, preserving its view.
fn sclone_env(env: &Vec<(Var, SClosure)>) -> (r: Vec<(Var, SClosure)>)
    ensures
        senv_view(r@) == senv_view(env@),
    decreases sesize(senv_view(env@), env@.len() as int),
{
    let mut r: Vec<(Var, SClosure)> = Vec::new();
    let n = env.len();
    let mut i: usize = 0;
    while i < n
        invariant
            i <= n,
            n == env.len(),
            r@.len() == i as int,
            forall|j: int| 0 <= j < i ==> senv_view(r@)[j] == senv_view(env@)[j],
        decreases n - i,
    {
        proof {
            lemma_sesize_element(senv_view(env@), i as int, senv_view(env@).len() as int);
            assert(senv_view(env@)[i as int].1 == sclosure_view(env@[i as int].1));
        }
        let name = env[i].0.clone();
        let cl = env[i].1.clone();
        let ghost prevr = r@;
        r.push((name, cl));
        proof {
            assert(forall|j: int| 0 <= j < i ==> senv_view(r@)[j] == senv_view(prevr)[j]);
            assert(senv_view(r@)[i as int] == senv_view(env@)[i as int]);
        }
        i = i + 1;
    }
    proof {
        assert(senv_view(r@) =~= senv_view(env@));
    }
    r
}

impl Clone for SClosure {
    fn clone(&self) -> (res: Self)
        ensures
            res@ == self@,
        decreases scsize(self@),
    {
        let res = SClosure { term: self.term.clone(), env: sclone_env(&self.env) };
        proof {
            assert(res@ == self@);
        }
        res
    }
}

impl SClosure {
    /// Create a closure from a term and an environment.
    pub fn new(term: SLambdaTerm, env: Vec<(Var, SClosure)>) -> (r: Self)
        ensures
            r@ == (SClosureV { term: term@, env: senv_view(env@) }),
    {
        SClosure { term, env }
    }

    /// Apply the environment to the term and return the resulting plain
    /// term.
    pub fn retrieve_term(self) -> (r: SLambdaTerm)
        ensures
            r@ == sretrieve_v(self@),
        decreases scsize(self@),
    {
        let ghost cv = self@;
        let SClosure { term, mut env } = self;
        match term {
            SLambdaTerm::Skip => SLambdaTerm::Skip,
            SLambdaTerm::Variable { name } => {
                if env.len() == 0 {
                    proof {
                        assert(senv_view(env@) =~= Seq::<(Seq<char>, SClosureV)>::empty());
                    }
                    SLambdaTerm::Variable { name }
                } else {
                    let ghost prev = env@;
                    let env_last = env.pop().unwrap();
                    proof {
                        assert(senv_view(prev).last() == (env_last.0@, env_last.1@));
                        assert(senv_view(env@) =~= senv_view(prev).drop_last());
                        lemma_sesize_element(cv.env, cv.env.len() - 1, cv.env.len() as int);
                        lemma_sesize_prefix(senv_view(env@), cv.env, cv.env.len() - 1);
                    }
                    if env_last.0 == name {
                        env_last.1.retrieve_term()
                    } else {
                        let c = SClosure { term: SLambdaTerm::Variable { name }, env };
                        c.retrieve_term()
                    }
                }
            }
            SLambdaTerm::Pop { arg, next } => {
                let selfbind = SClosure {
                    term: SLambdaTerm::Variable { name: arg.clone() },
                    env: Vec::new(),
                };
                proof {
                    assert(senv_view(selfbind.env@) =~= Seq::<(Seq<char>, SClosureV)>::empty());
                    assert(selfbind@ == (SClosureV {
                        term: STermV::Var { name: arg@ },
                        env: Seq::<(Seq<char>, SClosureV)>::empty(),
                    }));
                }
                env.push((arg.clone(), selfbind));
                let c = SClosure { term: *next, env };
                proof {
                    assert(senv_view(c.env@) =~= cv.env.push(
                        (arg@, SClosureV {
                            term: STermV::Var { name: arg@ },
                            env: Seq::<(Seq<char>, SClosureV)>::empty(),
                        }),
                    ));
                    lemma_sesize_prefix(cv.env, senv_view(c.env@), cv.env.len() as int);
                    assert(sesize(senv_view(c.env@), cv.env.len() as int + 1) == sesize(
                        senv_view(c.env@),
                        cv.env.len() as int,
                    ) + 1 + scsize(senv_view(c.env@).last().1));
                    assert(scsize(senv_view(c.env@).last().1) == 1) by {
                        assert(sesize(Seq::<(Seq<char>, SClosureV)>::empty(), 0) == 0);
                    }
                }
                let inner = c.retrieve_term();
                SLambdaTerm::Pop { arg, next: Box::new(inner) }
            }
            SLambdaTerm::Push { term: pterm, next } => {
                let c1 = SClosure { term: *pterm, env: sclone_env(&env) };
                proof {
                    assert(senv_view(c1.env@) == cv.env);
                }
                let r1 = c1.retrieve_term();
                let c2 = SClosure { term: *next, env };
                let r2 = c2.retrieve_term();
                SLambdaTerm::Push { term: Box::new(r1), next: Box::new(r2) }
            }
            SLambdaTerm::Sequence { term: sterm, next } => {
                let c1 = SClosure { term: *sterm, env: sclone_env(&env) };
                proof {
                    assert(senv_view(c1.env@) == cv.env);
                }
                let r1 = c1.retrieve_term();
                let c2 = SClosure { term: *next, env };
                let r2 = c2.retrieve_term();
                SLambdaTerm::Sequence { term: Box::new(r1), next: Box::new(r2) }
            }
        }
    }
}

/// The printed form of an environment entry: the name in quotes, then
/// the closure.
pub open spec fn sentry_dsp(e: (Seq<char>, SClosureV)) -> Seq<char>
    decreases e.1, 1int,
{
    "(\""@ + e.0 + "\", "@ + sclosure_dsp(e.1) + ")"@
}

/// The printed form of the first `n` entries of an environment, newest
/// first, separated by commas.
pub open spec fn senv_dsp(env: Seq<(Seq<char>, SClosureV)>, n: int) -> Seq<char>
    decreases env, n,
{
    if n <= 0 || n > env.len() {
        Seq::empty()
    } else if n == 1 {
        sentry_dsp(env[0])
    } else {
        sentry_dsp(env[n - 1]) + ", "@ + senv_dsp(env, n - 1)
    }
}

/// The printed form of a closure: its term, then its environment,
/// newest binding first.
pub open spec fn sclosure_dsp(c: SClosureV) -> Seq<char>
    decreases c, 0int,
{
    sterm_dsp(c.term) + ", ["@ + senv_dsp(c.env, c.env.len() as int) + "]"@
}

fn sentry_display(e: &(Var, SClosure)) -> (r: String)
    ensures
        r@ == sentry_dsp((e.0@, e.1@)),
    decreases e.1@, 1int,
{
    let mut s = String::from_str("(\"");
    s.append(e.0.as_str());
    s.append("\", ");
    let cd = e.1.display_string();
    s.append(cd.as_str());
    s.append(")");
    proof {
        assert(s@ =~= sentry_dsp((e.0@, e.1@)));
    }
    s
}

fn senv_display(env: &Vec<(Var, SClosure)>, n: usize) -> (r: String)
    requires
        n <= env@.len(),
    ensures
        r@ == senv_dsp(senv_view(env@), n as int),
    decreases senv_view(env@), n as int,
{
    proof {
        assert(senv_view(env@).len() == env@.len());
    }
    if n == 0 {
        let r = String::new();
        proof {
            assert(r@ =~= senv_dsp(senv_view(env@), 0));
        }
        r
    } else if n == 1 {
        proof {
            assert(senv_view(env@)[0] == (env@[0].0@, env@[0].1@));
            assert(decreases_to!(senv_view(env@) => senv_view(env@)[0]));
            assert(decreases_to!(senv_view(env@)[0] => senv_view(env@)[0].1));
        }
        let r = sentry_display(&env[0]);
        r
    } else {
        proof {
            assert(senv_view(env@)[n - 1] == (env@[n - 1].0@, env@[n - 1].1@));
            assert(decreases_to!(senv_view(env@) => senv_view(env@)[n - 1]));
            assert(decreases_to!(senv_view(env@)[n - 1] => senv_view(env@)[n - 1].1));
        }
        let mut s = sentry_display(&env[n - 1]);
        s.append(", ");
        let rest = senv_display(env, n - 1);
        s.append(rest.as_str());
        proof {
            assert(s@ =~= senv_dsp(senv_view(env@), n as int));
        }
        s
    }
}

impl SClosure {
    /// The printed form of the closure.
    pub fn display_string(&self) -> (r: String)
        ensures
            r@ == sclosure_dsp(self@),
        decreases self@, 0int,
    {
        let mut s = self.term.display_string();
        s.append(", [");
        proof {
            assert(decreases_to!(self@ => self@.env));
            assert(self@.env == senv_view(self.env@));
        }
        let ed = senv_display(&self.env, self.env.len());
        s.append(ed.as_str());
        s.append("]");
        proof {
            assert(s@ =~= sclosure_dsp(self@));
        }
        s
    }
}

/// The model of a machine state: a focused closure, an argument stack
/// and a continuation stack.
#[verifier::ext_equal]
pub struct SStateV {
    pub closure: SClosureV,
    pub stack: Seq<SClosureV>,
    pub continuation: Seq<SClosureV>,
}

/// A state of the sequential machine.
#[derive(Debug, PartialEq)]
pub struct SState {
    pub closure: SClosure,
    pub stack: Vec<SClosure>,
    pub continuation: Vec<SClosure>,
}

/// The view of a stack of closures.
pub open spec fn sstack_view(s: Seq<SClosure>) -> Seq<SClosureV> {
    s.map_values(|c: SClosure| sclosure_view(c))
}

impl View for SState {
    type V = SStateV;

    open spec fn view(&self) -> SStateV {
        SStateV {
            closure: self.closure@,
            stack: sstack_view(self.stack@),
            continuation: sstack_view(self.continuation@),
        }
    }
}

/// Whether a state is final: the program is `Skip` and no continuation
/// is pending.
pub open spec fn s_final_v(s: SStateV) -> bool {
    s.closure.term is Skip && s.continuation.len() == 0
}

/// Whether a transition from the state succeeds: a variable needs a
/// binding to look up and a pop needs an argument on the stack.
pub open spec fn s_step_ok(s: SStateV) -> bool {
    match s.closure.term {
        STermV::Var { .. } => s.closure.env.len() > 0,
        STermV::Pop { .. } => s.stack.len() > 0,
        _ => true,
    }
}

/// One transition of the machine.  Final states are left unchanged;
/// `s_step_ok` says when the transition exists.
pub open spec fn s_step_v(s: SStateV) -> SStateV {
    if s_final_v(s) {
        s
    } else {
        match s.closure.term {
            STermV::Skip => SStateV {
                closure: s.continuation.last(),
                stack: s.stack,
                continuation: s.continuation.drop_last(),
            },
            STermV::Var { name } => {
                if s.closure.env.last().0 == name {
                    SStateV {
                        closure: s.closure.env.last().1,
                        stack: s.stack,
                        continuation: s.continuation,
                    }
                } else {
                    SStateV {
                        closure: SClosureV { term: s.closure.term, env: s.closure.env.drop_last() },
                        stack: s.stack,
                        continuation: s.continuation,
                    }
                }
            }
            STermV::Pop { arg, next } => SStateV {
                closure: SClosureV {
                    term: *next,
                    env: s.closure.env.push((arg, s.stack.last())),
                },
                stack: s.stack.drop_last(),
                continuation: s.continuation,
            },
            STermV::Push { term, next } => SStateV {
                closure: SClosureV { term: *next, env: s.closure.env },
                stack: s.stack.push(SClosureV { term: *term, env: s.closure.env }),
                continuation: s.continuation,
            },
            STermV::Sequence { term, next } => SStateV {
                closure: SClosureV { term: *term, env: s.closure.env },
                stack: s.stack,
                continuation: s.continuation.push(
                    SClosureV { term: *next, env: s.closure.env },
                ),
            },
        }
    }
}

/// Among the states that can make a transition, the machine is never
/// stuck: the final states are exactly the fixed points of the
/// transition function.
pub proof fn lemma_s_step_fixpoint(s: SStateV)
    requires
        s_step_ok(s),
    ensures
        s_final_v(s) <==> s_step_v(s) == s,
{
    if !s_final_v(s) {
        match s.closure.term {
            STermV::Skip => {
                assert(s_step_v(s).continuation.len() + 1 == s.continuation.len());
            }
            STermV::Var { name } => {
                let last = s.closure.env.last();
                if last.0 == name {
                    if s_step_v(s) == s {
                        lemma_sesize_element(s.closure.env, s.closure.env.len() - 1, s.closure.env.len() as int);
                        assert(scsize(last.1) == scsize(s.closure));
                        assert(scsize(last.1) < sesize(s.closure.env, s.closure.env.len() as int));
                        assert(false);
                    }
                } else {
                    assert(s_step_v(s).closure.env.len() + 1 == s.closure.env.len());
                }
            }
            STermV::Pop { .. } => {
                assert(s_step_v(s).stack.len() + 1 == s.stack.len());
            }
            STermV::Push { .. } => {
                assert(s_step_v(s).stack.len() == s.stack.len() + 1);
            }
            STermV::Sequence { .. } => {
                assert(s_step_v(s).continuation.len() == s.continuation.len() + 1);
            }
        }
    }
}

/// The message reported when a transition fails.
pub open spec fn s_err_dsp(s: SStateV) -> Seq<char> {
    if s.closure.term is Pop {
        "Term cannot be executed. Pop action encountered but execution stack is empty."@
    } else {
        "Term cannot be executed. Variable lookup encountered but environment is empty."@
    }
}

/// The read-back of a state: the terms of the argument stack, bottom
/// first, each with its environment applied.
pub open spec fn s_readback_v(s: SStateV) -> Seq<STermV> {
    s.stack.map_values(|c: SClosureV| sretrieve_v(c))
}

/// The view of a list of terms.
pub open spec fn sterms_view(s: Seq<SLambdaTerm>) -> Seq<STermV> {
    s.map_values(|t: SLambdaTerm| sterm_view(t))
}

/// The result of running the machine with a bounded allowance of steps:
/// the read-back of the first final state reached, an empty list when a
/// transition fails, or `None` when the allowance runs out first.
pub open spec fn s_run_v(s: SStateV, fuel: nat) -> Option<Seq<STermV>>
    decreases fuel,
{
    if s_final_v(s) {
        Option::Some(s_readback_v(s))
    } else if !s_step_ok(s) {
        Option::Some(Seq::<STermV>::empty())
    } else if fuel == 0 {
        Option::None
    } else {
        s_run_v(s_step_v(s), (fuel - 1) as nat)
    }
}

/// The printed form of the top `n` closures of a stack, top first, each
/// in parentheses, separated by commas.
pub open spec fn sclist_dsp(stack: Seq<SClosureV>, n: int) -> Seq<char>
    decreases stack, n,
{
    if n <= 0 || n > stack.len() {
        Seq::empty()
    } else if n == 1 {
        "("@ + sclosure_dsp(stack[0]) + ")"@
    } else {
        "("@ + sclosure_dsp(stack[n - 1]) + ")"@ + ", "@ + sclist_dsp(stack, n - 1)
    }
}

/// The printed form of a state: the closure, the argument stack and the
/// continuation stack, each top first.
pub open spec fn sstate_dsp(s: SStateV) -> Seq<char> {
    "("@ + sclosure_dsp(s.closure) + ", "@ + (if s.stack.len() == 0 {
        "[], "@
    } else {
        "["@ + sclist_dsp(s.stack, s.stack.len() as int) + "], "@
    }) + (if s.continuation.len() == 0 {
        "[])"@
    } else {
        "["@ + sclist_dsp(s.continuation, s.continuation.len() as int) + "])"@
    })
}

fn sclist_display(stack: &Vec<SClosure>, n: usize) -> (r: String)
    requires
        n <= stack@.len(),
    ensures
        r@ == sclist_dsp(sstack_view(stack@), n as int),
    decreases n,
{
    proof {
        assert(sstack_view(stack@).len() == stack@.len());
    }
    if n == 0 {
        let r = String::new();
        proof {
            assert(r@ =~= sclist_dsp(sstack_view(stack@), 0));
        }
        r
    } else if n == 1 {
        let mut s = String::from_str("(");
        let cd = stack[0].display_string();
        s.append(cd.as_str());
        s.append(")");
        proof {
            assert(sstack_view(stack@)[0] == stack@[0]@);
            assert(s@ =~= sclist_dsp(sstack_view(stack@), 1));
        }
        s
    } else {
        let mut s = String::from_str("(");
        let cd = stack[n - 1].display_string();
        s.append(cd.as_str());
        s.append(")");
        s.append(", ");
        let rest = sclist_display(stack, n - 1);
        s.append(rest.as_str());
        proof {
            assert(sstack_view(stack@)[n - 1] == stack@[n - 1]@);
            assert(s@ =~= sclist_dsp(sstack_view(stack@), n as int));
        }
        s
    }
}

impl SState {
    /// The printed form of the state.
    pub fn display_string(&self) -> (r: String)
        ensures
            r@ == sstate_dsp(self@),
    {
        let mut s = String::from_str("(");
        let cd = self.closure.display_string();
        s.append(cd.as_str());
        s.append(", ");
        if self.stack.len() == 0 {
            s.append("[], ");
        } else {
            s.append("[");
            let sd = sclist_display(&self.stack, self.stack.len());
            s.append(sd.as_str());
            s.append("], ");
        }
        if self.continuation.len() == 0 {
            s.append("[])");
        } else {
            s.append("[");
            let kd = sclist_display(&self.continuation, self.continuation.len());
            s.append(kd.as_str());
            s.append("])");
        }
        proof {
            assert(s@ =~= sstate_dsp(self@));
        }
        s
    }

    /// Create a state from a closure, an argument stack and a
    /// continuation stack.
    pub fn new(closure: SClosure, stack: Vec<SClosure>, continuation: Vec<SClosure>) -> (r: Self)
        ensures
            r@ == (SStateV {
                closure: closure@,
                stack: sstack_view(stack@),
                continuation: sstack_view(continuation@),
            }),
    {
        SState { closure, stack, continuation }
    }

    /// Create a start state from a term and an argument stack: an empty
    /// environment and an empty continuation.
    pub fn start(t: SLambdaTerm, s: Vec<SClosure>) -> (r: Self)
        ensures
            r@ == (SStateV {
                closure: SClosureV { term: t@, env: Seq::<(Seq<char>, SClosureV)>::empty() },
                stack: sstack_view(s@),
                continuation: Seq::<SClosureV>::empty(),
            }),
    {
        let r = SState {
            closure: SClosure { term: t, env: Vec::new() },
            stack: s,
            continuation: Vec::new(),
        };
        proof {
            assert(senv_view(r.closure.env@) =~= Seq::<(Seq<char>, SClosureV)>::empty());
            assert(sstack_view(r.continuation@) =~= Seq::<SClosureV>::empty());
        }
        r
    }

    /// Whether the state is final, i.e. computation is complete.
    pub fn final_(&self) -> (b: bool)
        ensures
            b == s_final_v(self@),
    {
        match &self.closure.term {
            SLambdaTerm::Skip => self.continuation.len() == 0,
            _ => false,
        }
    }

    /// Whether a transition from the state succeeds: a variable needs a
    /// binding and a pop needs an argument.
    pub fn can_step(&self) -> (b: bool)
        ensures
            b == s_step_ok(self@),
    {
        match &self.closure.term {
            SLambdaTerm::Variable { .. } => self.closure.env.len() > 0,
            SLambdaTerm::Pop { .. } => self.stack.len() > 0,
            _ => true,
        }
    }

    /// Perform one transition in place.  Returns an error, and leaves the
    /// state unchanged, when the program cannot make a step: a pop from
    /// an empty argument stack, or a variable over an empty environment.
    pub fn step(&mut self) -> (r: Result<(), String>)
        ensures
            r is Ok <==> s_step_ok(old(self)@),
            r is Ok ==> final(self)@ == s_step_v(old(self)@),
            r is Err ==> final(self)@ == old(self)@,
            r matches Result::Err(m) ==> m@ == s_err_dsp(old(self)@),
    {
        let t = self.closure.term.clone();
        match t {
            SLambdaTerm::Skip => {
                if !self.final_() {
                    let ghost prev = self.continuation@;
                    let k = self.continuation.pop().unwrap();
                    proof {
                        assert(sstack_view(prev).last() == k@);
                        assert(sstack_view(self.continuation@) =~= sstack_view(
                            prev,
                        ).drop_last());
                    }
                    self.closure = k;
                }
                Result::Ok(())
            }
            SLambdaTerm::Variable { name } => {
                if self.closure.env.len() == 0 {
                    return Result::Err(
                        "Term cannot be executed. Variable lookup encountered but environment is empty.".to_owned(),
                    );
                }
                let ghost prev = self.closure.env@;
                let env_last = self.closure.env.pop().unwrap();
                proof {
                    assert(senv_view(prev).last() == (env_last.0@, env_last.1@));
                    assert(senv_view(self.closure.env@) =~= senv_view(prev).drop_last());
                }
                if env_last.0 == name {
                    self.closure = env_last.1;
                }
                Result::Ok(())
            }
            SLambdaTerm::Pop { arg, next } => {
                if self.stack.len() == 0 {
                    return Result::Err(
                        "Term cannot be executed. Pop action encountered but execution stack is empty.".to_owned(),
                    );
                }
                let ghost prevstack = self.stack@;
                let stack_last = self.stack.pop().unwrap();
                proof {
                    assert(sstack_view(prevstack).last() == stack_last@);
                    assert(sstack_view(self.stack@) =~= sstack_view(prevstack).drop_last());
                }
                let ghost prevenv = self.closure.env@;
                self.closure.term = *next;
                self.closure.env.push((arg, stack_last));
                proof {
                    assert(senv_view(self.closure.env@) =~= senv_view(prevenv).push(
                        (old(self)@.closure.term->Pop_arg, sstack_view(prevstack).last()),
                    ));
                }
                Result::Ok(())
            }
            SLambdaTerm::Push { term, next } => {
                self.closure.term = *next;
                let pushed = SClosure { term: *term, env: sclone_env(&self.closure.env) };
                let ghost prevstack = self.stack@;
                self.stack.push(pushed);
                proof {
                    assert(sstack_view(self.stack@) =~= sstack_view(prevstack).push(
                        SClosureV {
                            term: *old(self)@.closure.term->Push_term,
                            env: old(self)@.closure.env,
                        },
                    ));
                }
                Result::Ok(())
            }
            SLambdaTerm::Sequence { term, next } => {
                let k = SClosure { term: *next, env: sclone_env(&self.closure.env) };
                let ghost prevk = self.continuation@;
                self.continuation.push(k);
                self.closure.term = *term;
                proof {
                    assert(sstack_view(self.continuation@) =~= sstack_view(prevk).push(
                        SClosureV {
                            term: *old(self)@.closure.term->Sequence_next,
                            env: old(self)@.closure.env,
                        },
                    ));
                }
                Result::Ok(())
            }
        }
    }

    /// Read the state back: the terms of the argument stack, bottom
    /// first, each with its environment applied.
    pub fn readback(&self) -> (r: Vec<SLambdaTerm>)
        ensures
            sterms_view(r@) == s_readback_v(self@),
    {
        let mut res: Vec<SLambdaTerm> = Vec::new();
        let mut i: usize = 0;
        while i < self.stack.len()
            invariant
                i <= self.stack.len(),
                res@.len() == i as int,
                forall|j: int| 0 <= j < i ==> sterms_view(res@)[j] == s_readback_v(self@)[j],
            decreases self.stack.len() - i,
        {
            let c = self.stack[i].clone();
            let t = c.retrieve_term();
            let ghost prevres = res@;
            res.push(t);
            proof {
                assert(forall|j: int|
                    0 <= j < i ==> sterms_view(res@)[j] == sterms_view(prevres)[j]);
                assert(sstack_view(self.stack@)[i as int] == self.stack@[i as int]@);
                assert(sterms_view(res@)[i as int] == s_readback_v(self@)[i as int]);
            }
            i = i + 1;
        }
        proof {
            assert(sterms_view(res@) =~= s_readback_v(self@));
        }
        res
    }

    /// Run a term on the machine for at most `max_steps` transitions.
    /// Returns the read-back of the final state when one is reached, an
    /// empty list when a transition fails, and `None` when the allowance
    /// of steps runs out first.
    pub fn run(term: SLambdaTerm, max_steps: usize) -> (r: Option<Vec<SLambdaTerm>>)
        ensures
            r is Some <==> s_run_v(
                SStateV {
                    closure: SClosureV {
                        term: term@,
                        env: Seq::<(Seq<char>, SClosureV)>::empty(),
                    },
                    stack: Seq::<SClosureV>::empty(),
                    continuation: Seq::<SClosureV>::empty(),
                },
                max_steps as nat,
            ) is Some,
            r matches Option::Some(ts) ==> s_run_v(
                SStateV {
                    closure: SClosureV {
                        term: term@,
                        env: Seq::<(Seq<char>, SClosureV)>::empty(),
                    },
                    stack: Seq::<SClosureV>::empty(),
                    continuation: Seq::<SClosureV>::empty(),
                },
                max_steps as nat,
            ) == Option::Some(sterms_view(ts@)),
    {
        let ghost s0 = SStateV {
            closure: SClosureV { term: term@, env: Seq::<(Seq<char>, SClosureV)>::empty() },
            stack: Seq::<SClosureV>::empty(),
            continuation: Seq::<SClosureV>::empty(),
        };
        let mut s = SState::start(term, Vec::new());
        proof {
            assert(sstack_view(Seq::<SClosure>::empty()) =~= Seq::<SClosureV>::empty());
        }
        let mut fuel = max_steps;
        let mut failed = false;
        let mut ran_out = false;
        loop
            invariant_except_break
                !failed,
                !ran_out,
                s_run_v(s@, fuel as nat) == s_run_v(s0, max_steps as nat),
            ensures
                ran_out ==> s_run_v(s0, max_steps as nat) is None,
                failed ==> s_run_v(s0, max_steps as nat) == Option::Some(Seq::<STermV>::empty()),
                !ran_out && !failed ==> s_final_v(s@) && s_run_v(s0, max_steps as nat)
                    == Option::Some(s_readback_v(s@)),
            decreases fuel,
        {
            if s.final_() {
                break ;
            }
            if !s.can_step() {
                failed = true;
                break ;
            }
            if fuel == 0 {
                proof {
                    assert(s_run_v(s@, 0) is None);
                }
                ran_out = true;
                break ;
            }
            let ghost pre = s@;
            let outcome = s.step();
            proof {
                assert(outcome is Ok);
                assert(s_run_v(pre, fuel as nat) == s_run_v(s@, (fuel - 1) as nat));
            }
            fuel = fuel - 1;
        }
        if ran_out {
            return Option::None;
        }
        if failed {
            let empty: Vec<SLambdaTerm> = Vec::new();
            proof {
                assert(sterms_view(empty@) =~= Seq::<STermV>::empty());
            }
            return Option::Some(empty);
        }
        let res = s.readback();
        Option::Some(res)
    }
}

} // verus!
