//! The sequential machine over named locations: the sequential calculus
//! whose pushes and pops act on named stacks held in a memory, without
//! forks or channels.  Terms and closures share the models of the
//! concurrent machine; a term of this machine never holds a fork.

use crate::fcmc::cretrieve_v;
use crate::fcmc::lemma_cesize_element;
use crate::fcmc::lemma_cesize_prefix;
use crate::fcmc::loc_index;
use crate::fcmc::CClosureV;
use crate::fcmc::CTermV;
use crate::fcmc::LocMapV;
use crate::fcmc::ccsize;
use crate::fcmc::cesize;
use crate::lambdaterm::Var;
use crate::sam::s_final_v;
use crate::sam::s_readback_v;
use crate::sam::s_run_v;
use crate::sam::s_step_ok;
use crate::sam::s_step_v;
use crate::sam::sretrieve_v;
use crate::sam::SStateV;
use crate::sam::SClosureV;
use crate::sam::STermV;
use vstd::prelude::*;

verus! {

/// A term of the sequential location calculus.
#[derive(Debug, PartialEq)]
pub enum FmcTerm {
    Skip,
    Variable { name: Var },
    Pop { location_id: Var, arg: Var, next: Box<FmcTerm> },
    Push { term: Box<FmcTerm>, location_id: Var, next: Box<FmcTerm> },
    Sequence { term: Box<FmcTerm>, next: Box<FmcTerm> },
}

pub open spec fn fterm_view(t: FmcTerm) -> CTermV
    decreases t,
{
    match t {
        FmcTerm::Skip => CTermV::Skip,
        FmcTerm::Variable { name } => CTermV::Var { name: name@ },
        FmcTerm::Pop { location_id, arg, next } => CTermV::Pop {
            location: location_id@,
            arg: arg@,
            next: Box::new(fterm_view(*next)),
        },
        FmcTerm::Push { term, location_id, next } => CTermV::Push {
            term: Box::new(fterm_view(*term)),
            location: location_id@,
            next: Box::new(fterm_view(*next)),
        },
        FmcTerm::Sequence { term, next } => CTermV::Sequence {
            term: Box::new(fterm_view(*term)),
            next: Box::new(fterm_view(*next)),
        },
    }
}

impl View for FmcTerm {
    type V = CTermV;

    open spec fn view(&self) -> CTermV {
        fterm_view(*self)
    }
}

impl Clone for FmcTerm {
    fn clone(&self) -> (res: Self)
        ensures
            res@ == self@,
        decreases *self,
    {
        match self {
            FmcTerm::Skip => FmcTerm::Skip,
            FmcTerm::Variable { name } => FmcTerm::Variable { name: name.clone() },
            FmcTerm::Pop { location_id, arg, next } => FmcTerm::Pop {
                location_id: location_id.clone(),
                arg: arg.clone(),
                next: Box::new((**next).clone()),
            },
            FmcTerm::Push { term, location_id, next } => FmcTerm::Push {
                term: Box::new((**term).clone()),
                location_id: location_id.clone(),
                next: Box::new((**next).clone()),
            },
            FmcTerm::Sequence { term, next } => FmcTerm::Sequence {
                term: Box::new((**term).clone()),
                next: Box::new((**next).clone()),
            },
        }
    }
}

impl FmcTerm {
    /// Turn a `&str` into a `Variable`.
    pub fn new_variable(name: &str) -> (r: Self)
        ensures
            r@ == (CTermV::Var { name: name@ }),
    {
        FmcTerm::Variable { name: name.to_owned() }
    }

    /// Turn a location, a `&str` and a term into a `Pop`.
    pub fn new_pop(location: Var, arg: &str, next: FmcTerm) -> (r: Self)
        ensures
            r@ == (CTermV::Pop { location: location@, arg: arg@, next: Box::new(next@) }),
    {
        FmcTerm::Pop { location_id: location, arg: arg.to_owned(), next: Box::new(next) }
    }

    /// Turn two terms and a location into a `Push`.
    pub fn new_push(term: FmcTerm, location: Var, next: FmcTerm) -> (r: Self)
        ensures
            r@ == (CTermV::Push {
                term: Box::new(term@),
                location: location@,
                next: Box::new(next@),
            }),
    {
        FmcTerm::Push { term: Box::new(term), location_id: location, next: Box::new(next) }
    }

    /// Turn two terms into a `Seq`.
    pub fn new_seq(term: FmcTerm, next: FmcTerm) -> (r: Self)
        ensures
            r@ == (CTermV::Sequence { term: Box::new(term@), next: Box::new(next@) }),
    {
        FmcTerm::Sequence { term: Box::new(term), next: Box::new(next) }
    }
}

impl FmcTerm {
    /// The printed form of the term.
    pub fn display_string(&self) -> (r: String)
        ensures
            r@ == crate::fcmc::cterm_dsp(self@),
        decreases *self,
    {
        match self {
            FmcTerm::Skip => String::from_str("*"),
            FmcTerm::Variable { name } => name.clone(),
            FmcTerm::Pop { location_id, arg, next } => {
                let mut s = location_id.clone();
                s.append("<");
                s.append(arg.as_str());
                if matches!(**next, FmcTerm::Skip) {
                    s.append(">");
                } else {
                    s.append(">.");
                    let nd = next.display_string();
                    s.append(nd.as_str());
                }
                proof {
                    reveal_with_fuel(fterm_view, 2);
                    assert(s@ =~= crate::fcmc::cterm_dsp(self@));
                }
                s
            }
            FmcTerm::Push { term, location_id, next } => {
                let mut s = String::from_str("[");
                let td = term.display_string();
                s.append(td.as_str());
                s.append("]");
                s.append(location_id.as_str());
                if !matches!(**next, FmcTerm::Skip) {
                    s.append(".");
                    let nd = next.display_string();
                    s.append(nd.as_str());
                }
                proof {
                    reveal_with_fuel(fterm_view, 2);
                    assert(s@ =~= crate::fcmc::cterm_dsp(self@));
                }
                s
            }
            FmcTerm::Sequence { term, next } => {
                let mut s = term.display_string();
                if !matches!(**next, FmcTerm::Skip) {
                    s.append(";");
                    let nd = next.display_string();
                    s.append(nd.as_str());
                }
                proof {
                    reveal_with_fuel(fterm_view, 2);
                    assert(s@ =~= crate::fcmc::cterm_dsp(self@));
                }
                s
            }
        }
    }
}

/// A closure of the sequential location machine.
#[derive(Debug, PartialEq)]
pub struct FmcClosure {
    pub term: FmcTerm,
    pub env: Vec<(Var, FmcClosure)>,
}

/// The view of an environment.
pub open spec fn fenv_view(env: Seq<(Var, FmcClosure)>) -> Seq<(Seq<char>, CClosureV)>
    decreases env,
{
    Seq::new(
        env.len(),
        |i: int|
            if 0 <= i < env.len() {
                (env[i].0@, fclosure_view(env[i].1))
            } else {
                (Seq::<char>::empty(), CClosureV { term: CTermV::Skip, env: Seq::empty() })
            },
    )
}

pub open spec fn fclosure_view(c: FmcClosure) -> CClosureV
    decreases c,
{
    CClosureV { term: fterm_view(c.term), env: fenv_view(c.env@) }
}

impl View for FmcClosure {
    type V = CClosureV;

    open spec fn view(&self) -> CClosureV {
        fclosure_view(*self)
    }
}

/// Clone an environment, preserving its view.
fn fclone_env(env: &Vec<(Var, FmcClosure)>) -> (r: Vec<(Var, FmcClosure)>)
    ensures
        fenv_view(r@) == fenv_view(env@),
    decreases cesize(fenv_view(env@), env@.len() as int),
{
    let mut r: Vec<(Var, FmcClosure)> = Vec::new();
    let n = env.len();
    let mut i: usize = 0;
    while i < n
        invariant
            i <= n,
            n == env.len(),
            r@.len() == i as int,
            forall|j: int| 0 <= j < i ==> fenv_view(r@)[j] == fenv_view(env@)[j],
        decreases n - i,
    {
        proof {
            lemma_cesize_element(fenv_view(env@), i as int, fenv_view(env@).len() as int);
            assert(fenv_view(env@)[i as int].1 == fclosure_view(env@[i as int].1));
        }
        let name = env[i].0.clone();
        let cl = env[i].1.clone();
        let ghost prevr = r@;
        r.push((name, cl));
        proof {
            assert(forall|j: int| 0 <= j < i ==> fenv_view(r@)[j] == fenv_view(prevr)[j]);
            assert(fenv_view(r@)[i as int] == fenv_view(env@)[i as int]);
        }
        i = i + 1;
    }
    proof {
        assert(fenv_view(r@) =~= fenv_view(env@));
    }
    r
}

fn fentry_display(e: &(Var, FmcClosure)) -> (r: String)
    ensures
        r@ == crate::fcmc::centry_dsp((e.0@, e.1@)),
    decreases e.1@, 1int,
{
    let mut s = String::from_str("(\"");
    s.append(e.0.as_str());
    s.append("\", ");
    let cd = e.1.display_string();
    s.append(cd.as_str());
    s.append(")");
    proof {
        assert(s@ =~= crate::fcmc::centry_dsp((e.0@, e.1@)));
    }
    s
}

fn fenv_display(env: &Vec<(Var, FmcClosure)>, n: usize) -> (r: String)
    requires
        n <= env@.len(),
    ensures
        r@ == crate::fcmc::cenv_dsp(fenv_view(env@), n as int),
    decreases fenv_view(env@), n as int,
{
    proof {
        assert(fenv_view(env@).len() == env@.len());
    }
    if n == 0 {
        let r = String::new();
        proof {
            assert(r@ =~= crate::fcmc::cenv_dsp(fenv_view(env@), 0));
        }
        r
    } else if n == 1 {
        proof {
            assert(fenv_view(env@)[0] == (env@[0].0@, env@[0].1@));
            assert(decreases_to!(fenv_view(env@) => fenv_view(env@)[0]));
            assert(decreases_to!(fenv_view(env@)[0] => fenv_view(env@)[0].1));
        }
        let r = fentry_display(&env[0]);
        r
    } else {
        proof {
            assert(fenv_view(env@)[n - 1] == (env@[n - 1].0@, env@[n - 1].1@));
            assert(decreases_to!(fenv_view(env@) => fenv_view(env@)[n - 1]));
            assert(decreases_to!(fenv_view(env@)[n - 1] => fenv_view(env@)[n - 1].1));
        }
        let mut s = fentry_display(&env[n - 1]);
        s.append(", ");
        let rest = fenv_display(env, n - 1);
        s.append(rest.as_str());
        proof {
            assert(s@ =~= crate::fcmc::cenv_dsp(fenv_view(env@), n as int));
        }
        s
    }
}

impl FmcClosure {
    /// The printed form of the closure.
    pub fn display_string(&self) -> (r: String)
        ensures
            r@ == crate::fcmc::cclosure_dsp(self@),
        decreases self@, 0int,
    {
        let mut s = self.term.display_string();
        s.append(", [");
        proof {
            assert(decreases_to!(self@ => self@.env));
            assert(self@.env == fenv_view(self.env@));
        }
        let ed = fenv_display(&self.env, self.env.len());
        s.append(ed.as_str());
        s.append("]");
        proof {
            assert(s@ =~= crate::fcmc::cclosure_dsp(self@));
        }
        s
    }
}

impl Clone for FmcClosure {
    fn clone(&self) -> (res: Self)
        ensures
            res@ == self@,
        decreases ccsize(self@),
    {
        let res = FmcClosure { term: self.term.clone(), env: fclone_env(&self.env) };
        proof {
            assert(res@ == self@);
        }
        res
    }
}

impl FmcClosure {
    /// Create a closure from a term and an environment.
    pub fn new(term: FmcTerm, env: Vec<(Var, FmcClosure)>) -> (r: Self)
        ensures
            r@ == (CClosureV { term: term@, env: fenv_view(env@) }),
    {
        FmcClosure { term, env }
    }

    /// Apply the environment to the term and return the resulting plain
    /// term.
    pub fn retrieve_term(self) -> (r: FmcTerm)
        ensures
            r@ == cretrieve_v(self@),
        decreases ccsize(self@),
    {
        let ghost cv = self@;
        let FmcClosure { term, mut env } = self;
        match term {
            FmcTerm::Skip => FmcTerm::Skip,
            FmcTerm::Variable { name } => {
                if env.len() == 0 {
                    proof {
                        assert(fenv_view(env@) =~= Seq::<(Seq<char>, CClosureV)>::empty());
                    }
                    FmcTerm::Variable { name }
                } else {
                    let ghost prev = env@;
                    let env_last = env.pop().unwrap();
                    proof {
                        assert(fenv_view(prev).last() == (env_last.0@, env_last.1@));
                        assert(fenv_view(env@) =~= fenv_view(prev).drop_last());
                        lemma_cesize_element(cv.env, cv.env.len() - 1, cv.env.len() as int);
                        lemma_cesize_prefix(fenv_view(env@), cv.env, cv.env.len() - 1);
                    }
                    if env_last.0 == name {
                        env_last.1.retrieve_term()
                    } else {
                        let c = FmcClosure { term: FmcTerm::Variable { name }, env };
                        c.retrieve_term()
                    }
                }
            }
            FmcTerm::Pop { location_id, arg, next } => {
                let selfbind = FmcClosure {
                    term: FmcTerm::Variable { name: arg.clone() },
                    env: Vec::new(),
                };
                proof {
                    assert(fenv_view(selfbind.env@) =~= Seq::<(Seq<char>, CClosureV)>::empty());
                    assert(selfbind@ == (CClosureV {
                        term: CTermV::Var { name: arg@ },
                        env: Seq::<(Seq<char>, CClosureV)>::empty(),
                    }));
                }
                env.push((arg.clone(), selfbind));
                let c = FmcClosure { term: *next, env };
                proof {
                    assert(fenv_view(c.env@) =~= cv.env.push(
                        (arg@, CClosureV {
                            term: CTermV::Var { name: arg@ },
                            env: Seq::<(Seq<char>, CClosureV)>::empty(),
                        }),
                    ));
                    lemma_cesize_prefix(cv.env, fenv_view(c.env@), cv.env.len() as int);
                    assert(cesize(fenv_view(c.env@), cv.env.len() as int + 1) == cesize(
                        fenv_view(c.env@),
                        cv.env.len() as int,
                    ) + 1 + ccsize(fenv_view(c.env@).last().1));
                    assert(ccsize(fenv_view(c.env@).last().1) == 1) by {
                        assert(cesize(Seq::<(Seq<char>, CClosureV)>::empty(), 0) == 0);
                    }
                }
                let inner = c.retrieve_term();
                FmcTerm::Pop { location_id, arg, next: Box::new(inner) }
            }
            FmcTerm::Push { term: pterm, location_id, next } => {
                let c1 = FmcClosure { term: *pterm, env: fclone_env(&env) };
                proof {
                    assert(fenv_view(c1.env@) == cv.env);
                }
                let r1 = c1.retrieve_term();
                let c2 = FmcClosure { term: *next, env };
                let r2 = c2.retrieve_term();
                FmcTerm::Push { term: Box::new(r1), location_id, next: Box::new(r2) }
            }
            FmcTerm::Sequence { term: sterm, next } => {
                let c1 = FmcClosure { term: *sterm, env: fclone_env(&env) };
                proof {
                    assert(fenv_view(c1.env@) == cv.env);
                }
                let r1 = c1.retrieve_term();
                let c2 = FmcClosure { term: *next, env };
                let r2 = c2.retrieve_term();
                FmcTerm::Sequence { term: Box::new(r1), next: Box::new(r2) }
            }
        }
    }
}

/// A memory of named stacks.
pub type FLocMap = Vec<(Var, Vec<FmcClosure>)>;

/// The view of a queue of closures.
pub open spec fn fqueue_view(q: Seq<FmcClosure>) -> Seq<CClosureV> {
    q.map_values(|c: FmcClosure| fclosure_view(c))
}

/// The view of a memory.
pub open spec fn fmap_view(m: Seq<(Var, Vec<FmcClosure>)>) -> LocMapV {
    m.map_values(|e: (Var, Vec<FmcClosure>)| (e.0@, fqueue_view(e.1@)))
}

/// Find the first location with the given name.
fn ffind_loc(m: &FLocMap, name: &String) -> (r: Option<usize>)
    ensures
        r matches Option::Some(i) ==> i < m@.len() && loc_index(fmap_view(m@), name@) == i as int,
        r is None ==> loc_index(fmap_view(m@), name@) < 0,
{
    let mut i: usize = 0;
    while i < m.len()
        invariant
            i <= m@.len(),
            forall|j: int| 0 <= j < i ==> fmap_view(m@)[j].0 != name@,
        decreases m@.len() - i,
    {
        let e = &m[i];
        if e.0 == *name {
            proof {
                crate::fcmc::lemma_loc_index(fmap_view(m@), name@);
                assert(fmap_view(m@)[i as int].0 == name@);
            }
            return Option::Some(i);
        }
        i = i + 1;
    }
    proof {
        crate::fcmc::lemma_loc_index(fmap_view(m@), name@);
        if loc_index(fmap_view(m@), name@) >= 0 {
            assert(false);
        }
    }
    Option::None
}

/// The model of a machine state: a focused closure, a memory of named
/// stacks and a continuation stack.
#[verifier::ext_equal]
pub struct FmcStateV {
    pub closure: CClosureV,
    pub memory: LocMapV,
    pub continuation: Seq<CClosureV>,
}

/// A state of the sequential location machine.
#[derive(Debug)]
pub struct FmcState {
    pub closure: FmcClosure,
    pub memory: FLocMap,
    pub continuation: Vec<FmcClosure>,
}

impl View for FmcState {
    type V = FmcStateV;

    open spec fn view(&self) -> FmcStateV {
        FmcStateV {
            closure: self.closure@,
            memory: fmap_view(self.memory@),
            continuation: fqueue_view(self.continuation@),
        }
    }
}

/// Whether a state is final: the program is `Skip` and no continuation
/// is pending.
pub open spec fn fm_final_v(s: FmcStateV) -> bool {
    s.closure.term is Skip && s.continuation.len() == 0
}

/// Whether a transition from the state succeeds: a variable needs a
/// binding to look up, a pop needs an existing, non-empty location.
pub open spec fn fm_step_ok(s: FmcStateV) -> bool {
    match s.closure.term {
        CTermV::Var { .. } => s.closure.env.len() > 0,
        CTermV::Pop { location, .. } => loc_index(s.memory, location) >= 0 && s.memory[loc_index(
            s.memory,
            location,
        )].1.len() > 0,
        _ => true,
    }
}

/// One transition of the machine.  Final states are left unchanged;
/// `fm_step_ok` says when the transition exists.
pub open spec fn fm_step_v(s: FmcStateV) -> FmcStateV {
    if fm_final_v(s) {
        s
    } else {
        match s.closure.term {
            CTermV::Skip => FmcStateV {
                closure: s.continuation.last(),
                memory: s.memory,
                continuation: s.continuation.drop_last(),
            },
            CTermV::Var { name } => FmcStateV {
                closure: if s.closure.env.last().0 == name {
                    s.closure.env.last().1
                } else {
                    CClosureV { term: s.closure.term, env: s.closure.env.drop_last() }
                },
                memory: s.memory,
                continuation: s.continuation,
            },
            CTermV::Pop { location, arg, next } => {
                let mi = loc_index(s.memory, location);
                FmcStateV {
                    closure: CClosureV {
                        term: *next,
                        env: s.closure.env.push((arg, s.memory[mi].1.last())),
                    },
                    memory: s.memory.update(mi, (s.memory[mi].0, s.memory[mi].1.drop_last())),
                    continuation: s.continuation,
                }
            }
            CTermV::Push { term, location, next } => {
                let cl = CClosureV { term: *term, env: s.closure.env };
                let mi = loc_index(s.memory, location);
                FmcStateV {
                    closure: CClosureV { term: *next, env: s.closure.env },
                    memory: if mi < 0 {
                        s.memory.push((location, seq![cl]))
                    } else {
                        s.memory.update(mi, (s.memory[mi].0, s.memory[mi].1.push(cl)))
                    },
                    continuation: s.continuation,
                }
            }
            CTermV::Sequence { term, next } => FmcStateV {
                closure: CClosureV { term: *term, env: s.closure.env },
                memory: s.memory,
                continuation: s.continuation.push(
                    CClosureV { term: *next, env: s.closure.env },
                ),
            },
            CTermV::Fork { .. } => s,
        }
    }
}

/// The message reported when a transition fails.
pub open spec fn fm_err_dsp(s: FmcStateV) -> Seq<char> {
    match s.closure.term {
        CTermV::Pop { location, .. } => if loc_index(s.memory, location) < 0 {
            "Specified location doesn't exist"@
        } else {
            "Term cannot be executed. Pop action encountered but location is empty."@
        },
        _ => "Term cannot be executed. Variable lookup encountered but environment is empty."@,
    }
}

/// The read-back of a state: each location of the memory in creation
/// order, its closures in the order they were pushed.
pub open spec fn fm_readback_v(s: FmcStateV) -> Seq<(Seq<char>, CTermV)>
{
    crate::fcmc::rb_chans(s.memory, s.memory.len() as int)
}

/// The view of a list of location/term pairs.
pub open spec fn fpairs_view(s: Seq<(Var, FmcTerm)>) -> Seq<(Seq<char>, CTermV)> {
    s.map_values(|p: (Var, FmcTerm)| (p.0@, fterm_view(p.1)))
}

/// The result of running the machine with a bounded allowance of steps.
pub open spec fn fm_run_v(s: FmcStateV, fuel: nat) -> Option<Seq<(Seq<char>, CTermV)>>
    decreases fuel,
{
    if fm_final_v(s) {
        Option::Some(fm_readback_v(s))
    } else if !fm_step_ok(s) {
        Option::Some(Seq::<(Seq<char>, CTermV)>::empty())
    } else if fuel == 0 {
        Option::None
    } else {
        fm_run_v(fm_step_v(s), (fuel - 1) as nat)
    }
}

/// A sequential term: one with no fork and no channel location.
pub open spec fn seq_term(t: CTermV) -> bool
    decreases t,
{
    match t {
        CTermV::Skip => true,
        CTermV::Var { .. } => true,
        CTermV::Pop { location, next, .. } => !crate::fcmc::is_chan(location) && seq_term(*next),
        CTermV::Push { term, location, next } => !crate::fcmc::is_chan(location) && seq_term(
            *term,
        ) && seq_term(*next),
        CTermV::Sequence { term, next } => seq_term(*term) && seq_term(*next),
        CTermV::Fork { .. } => false,
    }
}

/// A sequential closure: its term and everything in its environment is
/// sequential.
pub open spec fn seq_closure(c: CClosureV) -> bool
    decreases c, 0int,
{
    seq_term(c.term) && seq_env(c.env, c.env.len() as int)
}

/// The first `n` entries of an environment are sequential.
pub open spec fn seq_env(env: Seq<(Seq<char>, CClosureV)>, n: int) -> bool
    decreases env, n,
{
    if n <= 0 || n > env.len() {
        true
    } else {
        seq_env(env, n - 1) && seq_closure(env[n - 1].1)
    }
}

/// `seq_env` is the conjunction of `seq_closure` over the entries.
pub proof fn lemma_seq_env_iff(env: Seq<(Seq<char>, CClosureV)>, n: int)
    requires
        n <= env.len(),
    ensures
        seq_env(env, n) <==> (forall|i: int| 0 <= i < n ==> seq_closure(#[trigger] env[i].1)),
    decreases n,
{
    if n > 0 {
        lemma_seq_env_iff(env, n - 1);
    }
}

/// Every closure of a queue is sequential.
pub open spec fn seq_queue(q: Seq<CClosureV>) -> bool {
    forall|i: int| 0 <= i < q.len() ==> seq_closure(#[trigger] q[i])
}

/// Every closure of every location is sequential.
pub open spec fn seq_locmap(m: LocMapV) -> bool {
    forall|i: int| 0 <= i < m.len() ==> seq_queue(#[trigger] m[i].1)
}

/// Every channel is empty.
pub open spec fn chans_all_empty(m: LocMapV) -> bool {
    forall|i: int| 0 <= i < m.len() ==> (#[trigger] m[i].1).len() == 0
}

/// A single-threaded configuration of the concurrent machine: one
/// thread, not failed, running sequential closures, with empty channels.
pub open spec fn st_cfg(cfg: crate::fcmc::FcmcConfigV) -> bool {
    &&& cfg.threads.len() == 1
    &&& !cfg.threads[0].failed
    &&& seq_closure(cfg.threads[0].closure)
    &&& seq_queue(cfg.threads[0].continuation)
    &&& seq_locmap(cfg.threads[0].stacks)
    &&& chans_all_empty(cfg.channels)
}

/// The sequential machine state that a single-threaded configuration
/// denotes: the thread's closure, its stacks as the memory, and its
/// continuation.
pub open spec fn fm_of(cfg: crate::fcmc::FcmcConfigV) -> FmcStateV {
    FmcStateV {
        closure: cfg.threads[0].closure,
        memory: cfg.threads[0].stacks,
        continuation: cfg.threads[0].continuation,
    }
}

/// On a single-threaded configuration the concurrent machine is the
/// sequential location machine: the scheduler always picks the one
/// thread; the thread can run exactly when the sequential machine can
/// make a step, it fails exactly when the sequential machine cannot,
/// and a run step leaves a single-threaded configuration denoting the
/// stepped sequential state.
pub proof fn lemma_single_thread_step(cfg: crate::fcmc::FcmcConfigV)
    requires
        st_cfg(cfg),
        !crate::fcmc::t_final_v(cfg.threads[0]),
    ensures
        crate::fcmc::pick_v(cfg) == 0,
        crate::fcmc::cstep_v(cfg, 0).1 == crate::fcmc::ThreadOutcome::Ran <==> fm_step_ok(
            fm_of(cfg),
        ),
        crate::fcmc::cstep_v(cfg, 0).1 == crate::fcmc::ThreadOutcome::Failed <==> !fm_step_ok(
            fm_of(cfg),
        ),
        crate::fcmc::cstep_v(cfg, 0).1 == crate::fcmc::ThreadOutcome::Ran ==> {
            let next = crate::fcmc::cstep_v(cfg, 0).0;
            &&& st_cfg(next)
            &&& fm_of(next) == fm_step_v(fm_of(cfg))
        },
{
    let t = cfg.threads[0];
    let s = fm_of(cfg);
    assert(!crate::fcmc::t_blocked_v(cfg, 0)) by {
        match t.closure.term {
            CTermV::Pop { location, .. } => {
                assert(seq_term(t.closure.term));
            }
            _ => {}
        }
    }
    assert(crate::fcmc::sched_ok(cfg, 0));
    assert(crate::fcmc::pick_v(cfg) == 0);
    let stepped = crate::fcmc::cstep_v(cfg, 0);
    match t.closure.term {
        CTermV::Skip => {
            let t2 = stepped.0.threads[0];
            assert(seq_closure(t.continuation.last()));
            assert(st_cfg(stepped.0));
            assert(fm_of(stepped.0) =~~= fm_step_v(s));
        }
        CTermV::Var { name } => {
            if t.closure.env.len() > 0 {
                lemma_seq_env_iff(t.closure.env, t.closure.env.len() as int);
                if t.closure.env.last().0 == name {
                    assert(seq_closure(t.closure.env.last().1));
                } else {
                    let shorter = t.closure.env.drop_last();
                    lemma_seq_env_iff(shorter, shorter.len() as int);
                    assert(seq_closure(CClosureV { term: t.closure.term, env: shorter }));
                }
                assert(st_cfg(stepped.0));
                assert(fm_of(stepped.0) =~~= fm_step_v(s));
            }
        }
        CTermV::Pop { location, arg, next } => {
            let si = loc_index(t.stacks, location);
            crate::fcmc::lemma_loc_index(t.stacks, location);
            if si >= 0 && t.stacks[si].1.len() > 0 {
                let r = t.stacks[si].1.last();
                assert(seq_closure(r));
                lemma_seq_env_iff(t.closure.env, t.closure.env.len() as int);
                let env2 = t.closure.env.push((arg, r));
                lemma_seq_env_iff(env2, env2.len() as int);
                assert(seq_env(env2, env2.len() as int)) by {
                    assert(forall|i: int|
                        0 <= i < env2.len() ==> seq_closure(#[trigger] env2[i].1));
                }
                assert(seq_closure(stepped.0.threads[0].closure));
                assert(seq_locmap(stepped.0.threads[0].stacks)) by {
                    let m2 = stepped.0.threads[0].stacks;
                    assert forall|i: int| 0 <= i < m2.len() implies seq_queue(
                        #[trigger] m2[i].1,
                    ) by {
                        if i == si {
                            assert(forall|j: int|
                                0 <= j < m2[i].1.len() ==> m2[i].1[j] == t.stacks[i].1[j]);
                        }
                    }
                }
                assert(st_cfg(stepped.0));
                assert(fm_of(stepped.0) =~~= fm_step_v(s));
            }
        }
        CTermV::Push { term, location, next } => {
            let si = loc_index(t.stacks, location);
            crate::fcmc::lemma_loc_index(t.stacks, location);
            let cl = CClosureV { term: *term, env: t.closure.env };
            assert(seq_closure(cl));
            assert(seq_closure(stepped.0.threads[0].closure));
            assert(seq_locmap(stepped.0.threads[0].stacks)) by {
                let m2 = stepped.0.threads[0].stacks;
                assert forall|i: int| 0 <= i < m2.len() implies seq_queue(#[trigger] m2[i].1) by {
                    if si < 0 && i == m2.len() - 1 {
                        assert(m2[i].1 =~= seq![cl]);
                    } else if si >= 0 && i == si {
                        assert(forall|j: int|
                            0 <= j < t.stacks[i].1.len() ==> m2[i].1[j] == t.stacks[i].1[j]);
                        assert(m2[i].1.last() == cl);
                    }
                }
            }
            assert(st_cfg(stepped.0));
            assert(fm_of(stepped.0) =~~= fm_step_v(s));
        }
        CTermV::Sequence { term, next } => {
            let k = CClosureV { term: *next, env: t.closure.env };
            assert(seq_closure(k));
            assert(seq_closure(CClosureV { term: *term, env: t.closure.env }));
            assert(seq_queue(stepped.0.threads[0].continuation)) by {
                let k2 = stepped.0.threads[0].continuation;
                assert(forall|i: int|
                    0 <= i < t.continuation.len() ==> k2[i] == t.continuation[i]);
                assert(k2.last() == k);
            }
            assert(st_cfg(stepped.0));
            assert(fm_of(stepped.0) =~~= fm_step_v(s));
        }
        CTermV::Fork { .. } => {
            assert(!seq_term(t.closure.term));
        }
    }
}

/// Every location reversed.
pub open spec fn rev_locs(m: LocMapV) -> LocMapV {
    m.map_values(|e: (Seq<char>, Seq<CClosureV>)| (e.0, e.1.reverse()))
}

/// Reading a map of empty locations back gives nothing.
pub proof fn lemma_rb_chans_empty(m: LocMapV, n: int)
    requires
        chans_all_empty(m),
        n <= m.len(),
    ensures
        crate::fcmc::rb_chans(m, n) == Seq::<(Seq<char>, CTermV)>::empty(),
    decreases n,
{
    if 0 < n {
        lemma_rb_chans_empty(m, n - 1);
        assert(crate::fcmc::rb_queue(m[n - 1].0, m[n - 1].1) =~= Seq::<(
            Seq<char>,
            CTermV,
        )>::empty());
        assert(crate::fcmc::rb_chans(m, n) =~= Seq::<(Seq<char>, CTermV)>::empty());
    }
}

/// Reading stacks back last-pushed-first is reading the reversed
/// locations back in queue order.
pub proof fn lemma_rb_stacks_rev(m: LocMapV, n: int)
    requires
        n <= m.len(),
    ensures
        crate::fcmc::rb_stacks(m, n) == crate::fcmc::rb_chans(rev_locs(m), n),
    decreases n,
{
    if 0 < n {
        lemma_rb_stacks_rev(m, n - 1);
        assert(crate::fcmc::rb_stack(m[n - 1].0, m[n - 1].1) =~= crate::fcmc::rb_queue(
            rev_locs(m)[n - 1].0,
            rev_locs(m)[n - 1].1,
        ));
        assert(crate::fcmc::rb_chans(rev_locs(m), n) == crate::fcmc::rb_chans(rev_locs(m), n - 1)
            + crate::fcmc::rb_queue(rev_locs(m)[n - 1].0, rev_locs(m)[n - 1].1));
    }
}

/// The read-back of a single-threaded configuration is the read-back of
/// the denoted sequential memory with each location reversed: the
/// concurrent machine empties a stack last-pushed-first, the sequential
/// machine lists it in push order.
pub proof fn lemma_single_thread_readback(cfg: crate::fcmc::FcmcConfigV)
    requires
        st_cfg(cfg),
    ensures
        crate::fcmc::c_readback_v(cfg) == crate::fcmc::rb_chans(
            rev_locs(cfg.threads[0].stacks),
            rev_locs(cfg.threads[0].stacks).len() as int,
        ),
{
    let stacks = cfg.threads[0].stacks;
    lemma_rb_chans_empty(cfg.channels, cfg.channels.len() as int);
    lemma_rb_stacks_rev(stacks, stacks.len() as int);
    assert(crate::fcmc::c_readback_v(cfg) =~= crate::fcmc::rb_stacks(
        stacks,
        stacks.len() as int,
    ));
}

/// On every single-threaded configuration, a run of the concurrent
/// machine that returns a result agrees with the run of the sequential
/// location machine on the denoted state: both halt, on the same
/// memory, and the results differ only in the order within one
/// location — last pushed first against push order.
pub proof fn lemma_single_threaded_run(cfg: crate::fcmc::FcmcConfigV, fuel: nat)
    requires
        st_cfg(cfg),
    ensures
        crate::fcmc::crun_v(cfg, fuel) matches Option::Some(ps) ==> exists|m: LocMapV|
            ps == crate::fcmc::rb_chans(rev_locs(m), rev_locs(m).len() as int) && fm_run_v(
                fm_of(cfg),
                fuel,
            ) == Option::Some(crate::fcmc::rb_chans(m, m.len() as int)),
    decreases fuel,
{
    let s = fm_of(cfg);
    if crate::fcmc::t_final_v(cfg.threads[0]) {
        let stacks = cfg.threads[0].stacks;
        lemma_single_thread_readback(cfg);
        assert(fm_final_v(s));
        assert(fm_readback_v(s) == crate::fcmc::rb_chans(stacks, stacks.len() as int));
        assert(crate::fcmc::crun_v(cfg, fuel) matches Option::Some(ps) ==> {
            let m = stacks;
            ps == crate::fcmc::rb_chans(rev_locs(m), rev_locs(m).len() as int) && fm_run_v(
                s,
                fuel,
            ) == Option::Some(crate::fcmc::rb_chans(m, m.len() as int))
        });
    } else {
        lemma_single_thread_step(cfg);
        if fuel > 0 {
            let stepped = crate::fcmc::cstep_v(cfg, 0);
            if fm_step_ok(s) {
                assert(stepped.1 == crate::fcmc::ThreadOutcome::Ran);
                let next = stepped.0;
                lemma_single_threaded_run(next, (fuel - 1) as nat);
                assert(fm_run_v(s, fuel) == fm_run_v(fm_of(next), (fuel - 1) as nat));
            } else {
                assert(stepped.1 == crate::fcmc::ThreadOutcome::Failed);
                let failed = stepped.0;
                assert(failed.threads[0].failed);
                assert(!crate::fcmc::t_final_v(failed.threads[0]));
                assert(!crate::fcmc::sched_ok(failed, 0));
                assert(crate::fcmc::pick_from(failed, 1) < 0);
                assert(crate::fcmc::pick_v(failed) < 0);
                assert(crate::fcmc::crun_v(failed, (fuel - 1) as nat) == Option::Some(
                    Seq::<(Seq<char>, CTermV)>::empty(),
                ));
                assert(fm_run_v(s, fuel) == Option::Some(Seq::<(Seq<char>, CTermV)>::empty()));
                let empty_m = Seq::<(Seq<char>, Seq<CClosureV>)>::empty();
                assert(rev_locs(empty_m).len() == 0);
                assert(crate::fcmc::rb_chans(rev_locs(empty_m), 0) == Seq::<(
                    Seq<char>,
                    CTermV,
                )>::empty());
                assert(crate::fcmc::rb_chans(empty_m, 0) == Seq::<(Seq<char>, CTermV)>::empty());
                assert(crate::fcmc::crun_v(cfg, fuel) matches Option::Some(ps) ==> {
                    let m = empty_m;
                    ps == crate::fcmc::rb_chans(rev_locs(m), rev_locs(m).len() as int)
                        && fm_run_v(s, fuel) == Option::Some(
                        crate::fcmc::rb_chans(m, m.len() as int),
                    )
                });
            }
        }
    }
}

/// The printed form of a state: the closure, each memory location with
/// its contents last pushed first, and the continuation stack.
pub open spec fn fmstate_dsp(s: FmcStateV) -> Seq<char> {
    "("@ + crate::fcmc::cclosure_dsp(s.closure) + ", "@ + (if s.memory.len() == 0 {
        "[], "@
    } else {
        crate::fcmc::stack_secs_dsp(s.memory, 0)
    }) + (if s.continuation.len() == 0 {
        "[])"@
    } else {
        "["@ + crate::fcmc::crlist_dsp(s.continuation, s.continuation.len() as int) + "])"@
    })
}

fn frlist_display(q: &Vec<FmcClosure>, n: usize) -> (r: String)
    requires
        n <= q@.len(),
    ensures
        r@ == crate::fcmc::crlist_dsp(fqueue_view(q@), n as int),
    decreases n,
{
    proof {
        assert(fqueue_view(q@).len() == q@.len());
    }
    if n == 0 {
        let r = String::new();
        proof {
            assert(r@ =~= crate::fcmc::crlist_dsp(fqueue_view(q@), 0));
        }
        r
    } else if n == 1 {
        let mut s = String::from_str("(");
        let cd = q[0].display_string();
        s.append(cd.as_str());
        s.append(")");
        proof {
            assert(fqueue_view(q@)[0] == q@[0]@);
            assert(s@ =~= crate::fcmc::crlist_dsp(fqueue_view(q@), 1));
        }
        s
    } else {
        let mut s = String::from_str("(");
        let cd = q[n - 1].display_string();
        s.append(cd.as_str());
        s.append(")");
        s.append(", ");
        let rest = frlist_display(q, n - 1);
        s.append(rest.as_str());
        proof {
            assert(fqueue_view(q@)[n - 1] == q@[n - 1]@);
            assert(s@ =~= crate::fcmc::crlist_dsp(fqueue_view(q@), n as int));
        }
        s
    }
}

fn fsecs_display(m: &FLocMap, i: usize) -> (r: String)
    ensures
        r@ == crate::fcmc::stack_secs_dsp(fmap_view(m@), i as int),
    decreases m@.len() - i,
{
    proof {
        assert(fmap_view(m@).len() == m@.len());
    }
    if i >= m.len() {
        let r = String::new();
        proof {
            assert(r@ =~= crate::fcmc::stack_secs_dsp(fmap_view(m@), i as int));
        }
        r
    } else {
        let e = &m[i];
        let mut s = e.0.clone();
        s.append("[");
        let qd = frlist_display(&e.1, e.1.len());
        s.append(qd.as_str());
        s.append("], ");
        let rest = fsecs_display(m, i + 1);
        s.append(rest.as_str());
        proof {
            assert(fmap_view(m@)[i as int] == (m@[i as int].0@, fqueue_view(m@[i as int].1@)));
            assert(s@ =~= crate::fcmc::stack_secs_dsp(fmap_view(m@), i as int));
        }
        s
    }
}

/// A location-calculus term with its location tags erased; a fork has
/// no counterpart and erases to `Skip`.
pub open spec fn erase_term(t: CTermV) -> STermV
    decreases t,
{
    match t {
        CTermV::Skip => STermV::Skip,
        CTermV::Var { name } => STermV::Var { name },
        CTermV::Pop { arg, next, .. } => STermV::Pop { arg, next: Box::new(erase_term(*next)) },
        CTermV::Push { term, next, .. } => STermV::Push {
            term: Box::new(erase_term(*term)),
            next: Box::new(erase_term(*next)),
        },
        CTermV::Sequence { term, next } => STermV::Sequence {
            term: Box::new(erase_term(*term)),
            next: Box::new(erase_term(*next)),
        },
        CTermV::Fork { .. } => STermV::Skip,
    }
}

/// The first `n` entries of an environment with their location tags
/// erased.
pub open spec fn erase_env(env: Seq<(Seq<char>, CClosureV)>, n: int) -> Seq<(Seq<char>, SClosureV)>
    decreases env, n,
{
    if n <= 0 || n > env.len() {
        Seq::empty()
    } else {
        erase_env(env, n - 1).push((env[n - 1].0, erase_closure(env[n - 1].1)))
    }
}

/// A closure with its location tags erased.
pub open spec fn erase_closure(c: CClosureV) -> SClosureV
    decreases c, 0int,
{
    SClosureV { term: erase_term(c.term), env: erase_env(c.env, c.env.len() as int) }
}

pub proof fn lemma_erase_env_index(env: Seq<(Seq<char>, CClosureV)>, n: int)
    requires
        0 <= n <= env.len(),
    ensures
        erase_env(env, n).len() == n,
        forall|i: int| 0 <= i < n ==> erase_env(env, n)[i] == (
            env[i].0,
            erase_closure(env[i].1),
        ),
    decreases n,
{
    if n > 0 {
        lemma_erase_env_index(env, n - 1);
    }
}

/// A queue of closures with their location tags erased.
pub open spec fn erase_queue(q: Seq<CClosureV>) -> Seq<SClosureV> {
    q.map_values(|c: CClosureV| erase_closure(c))
}

/// Read-back commutes with erasure: erasing a closure and reading it
/// back gives the erased read-back.
pub proof fn lemma_erase_retrieve(c: CClosureV)
    ensures
        sretrieve_v(erase_closure(c)) == erase_term(cretrieve_v(c)),
    decreases ccsize(c),
{
    let ec = erase_closure(c);
    let len = c.env.len() as int;
    lemma_erase_env_index(c.env, len);
    match c.term {
        CTermV::Skip => {}
        CTermV::Var { name } => {
            if c.env.len() > 0 {
                lemma_cesize_element(c.env, len - 1, len);
                if c.env.last().0 == name {
                    assert(ec.env.last() == (c.env.last().0, erase_closure(c.env.last().1)));
                    lemma_erase_retrieve(c.env.last().1);
                } else {
                    let shorter = c.env.drop_last();
                    lemma_cesize_prefix(shorter, c.env, len - 1);
                    lemma_erase_env_index(shorter, len - 1);
                    assert(erase_env(shorter, len - 1) =~= ec.env.drop_last()) by {
                        lemma_erase_env_index(c.env, len - 1);
                        assert(forall|i: int|
                            0 <= i < len - 1 ==> shorter[i] == c.env[i]);
                        assert(forall|i: int|
                            0 <= i < len - 1 ==> erase_env(shorter, len - 1)[i] == erase_env(
                                c.env,
                                len,
                            )[i]);
                    }
                    lemma_erase_retrieve(CClosureV { term: c.term, env: shorter });
                    assert(erase_closure(CClosureV { term: c.term, env: shorter })
                        =~= (SClosureV { term: ec.term, env: ec.env.drop_last() }));
                }
            } else {
                assert(ec.env =~= Seq::<(Seq<char>, SClosureV)>::empty());
            }
        }
        CTermV::Pop { location, arg, next } => {
            let selfbind = CClosureV { term: CTermV::Var { name: arg }, env: Seq::empty() };
            let pushed = c.env.push((arg, selfbind));
            lemma_cesize_prefix(c.env, pushed, len);
            assert(cesize(pushed, len + 1) == cesize(pushed, len) + 1 + ccsize(selfbind));
            assert(ccsize(selfbind) == 1) by {
                assert(cesize(Seq::<(Seq<char>, CClosureV)>::empty(), 0) == 0);
            }
            let inner = CClosureV { term: *next, env: pushed };
            lemma_erase_retrieve(inner);
            let sselfbind = SClosureV { term: STermV::Var { name: arg }, env: Seq::empty() };
            assert(erase_closure(selfbind) =~= sselfbind) by {
                assert(erase_env(selfbind.env, 0) =~= Seq::<(Seq<char>, SClosureV)>::empty());
            }
            lemma_erase_env_index(pushed, len + 1);
            assert(erase_closure(inner).env =~= ec.env.push((arg, sselfbind))) by {
                assert(forall|i: int| 0 <= i < len ==> pushed[i] == c.env[i]);
                assert(forall|i: int|
                    0 <= i < len ==> erase_env(pushed, len + 1)[i] == erase_env(c.env, len)[i]);
            }
            assert(erase_closure(inner) =~= (SClosureV {
                term: erase_term(*next),
                env: ec.env.push((arg, sselfbind)),
            }));
        }
        CTermV::Push { term, location, next } => {
            lemma_erase_retrieve(CClosureV { term: *term, env: c.env });
            lemma_erase_retrieve(CClosureV { term: *next, env: c.env });
            assert(erase_closure(CClosureV { term: *term, env: c.env }) =~= (SClosureV {
                term: erase_term(*term),
                env: ec.env,
            }));
            assert(erase_closure(CClosureV { term: *next, env: c.env }) =~= (SClosureV {
                term: erase_term(*next),
                env: ec.env,
            }));
        }
        CTermV::Sequence { term, next } => {
            lemma_erase_retrieve(CClosureV { term: *term, env: c.env });
            lemma_erase_retrieve(CClosureV { term: *next, env: c.env });
            assert(erase_closure(CClosureV { term: *term, env: c.env }) =~= (SClosureV {
                term: erase_term(*term),
                env: ec.env,
            }));
            assert(erase_closure(CClosureV { term: *next, env: c.env }) =~= (SClosureV {
                term: erase_term(*next),
                env: ec.env,
            }));
        }
        CTermV::Fork { .. } => {}
    }
}

/// A term whose every push and pop acts on the one location `loc`, with
/// no fork.
pub open spec fn one_loc_term(t: CTermV, loc: Seq<char>) -> bool
    decreases t,
{
    match t {
        CTermV::Skip => true,
        CTermV::Var { .. } => true,
        CTermV::Pop { location, next, .. } => location == loc && one_loc_term(*next, loc),
        CTermV::Push { term, location, next } => location == loc && one_loc_term(*term, loc)
            && one_loc_term(*next, loc),
        CTermV::Sequence { term, next } => one_loc_term(*term, loc) && one_loc_term(*next, loc),
        CTermV::Fork { .. } => false,
    }
}

/// The first `n` entries of an environment act on the one location.
pub open spec fn one_loc_env(env: Seq<(Seq<char>, CClosureV)>, n: int, loc: Seq<char>) -> bool
    decreases env, n,
{
    if n <= 0 || n > env.len() {
        true
    } else {
        one_loc_env(env, n - 1, loc) && one_loc_closure(env[n - 1].1, loc)
    }
}

/// A closure whose term and environment act on the one location.
pub open spec fn one_loc_closure(c: CClosureV, loc: Seq<char>) -> bool
    decreases c, 0int,
{
    one_loc_term(c.term, loc) && one_loc_env(c.env, c.env.len() as int, loc)
}

pub proof fn lemma_one_loc_env_iff(env: Seq<(Seq<char>, CClosureV)>, n: int, loc: Seq<char>)
    requires
        n <= env.len(),
    ensures
        one_loc_env(env, n, loc) <==> (forall|i: int|
            0 <= i < n ==> one_loc_closure(#[trigger] env[i].1, loc)),
    decreases n,
{
    if n > 0 {
        lemma_one_loc_env_iff(env, n - 1, loc);
    }
}

/// Every closure of a queue acts on the one location.
pub open spec fn one_loc_queue(q: Seq<CClosureV>, loc: Seq<char>) -> bool {
    forall|i: int| 0 <= i < q.len() ==> one_loc_closure(#[trigger] q[i], loc)
}

/// A state of the location machine that acts on the one location `loc`:
/// at most that location exists in the memory.
pub open spec fn fm_one_loc(s: FmcStateV, loc: Seq<char>) -> bool {
    &&& one_loc_closure(s.closure, loc)
    &&& one_loc_queue(s.continuation, loc)
    &&& s.memory.len() <= 1
    &&& s.memory.len() == 1 ==> s.memory[0].0 == loc && one_loc_queue(s.memory[0].1, loc)
}

/// The sequential-machine state that a one-location state denotes: the
/// location tags erased, the one location as the argument stack.
pub open spec fn sam_of_fm(s: FmcStateV) -> SStateV {
    SStateV {
        closure: erase_closure(s.closure),
        stack: if s.memory.len() == 0 {
            Seq::empty()
        } else {
            erase_queue(s.memory[0].1)
        },
        continuation: erase_queue(s.continuation),
    }
}

/// On a one-location state the location machine is the sequential
/// machine with the location tags erased: both are final together, a
/// transition exists in one exactly when it exists in the other, and
/// the transitions agree under erasure.
pub proof fn lemma_erased_step(s: FmcStateV, loc: Seq<char>)
    requires
        fm_one_loc(s, loc),
        !fm_final_v(s),
    ensures
        !s_final_v(sam_of_fm(s)),
        fm_step_ok(s) <==> s_step_ok(sam_of_fm(s)),
        fm_step_ok(s) ==> fm_one_loc(fm_step_v(s), loc) && sam_of_fm(fm_step_v(s)) == s_step_v(
            sam_of_fm(s),
        ),
{
    let e = sam_of_fm(s);
    let len = s.closure.env.len() as int;
    lemma_erase_env_index(s.closure.env, len);
    lemma_one_loc_env_iff(s.closure.env, len, loc);
    match s.closure.term {
        CTermV::Skip => {
            let s2 = fm_step_v(s);
            assert(one_loc_closure(s.continuation.last(), loc));
            assert(erase_queue(s.continuation).last() == erase_closure(s.continuation.last()));
            assert(erase_queue(s2.continuation) =~= erase_queue(s.continuation).drop_last());
            assert(fm_one_loc(s2, loc));
            assert(sam_of_fm(s2) =~~= s_step_v(e));
        }
        CTermV::Var { name } => {
            if s.closure.env.len() > 0 {
                let s2 = fm_step_v(s);
                if s.closure.env.last().0 == name {
                    assert(one_loc_closure(s.closure.env.last().1, loc));
                    assert(e.closure.env.last() == (
                        s.closure.env.last().0,
                        erase_closure(s.closure.env.last().1),
                    ));
                    assert(fm_one_loc(s2, loc));
                    assert(sam_of_fm(s2) =~~= s_step_v(e));
                } else {
                    let shorter = s.closure.env.drop_last();
                    lemma_erase_env_index(shorter, len - 1);
                    lemma_erase_env_index(s.closure.env, len - 1);
                    lemma_one_loc_env_iff(shorter, len - 1, loc);
                    assert(erase_env(shorter, len - 1) =~= e.closure.env.drop_last()) by {
                        assert(forall|i: int| 0 <= i < len - 1 ==> shorter[i] == s.closure.env[i]);
                        assert(forall|i: int|
                            0 <= i < len - 1 ==> erase_env(shorter, len - 1)[i] == erase_env(
                                s.closure.env,
                                len,
                            )[i]);
                    }
                    assert(fm_one_loc(s2, loc));
                    assert(sam_of_fm(s2) =~~= s_step_v(e));
                }
            } else {
                assert(e.closure.env =~= Seq::<(Seq<char>, SClosureV)>::empty());
            }
        }
        CTermV::Pop { location, arg, next } => {
            assert(location == loc);
            crate::fcmc::lemma_loc_index(s.memory, location);
            if s.memory.len() == 0 {
                assert(loc_index(s.memory, location) < 0);
                assert(e.stack.len() == 0);
            } else {
                assert(loc_index(s.memory, location) == 0);
                assert(e.stack.len() == s.memory[0].1.len());
                if s.memory[0].1.len() > 0 {
                    let s2 = fm_step_v(s);
                    let q = s.memory[0].1;
                    assert(one_loc_closure(q.last(), loc));
                    assert(erase_queue(q).last() == erase_closure(q.last()));
                    let env2 = s.closure.env.push((arg, q.last()));
                    lemma_erase_env_index(env2, len + 1);
                    lemma_one_loc_env_iff(env2, len + 1, loc);
                    assert(erase_env(env2, len + 1) =~= e.closure.env.push(
                        (arg, erase_closure(q.last())),
                    )) by {
                        assert(forall|i: int| 0 <= i < len ==> env2[i] == s.closure.env[i]);
                        assert(forall|i: int|
                            0 <= i < len ==> erase_env(env2, len + 1)[i] == erase_env(
                                s.closure.env,
                                len,
                            )[i]);
                    }
                    assert(erase_queue(s2.memory[0].1) =~= erase_queue(q).drop_last());
                    assert(fm_one_loc(s2, loc));
                    assert(sam_of_fm(s2) =~~= s_step_v(e));
                }
            }
        }
        CTermV::Push { term, location, next } => {
            assert(location == loc);
            crate::fcmc::lemma_loc_index(s.memory, location);
            let s2 = fm_step_v(s);
            let cl = CClosureV { term: *term, env: s.closure.env };
            assert(one_loc_closure(cl, loc));
            assert(erase_closure(cl) =~= (SClosureV {
                term: erase_term(*term),
                env: e.closure.env,
            }));
            if s.memory.len() == 0 {
                assert(loc_index(s.memory, location) < 0);
                assert(erase_queue(s2.memory[0].1) =~= Seq::<SClosureV>::empty().push(
                    erase_closure(cl),
                ));
                assert(s2.memory.len() == 1);
                assert(fm_one_loc(s2, loc)) by {
                    assert(forall|j: int|
                        0 <= j < s2.memory[0].1.len() ==> s2.memory[0].1[j] == cl);
                }
                assert(sam_of_fm(s2) =~~= s_step_v(e));
            } else {
                assert(loc_index(s.memory, location) == 0);
                let q = s.memory[0].1;
                assert(erase_queue(s2.memory[0].1) =~= erase_queue(q).push(erase_closure(cl)));
                assert(fm_one_loc(s2, loc)) by {
                    assert(forall|j: int| 0 <= j < q.len() ==> s2.memory[0].1[j] == q[j]);
                    assert(s2.memory[0].1.last() == cl);
                }
                assert(sam_of_fm(s2) =~~= s_step_v(e));
            }
        }
        CTermV::Sequence { term, next } => {
            let s2 = fm_step_v(s);
            let k = CClosureV { term: *next, env: s.closure.env };
            assert(one_loc_closure(k, loc));
            assert(erase_queue(s2.continuation) =~= erase_queue(s.continuation).push(
                erase_closure(k),
            ));
            assert(fm_one_loc(s2, loc)) by {
                assert(forall|j: int|
                    0 <= j < s.continuation.len() ==> s2.continuation[j] == s.continuation[j]);
                assert(s2.continuation.last() == k);
            }
            assert(erase_closure(k) =~= (SClosureV {
                term: erase_term(*next),
                env: e.closure.env,
            }));
            assert(erase_closure(CClosureV { term: *term, env: s.closure.env }) =~= (SClosureV {
                term: erase_term(*term),
                env: e.closure.env,
            }));
            assert(sam_of_fm(s2) =~~= s_step_v(e));
        }
        CTermV::Fork { .. } => {
            assert(!one_loc_term(s.closure.term, loc));
        }
    }
}

/// The terms of a read-back, with their location names dropped.
pub open spec fn erase_pairs(ps: Seq<(Seq<char>, CTermV)>) -> Seq<STermV> {
    ps.map_values(|p: (Seq<char>, CTermV)| erase_term(p.1))
}

/// On a one-location state, a run of the location machine is a run of
/// the sequential machine on the erased state: the two runs halt
/// together, and the read-backs agree once the location names are
/// dropped.
pub proof fn lemma_erased_run(s: FmcStateV, loc: Seq<char>, fuel: nat)
    requires
        fm_one_loc(s, loc),
    ensures
        s_run_v(sam_of_fm(s), fuel) == (match fm_run_v(s, fuel) {
            Option::Some(ps) => Option::Some(erase_pairs(ps)),
            Option::None => Option::None,
        }),
    decreases fuel,
{
    let e = sam_of_fm(s);
    if fm_final_v(s) {
        assert(s_final_v(e));
        if s.memory.len() == 0 {
            assert(crate::fcmc::rb_chans(s.memory, 0) == Seq::<(Seq<char>, CTermV)>::empty());
            assert(s_readback_v(e) =~= erase_pairs(fm_readback_v(s)));
        } else {
            let q = s.memory[0].1;
            assert(fm_readback_v(s) == crate::fcmc::rb_chans(s.memory, 1));
            assert(crate::fcmc::rb_chans(s.memory, 0) == Seq::<(Seq<char>, CTermV)>::empty());
            assert(crate::fcmc::rb_chans(s.memory, 1) =~= crate::fcmc::rb_queue(
                s.memory[0].0,
                q,
            ));
            assert forall|i: int| 0 <= i < q.len() implies s_readback_v(e)[i] == erase_pairs(
                fm_readback_v(s),
            )[i] by {
                assert(one_loc_closure(q[i], loc));
                lemma_erase_retrieve(q[i]);
            }
            assert(s_readback_v(e) =~= erase_pairs(fm_readback_v(s)));
        }
    } else {
        lemma_erased_step(s, loc);
        if !fm_step_ok(s) {
            assert(erase_pairs(Seq::<(Seq<char>, CTermV)>::empty()) =~= Seq::<STermV>::empty());
        } else if fuel > 0 {
            lemma_erased_run(fm_step_v(s), loc, (fuel - 1) as nat);
        }
    }
}

impl FmcState {
    /// The printed form of the state.
    pub fn display_string(&self) -> (r: String)
        ensures
            r@ == fmstate_dsp(self@),
    {
        let mut s = String::from_str("(");
        let cd = self.closure.display_string();
        s.append(cd.as_str());
        s.append(", ");
        if self.memory.len() == 0 {
            s.append("[], ");
        } else {
            let md = fsecs_display(&self.memory, 0);
            s.append(md.as_str());
        }
        if self.continuation.len() == 0 {
            s.append("[])");
        } else {
            s.append("[");
            let kd = frlist_display(&self.continuation, self.continuation.len());
            s.append(kd.as_str());
            s.append("])");
        }
        proof {
            assert(s@ =~= fmstate_dsp(self@));
        }
        s
    }

    /// Create a state from a closure, a memory and a continuation stack.
    pub fn new(closure: FmcClosure, memory: FLocMap, continuation: Vec<FmcClosure>) -> (r: Self)
        ensures
            r@ == (FmcStateV {
                closure: closure@,
                memory: fmap_view(memory@),
                continuation: fqueue_view(continuation@),
            }),
    {
        FmcState { closure, memory, continuation }
    }

    /// Create the start state of a term: an empty environment, an empty
    /// memory and an empty continuation.
    pub fn start(t: FmcTerm) -> (r: Self)
        ensures
            r@ == (FmcStateV {
                closure: CClosureV { term: t@, env: Seq::<(Seq<char>, CClosureV)>::empty() },
                memory: Seq::<(Seq<char>, Seq<CClosureV>)>::empty(),
                continuation: Seq::<CClosureV>::empty(),
            }),
    {
        let r = FmcState {
            closure: FmcClosure { term: t, env: Vec::new() },
            memory: Vec::new(),
            continuation: Vec::new(),
        };
        proof {
            assert(fenv_view(r.closure.env@) =~= Seq::<(Seq<char>, CClosureV)>::empty());
            assert(fmap_view(r.memory@) =~= Seq::<(Seq<char>, Seq<CClosureV>)>::empty());
            assert(fqueue_view(r.continuation@) =~= Seq::<CClosureV>::empty());
        }
        r
    }

    /// Whether the state is final, i.e. computation is complete.
    pub fn final_(&self) -> (b: bool)
        ensures
            b == fm_final_v(self@),
    {
        match &self.closure.term {
            FmcTerm::Skip => self.continuation.len() == 0,
            _ => false,
        }
    }

    /// Whether a transition from the state succeeds.
    pub fn can_step(&self) -> (b: bool)
        ensures
            b == fm_step_ok(self@),
    {
        match &self.closure.term {
            FmcTerm::Variable { .. } => self.closure.env.len() > 0,
            FmcTerm::Pop { location_id, .. } => {
                match ffind_loc(&self.memory, location_id) {
                    Option::Some(mi) => self.memory[mi].1.len() > 0,
                    Option::None => false,
                }
            }
            _ => true,
        }
    }

    /// Perform one transition in place.  Returns an error, and leaves
    /// the state unchanged, when the program cannot make a step: a pop
    /// from a missing or empty location, or a variable over an empty
    /// environment.
    pub fn step(&mut self) -> (r: Result<(), String>)
        ensures
            r is Ok <==> fm_step_ok(old(self)@),
            r is Ok ==> final(self)@ == fm_step_v(old(self)@),
            r is Err ==> final(self)@ == old(self)@,
            r matches Result::Err(m) ==> m@ == fm_err_dsp(old(self)@),
    {
        let t = self.closure.term.clone();
        match t {
            FmcTerm::Skip => {
                if !self.final_() {
                    let ghost prev = self.continuation@;
                    let k = self.continuation.pop().unwrap();
                    proof {
                        assert(fqueue_view(prev).last() == k@);
                        assert(fqueue_view(self.continuation@) =~= fqueue_view(prev).drop_last());
                    }
                    self.closure = k;
                }
                Result::Ok(())
            }
            FmcTerm::Variable { name } => {
                if self.closure.env.len() == 0 {
                    proof {
                        assert(fenv_view(self.closure.env@) =~= Seq::<(
                            Seq<char>,
                            CClosureV,
                        )>::empty());
                    }
                    return Result::Err(
                        "Term cannot be executed. Variable lookup encountered but environment is empty.".to_owned(),
                    );
                }
                let ghost prev = self.closure.env@;
                let env_last = self.closure.env.pop().unwrap();
                proof {
                    assert(fenv_view(prev).last() == (env_last.0@, env_last.1@));
                    assert(fenv_view(self.closure.env@) =~= fenv_view(prev).drop_last());
                }
                if env_last.0 == name {
                    self.closure = env_last.1;
                }
                Result::Ok(())
            }
            FmcTerm::Pop { location_id, arg, next } => {
                let found = ffind_loc(&self.memory, &location_id);
                match found {
                    Option::None => Result::Err("Specified location doesn't exist".to_owned()),
                    Option::Some(mi) => {
                        if self.memory[mi].1.len() == 0 {
                            return Result::Err(
                                "Term cannot be executed. Pop action encountered but location is empty.".to_owned(),
                            );
                        }
                        let ghost m0 = fmap_view(self.memory@);
                        let mut e = self.memory.remove(mi);
                        let ghost q0 = e.1@;
                        let stack_last = e.1.pop().unwrap();
                        self.memory.insert(mi, e);
                        proof {
                            assert(fqueue_view(e.1@) =~= fqueue_view(q0).drop_last());
                            assert(stack_last@ == fqueue_view(q0).last());
                            assert(fmap_view(self.memory@) =~= m0.update(
                                mi as int,
                                (m0[mi as int].0, m0[mi as int].1.drop_last()),
                            ));
                        }
                        self.closure.term = *next;
                        let ghost prevenv = self.closure.env@;
                        self.closure.env.push((arg, stack_last));
                        proof {
                            assert(fenv_view(self.closure.env@) =~= fenv_view(prevenv).push(
                                (old(self)@.closure.term->Pop_arg, m0[loc_index(
                                    m0,
                                    old(self)@.closure.term->Pop_location,
                                )].1.last()),
                            ));
                        }
                        Result::Ok(())
                    }
                }
            }
            FmcTerm::Push { term, location_id, next } => {
                let cl = FmcClosure { term: *term, env: fclone_env(&self.closure.env) };
                proof {
                    assert(cl@ == (CClosureV {
                        term: *old(self)@.closure.term->Push_term,
                        env: old(self)@.closure.env,
                    }));
                }
                let found = ffind_loc(&self.memory, &location_id);
                match found {
                    Option::None => {
                        let mut q: Vec<FmcClosure> = Vec::new();
                        q.push(cl);
                        let ghost prevm = fmap_view(self.memory@);
                        self.memory.push((location_id, q));
                        self.closure.term = *next;
                        proof {
                            assert(fqueue_view(q@) =~= seq![
                                CClosureV {
                                    term: *old(self)@.closure.term->Push_term,
                                    env: old(self)@.closure.env,
                                },
                            ]);
                            assert(fmap_view(self.memory@) =~= prevm.push(
                                (
                                    old(self)@.closure.term->Push_location,
                                    fqueue_view(q@),
                                ),
                            ));
                        }
                        Result::Ok(())
                    }
                    Option::Some(mi) => {
                        let ghost m0 = fmap_view(self.memory@);
                        let mut e = self.memory.remove(mi);
                        let ghost q0 = e.1@;
                        e.1.push(cl);
                        self.memory.insert(mi, e);
                        self.closure.term = *next;
                        proof {
                            assert(fqueue_view(e.1@) =~= fqueue_view(q0).push(
                                CClosureV {
                                    term: *old(self)@.closure.term->Push_term,
                                    env: old(self)@.closure.env,
                                },
                            ));
                            assert(fmap_view(self.memory@) =~= m0.update(
                                mi as int,
                                (m0[mi as int].0, fqueue_view(e.1@)),
                            ));
                        }
                        Result::Ok(())
                    }
                }
            }
            FmcTerm::Sequence { term, next } => {
                let k = FmcClosure { term: *next, env: fclone_env(&self.closure.env) };
                let ghost prevk = self.continuation@;
                self.continuation.push(k);
                self.closure.term = *term;
                proof {
                    assert(fqueue_view(self.continuation@) =~= fqueue_view(prevk).push(
                        CClosureV {
                            term: *old(self)@.closure.term->Sequence_next,
                            env: old(self)@.closure.env,
                        },
                    ));
                }
                Result::Ok(())
            }
        }
    }

    /// Read the state back: each location of the memory in creation
    /// order, its closures in the order they were pushed, each with its
    /// environment applied.
    pub fn readback(&self) -> (r: Vec<(Var, FmcTerm)>)
        ensures
            fpairs_view(r@) == fm_readback_v(self@),
    {
        let mut res: Vec<(Var, FmcTerm)> = Vec::new();
        proof {
            assert(fpairs_view(res@) =~= Seq::<(Seq<char>, CTermV)>::empty());
        }
        let ghost mv = fmap_view(self.memory@);
        let mut mi: usize = 0;
        while mi < self.memory.len()
            invariant
                mi <= self.memory@.len(),
                mv == fmap_view(self.memory@),
                fpairs_view(res@) == crate::fcmc::rb_chans(mv, mi as int),
            decreases self.memory@.len() - mi,
        {
            let e = &self.memory[mi];
            let ghost namev = mv[mi as int].0;
            let ghost qv = mv[mi as int].1;
            let mut j: usize = 0;
            while j < e.1.len()
                invariant
                    j <= e.1@.len(),
                    mi < self.memory@.len(),
                    e == &self.memory[mi as int],
                    mv == fmap_view(self.memory@),
                    namev == mv[mi as int].0,
                    qv == mv[mi as int].1,
                    qv.len() == e.1@.len(),
                    fpairs_view(res@) == crate::fcmc::rb_chans(mv, mi as int)
                        + crate::fcmc::rb_queue(namev, qv).subrange(0, j as int),
                decreases e.1@.len() - j,
            {
                let cl = e.1[j].clone();
                let t = cl.retrieve_term();
                let ghost prevres = res@;
                res.push((e.0.clone(), t));
                proof {
                    assert(qv[j as int] == e.1@[j as int]@);
                    assert(fpairs_view(res@) =~= fpairs_view(prevres).push(
                        (namev, cretrieve_v(qv[j as int])),
                    ));
                    assert(crate::fcmc::rb_queue(namev, qv).subrange(0, j + 1)
                        =~= crate::fcmc::rb_queue(namev, qv).subrange(0, j as int).push(
                        (namev, cretrieve_v(qv[j as int])),
                    ));
                }
                j = j + 1;
            }
            proof {
                assert(crate::fcmc::rb_queue(namev, qv).subrange(0, qv.len() as int)
                    =~= crate::fcmc::rb_queue(namev, qv));
                assert(crate::fcmc::rb_chans(mv, mi + 1) == crate::fcmc::rb_chans(mv, mi as int)
                    + crate::fcmc::rb_queue(namev, qv));
            }
            mi = mi + 1;
        }
        res
    }

    /// Run a term on the machine for at most `max_steps` transitions.
    /// Returns the read-back of the final state when one is reached, an
    /// empty list when a transition fails, and `None` when the allowance
    /// of steps runs out first.
    pub fn run(term: FmcTerm, max_steps: usize) -> (r: Option<Vec<(Var, FmcTerm)>>)
        ensures
            r is Some <==> fm_run_v(
                FmcStateV {
                    closure: CClosureV {
                        term: term@,
                        env: Seq::<(Seq<char>, CClosureV)>::empty(),
                    },
                    memory: Seq::<(Seq<char>, Seq<CClosureV>)>::empty(),
                    continuation: Seq::<CClosureV>::empty(),
                },
                max_steps as nat,
            ) is Some,
            r matches Option::Some(ps) ==> fm_run_v(
                FmcStateV {
                    closure: CClosureV {
                        term: term@,
                        env: Seq::<(Seq<char>, CClosureV)>::empty(),
                    },
                    memory: Seq::<(Seq<char>, Seq<CClosureV>)>::empty(),
                    continuation: Seq::<CClosureV>::empty(),
                },
                max_steps as nat,
            ) == Option::Some(fpairs_view(ps@)),
    {
        let ghost s0 = FmcStateV {
            closure: CClosureV { term: term@, env: Seq::<(Seq<char>, CClosureV)>::empty() },
            memory: Seq::<(Seq<char>, Seq<CClosureV>)>::empty(),
            continuation: Seq::<CClosureV>::empty(),
        };
        let mut s = FmcState::start(term);
        let mut fuel = max_steps;
        let mut failed = false;
        let mut ran_out = false;
        loop
            invariant_except_break
                !failed,
                !ran_out,
                fm_run_v(s@, fuel as nat) == fm_run_v(s0, max_steps as nat),
            ensures
                ran_out ==> fm_run_v(s0, max_steps as nat) is None,
                failed ==> fm_run_v(s0, max_steps as nat) == Option::Some(
                    Seq::<(Seq<char>, CTermV)>::empty(),
                ),
                !ran_out && !failed ==> fm_final_v(s@) && fm_run_v(s0, max_steps as nat)
                    == Option::Some(fm_readback_v(s@)),
            decreases fuel,
        {
            if s.final_() {
                break ;
            }
            if !s.can_step() {
                failed = true;
                break ;
            }
            if fuel == 0 {
                proof {
                    assert(fm_run_v(s@, 0) is None);
                }
                ran_out = true;
                break ;
            }
            let ghost pre = s@;
            let outcome = s.step();
            proof {
                assert(outcome is Ok);
                assert(fm_run_v(pre, fuel as nat) == fm_run_v(s@, (fuel - 1) as nat));
            }
            fuel = fuel - 1;
        }
        if ran_out {
            return Option::None;
        }
        if failed {
            let empty: Vec<(Var, FmcTerm)> = Vec::new();
            proof {
                assert(fpairs_view(empty@) =~= Seq::<(Seq<char>, CTermV)>::empty());
            }
            return Option::Some(empty);
        }
        let res = s.readback();
        Option::Some(res)
    }
}

} // verus!
