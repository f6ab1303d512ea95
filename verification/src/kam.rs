//! The Krivine-style abstract machine: closures over environments instead
//! of substitution.

use crate::lambdaterm::term_dsp;
use crate::lambdaterm::term_view;
use crate::lambdaterm::LambdaTerm;
use crate::lambdaterm::TermV;
use crate::lambdaterm::Var;
use vstd::prelude::*;

verus! {

/// The model of a closure: a term together with an environment of
/// bindings, looked up from the right.
#[verifier::ext_equal]
pub struct ClosureV {
    pub term: TermV,
    pub env: Seq<(Seq<char>, ClosureV)>,
}

/// A closure of the machine: a term and an environment of named closures.
#[derive(Debug, PartialEq)]
pub struct Closure {
    pub term: LambdaTerm,
    pub env: Vec<(Var, Closure)>,
}

/// The view of an environment.
pub open spec fn env_view(env: Seq<(Var, Closure)>) -> Seq<(Seq<char>, ClosureV)>
    decreases env,
{
    Seq::new(
        env.len(),
        |i: int|
            if 0 <= i < env.len() {
                (env[i].0@, closure_view(env[i].1))
            } else {
                (Seq::<char>::empty(), ClosureV { term: TermV::Var { name: Seq::empty() }, env: Seq::empty() })
            },
    )
}

pub open spec fn closure_view(c: Closure) -> ClosureV
    decreases c,
{
    ClosureV { term: term_view(c.term), env: env_view(c.env@) }
}

impl View for Closure {
    type V = ClosureV;

    open spec fn view(&self) -> ClosureV {
        closure_view(*self)
    }
}

/// The weight of a term, used as a termination measure for read-back: a
/// binder weighs more than the self-binding that read-back adds for it.
pub open spec fn wsize(t: TermV) -> nat
    decreases t,
{
    match t {
        TermV::Var { .. } => 1,
        TermV::Lam { body, .. } => 3 + wsize(*body),
        TermV::App { t1, t2 } => 1 + wsize(*t1) + wsize(*t2),
    }
}

/// The weight of the first `n` entries of an environment.
pub open spec fn esize(env: Seq<(Seq<char>, ClosureV)>, n: int) -> nat
    decreases env, n,
{
    if n <= 0 || n > env.len() {
        0
    } else {
        esize(env, n - 1) + 1 + csize(env[n - 1].1)
    }
}

/// The weight of a closure: its term together with everything bound in
/// its environment.
pub open spec fn csize(c: ClosureV) -> nat
    decreases c, 0int,
{
    wsize(c.term) + esize(c.env, c.env.len() as int)
}

/// `esize` looks only at the entries below `n`.
pub proof fn lemma_esize_prefix(
    env1: Seq<(Seq<char>, ClosureV)>,
    env2: Seq<(Seq<char>, ClosureV)>,
    n: int,
)
    requires
        0 <= n <= env1.len(),
        n <= env2.len(),
        forall|i: int| 0 <= i < n ==> env1[i] == env2[i],
    ensures
        esize(env1, n) == esize(env2, n),
    decreases n,
{
    if n > 0 {
        lemma_esize_prefix(env1, env2, n - 1);
    }
}

/// Every entry of an environment weighs less than the whole environment.
pub proof fn lemma_esize_element(env: Seq<(Seq<char>, ClosureV)>, i: int, n: int)
    requires
        0 <= i < n <= env.len(),
    ensures
        csize(env[i].1) < esize(env, n),
    decreases n,
{
    if i < n - 1 {
        lemma_esize_element(env, i, n - 1);
    }
}

/// The model of read-back: apply the environment to the term.  A variable
/// takes the right-most binding of its name, carrying that binding's own
/// environment; a lambda extends the environment with a self-binding for
/// its argument before descending.
pub open spec fn retrieve_v(c: ClosureV) -> TermV
    decreases csize(c),
    via retrieve_v_dec
{
    match c.term {
        TermV::Var { name } => {
            if c.env.len() == 0 {
                c.term
            } else if c.env.last().0 == name {
                retrieve_v(c.env.last().1)
            } else {
                retrieve_v(ClosureV { term: c.term, env: c.env.drop_last() })
            }
        }
        TermV::Lam { arg, body } => TermV::Lam {
            arg,
            body: Box::new(
                retrieve_v(
                    ClosureV {
                        term: *body,
                        env: c.env.push(
                            (arg, ClosureV { term: TermV::Var { name: arg }, env: Seq::empty() }),
                        ),
                    },
                ),
            ),
        },
        TermV::App { t1, t2 } => TermV::App {
            t1: Box::new(retrieve_v(ClosureV { term: *t1, env: c.env })),
            t2: Box::new(retrieve_v(ClosureV { term: *t2, env: c.env })),
        },
    }
}

#[via_fn]
proof fn retrieve_v_dec(c: ClosureV) {
    let len = c.env.len() as int;
    match c.term {
        TermV::Var { name } => {
            if c.env.len() > 0 {
                if c.env.last().0 == name {
                    lemma_esize_element(c.env, len - 1, len);
                } else {
                    let shorter = c.env.drop_last();
                    lemma_esize_prefix(shorter, c.env, len - 1);
                    lemma_esize_element(c.env, len - 1, len);
                }
            }
        }
        TermV::Lam { arg, body } => {
            let selfbind = ClosureV { term: TermV::Var { name: arg }, env: Seq::empty() };
            let pushed = c.env.push((arg, selfbind));
            lemma_esize_prefix(c.env, pushed, len);
            assert(esize(pushed, len + 1) == esize(pushed, len) + 1 + csize(selfbind));
            assert(csize(selfbind) == 1) by {
                assert(esize(Seq::<(Seq<char>, ClosureV)>::empty(), 0) == 0);
            }
        }
        TermV::App { .. } => {}
    }
}

/// An environment holding only self-bindings, as read-back of a binder
/// introduces them.
pub open spec fn self_env(env: Seq<(Seq<char>, ClosureV)>) -> bool {
    forall|i: int| 0 <= i < env.len() ==> env[i].1 == (ClosureV {
        term: TermV::Var { name: env[i].0 },
        env: Seq::<(Seq<char>, ClosureV)>::empty(),
    })
}

/// Under an environment of self-bindings only, read-back returns the term
/// unchanged.
pub proof fn lemma_retrieve_self_env(c: ClosureV)
    requires
        self_env(c.env),
    ensures
        retrieve_v(c) == c.term,
    decreases csize(c),
{
    let len = c.env.len() as int;
    match c.term {
        TermV::Var { name } => {
            if c.env.len() > 0 {
                if c.env.last().0 == name {
                    lemma_esize_element(c.env, len - 1, len);
                    lemma_retrieve_self_env(c.env.last().1);
                } else {
                    let shorter = c.env.drop_last();
                    lemma_esize_prefix(shorter, c.env, len - 1);
                    lemma_esize_element(c.env, len - 1, len);
                    lemma_retrieve_self_env(ClosureV { term: c.term, env: shorter });
                }
            }
        }
        TermV::Lam { arg, body } => {
            let selfbind = ClosureV { term: TermV::Var { name: arg }, env: Seq::empty() };
            let pushed = c.env.push((arg, selfbind));
            lemma_esize_prefix(c.env, pushed, len);
            assert(esize(pushed, len + 1) == esize(pushed, len) + 1 + csize(selfbind));
            assert(csize(selfbind) == 1) by {
                assert(esize(Seq::<(Seq<char>, ClosureV)>::empty(), 0) == 0);
            }
            assert(self_env(pushed));
            lemma_retrieve_self_env(ClosureV { term: *body, env: pushed });
        }
        TermV::App { t1, t2 } => {
            lemma_retrieve_self_env(ClosureV { term: *t1, env: c.env });
            lemma_retrieve_self_env(ClosureV { term: *t2, env: c.env });
        }
    }
}

/// Read-back is idempotent: reading back a closure of the read-back of
/// `c` over the empty environment gives the read-back of `c` again.
pub proof fn lemma_readback_idempotent(c: ClosureV)
    ensures
        retrieve_v(
            ClosureV { term: retrieve_v(c), env: Seq::<(Seq<char>, ClosureV)>::empty() },
        ) == retrieve_v(c),
{
    let wrapped = ClosureV {
        term: retrieve_v(c),
        env: Seq::<(Seq<char>, ClosureV)>::empty(),
    };
    lemma_retrieve_self_env(wrapped);
}

/// Clone an environment, preserving its view.
fn clone_env(env: &Vec<(Var, Closure)>) -> (r: Vec<(Var, Closure)>)
    ensures
        env_view(r@) == env_view(env@),
    decreases esize(env_view(env@), env@.len() as int),
{
    let mut r: Vec<(Var, Closure)> = Vec::new();
    let n = env.len();
    let mut i: usize = 0;
    while i < n
        invariant
            i <= n,
            n == env.len(),
            r@.len() == i as int,
            forall|j: int| 0 <= j < i ==> env_view(r@)[j] == env_view(env@)[j],
        decreases n - i,
    {
        proof {
            lemma_esize_element(env_view(env@), i as int, env_view(env@).len() as int);
            assert(env_view(env@)[i as int].1 == closure_view(env@[i as int].1));
        }
        let name = env[i].0.clone();
        let cl = env[i].1.clone();
        let ghost prevr = r@;
        r.push((name, cl));
        proof {
            assert(forall|j: int| 0 <= j < i ==> env_view(r@)[j] == env_view(prevr)[j]);
            assert(env_view(r@)[i as int] == env_view(env@)[i as int]);
        }
        i = i + 1;
    }
    proof {
        assert(env_view(r@) =~= env_view(env@));
    }
    r
}

impl Clone for Closure {
    fn clone(&self) -> (res: Self)
        ensures
            res@ == self@,
        decreases csize(self@),
    {
        let res = Closure { term: self.term.clone(), env: clone_env(&self.env) };
        proof {
            assert(res@ == self@);
        }
        res
    }
}

impl Closure {
    /// Create a closure from a term and an environment.
    pub fn new(term: LambdaTerm, env: Vec<(Var, Closure)>) -> (r: Self)
        ensures
            r@ == (ClosureV { term: term@, env: env_view(env@) }),
    {
        Closure { term, env }
    }

    /// Apply the environment to the term and return the resulting plain
    /// term.
    pub fn retrieve_term(self) -> (r: LambdaTerm)
        ensures
            r@ == retrieve_v(self@),
        decreases csize(self@),
    {
        let ghost cv = self@;
        let Closure { term, mut env } = self;
        match term {
            LambdaTerm::Variable { name } => {
                if env.len() == 0 {
                    proof {
                        assert(env_view(env@) =~= Seq::<(Seq<char>, ClosureV)>::empty());
                    }
                    LambdaTerm::Variable { name }
                } else {
                    let ghost prev = env@;
                    let env_last = env.pop().unwrap();
                    proof {
                        assert(env_view(prev).last() == (env_last.0@, env_last.1@));
                        assert(env_view(env@) =~= env_view(prev).drop_last());
                        lemma_esize_element(cv.env, cv.env.len() - 1, cv.env.len() as int);
                        lemma_esize_prefix(env_view(env@), cv.env, cv.env.len() - 1);
                    }
                    if env_last.0 == name {
                        env_last.1.retrieve_term()
                    } else {
                        let c = Closure { term: LambdaTerm::Variable { name }, env };
                        c.retrieve_term()
                    }
                }
            }
            LambdaTerm::Lambda { arg, body } => {
                let selfbind = Closure {
                    term: LambdaTerm::Variable { name: arg.clone() },
                    env: Vec::new(),
                };
                proof {
                    assert(env_view(selfbind.env@) =~= Seq::<(Seq<char>, ClosureV)>::empty());
                    assert(selfbind@ == (ClosureV {
                        term: TermV::Var { name: arg@ },
                        env: Seq::<(Seq<char>, ClosureV)>::empty(),
                    }));
                }
                let ghost prev = env@;
                env.push((arg.clone(), selfbind));
                let c = Closure { term: *body, env };
                proof {
                    assert(env_view(c.env@) =~= cv.env.push(
                        (arg@, ClosureV {
                            term: TermV::Var { name: arg@ },
                            env: Seq::<(Seq<char>, ClosureV)>::empty(),
                        }),
                    ));
                    lemma_esize_prefix(cv.env, env_view(c.env@), cv.env.len() as int);
                    assert(esize(env_view(c.env@), cv.env.len() as int + 1) == esize(
                        env_view(c.env@),
                        cv.env.len() as int,
                    ) + 1 + csize(env_view(c.env@).last().1));
                    assert(csize(env_view(c.env@).last().1) == 1) by {
                        assert(esize(Seq::<(Seq<char>, ClosureV)>::empty(), 0) == 0);
                    }
                }
                let inner = c.retrieve_term();
                LambdaTerm::Lambda { arg, body: Box::new(inner) }
            }
            LambdaTerm::Apply { t1, t2 } => {
                let c1 = Closure { term: *t1, env: clone_env(&env) };
                proof {
                    assert(env_view(c1.env@) == cv.env);
                }
                let r1 = c1.retrieve_term();
                let c2 = Closure { term: *t2, env };
                let r2 = c2.retrieve_term();
                LambdaTerm::Apply { t1: Box::new(r1), t2: Box::new(r2) }
            }
        }
    }
}

/// The printed form of an environment entry: the name in quotes, then the
/// closure.
pub open spec fn kentry_dsp(e: (Seq<char>, ClosureV)) -> Seq<char>
    decreases e.1, 1int,
{
    "(\""@ + e.0 + "\", "@ + closure_dsp(e.1) + ")"@
}

/// The printed form of the first `n` entries of an environment, newest
/// first, separated by commas.
pub open spec fn kenv_dsp(env: Seq<(Seq<char>, ClosureV)>, n: int) -> Seq<char>
    decreases env, n,
{
    if n <= 0 || n > env.len() {
        Seq::empty()
    } else if n == 1 {
        kentry_dsp(env[0])
    } else {
        kentry_dsp(env[n - 1]) + ", "@ + kenv_dsp(env, n - 1)
    }
}

/// The printed form of a closure: its term, then its environment, newest
/// binding first.
pub open spec fn closure_dsp(c: ClosureV) -> Seq<char>
    decreases c, 0int,
{
    term_dsp(c.term) + ", ["@ + kenv_dsp(c.env, c.env.len() as int) + "]"@
}

fn kentry_display(e: &(Var, Closure)) -> (r: String)
    ensures
        r@ == kentry_dsp((e.0@, e.1@)),
    decreases e.1@, 1int,
{
    let mut s = String::from_str("(\"");
    s.append(e.0.as_str());
    s.append("\", ");
    let cd = e.1.display_string();
    s.append(cd.as_str());
    s.append(")");
    proof {
        assert(s@ =~= kentry_dsp((e.0@, e.1@)));
    }
    s
}

fn kenv_display(env: &Vec<(Var, Closure)>, n: usize) -> (r: String)
    requires
        n <= env@.len(),
    ensures
        r@ == kenv_dsp(env_view(env@), n as int),
    decreases env_view(env@), n as int,
{
    proof {
        assert(env_view(env@).len() == env@.len());
    }
    if n == 0 {
        let r = String::new();
        proof {
            assert(r@ =~= kenv_dsp(env_view(env@), 0));
        }
        r
    } else if n == 1 {
        proof {
            assert(env_view(env@)[0] == (env@[0].0@, env@[0].1@));
            assert(decreases_to!(env_view(env@) => env_view(env@)[0]));
            assert(decreases_to!(env_view(env@)[0] => env_view(env@)[0].1));
        }
        let r = kentry_display(&env[0]);
        r
    } else {
        proof {
            assert(env_view(env@)[n - 1] == (env@[n - 1].0@, env@[n - 1].1@));
            assert(decreases_to!(env_view(env@) => env_view(env@)[n - 1]));
            assert(decreases_to!(env_view(env@)[n - 1] => env_view(env@)[n - 1].1));
        }
        let mut s = kentry_display(&env[n - 1]);
        s.append(", ");
        let rest = kenv_display(env, n - 1);
        s.append(rest.as_str());
        proof {
            assert(env_view(env@)[n - 1] == (env@[n - 1].0@, env@[n - 1].1@));
            assert(s@ =~= kenv_dsp(env_view(env@), n as int));
        }
        s
    }
}

impl Closure {
    /// The printed form of the closure.
    pub fn display_string(&self) -> (r: String)
        ensures
            r@ == closure_dsp(self@),
        decreases self@, 0int,
    {
        let mut s = self.term.display_string();
        s.append(", [");
        proof {
            assert(decreases_to!(self@ => self@.env));
            assert(self@.env == env_view(self.env@));
        }
        let ed = kenv_display(&self.env, self.env.len());
        s.append(ed.as_str());
        s.append("]");
        proof {
            assert(s@ =~= closure_dsp(self@));
        }
        s
    }
}

/// The model of a machine state: a focused closure and a stack of
/// argument closures.
#[verifier::ext_equal]
pub struct StateV {
    pub closure: ClosureV,
    pub stack: Seq<ClosureV>,
}

/// A state of the Krivine-style machine.
#[derive(Debug, PartialEq)]
pub struct State {
    pub closure: Closure,
    pub stack: Vec<Closure>,
}

/// The view of a stack of closures.
pub open spec fn stack_view(s: Seq<Closure>) -> Seq<ClosureV> {
    s.map_values(|c: Closure| closure_view(c))
}

impl View for State {
    type V = StateV;

    open spec fn view(&self) -> StateV {
        StateV { closure: self.closure@, stack: stack_view(self.stack@) }
    }
}

/// Whether a state is final: a variable over an empty environment, or a
/// lambda with an empty argument stack.
pub open spec fn k_final_v(s: StateV) -> bool {
    match s.closure.term {
        TermV::Var { .. } => s.closure.env.len() == 0,
        TermV::Lam { .. } => s.stack.len() == 0,
        TermV::App { .. } => false,
    }
}

/// One transition of the machine: an application pushes its argument as a
/// closure over the current environment; a lambda binds the top of the
/// stack; a variable pops the right-most binding and adopts it when the
/// name matches.  Final states are left unchanged.
pub open spec fn k_step_v(s: StateV) -> StateV {
    if k_final_v(s) {
        s
    } else {
        match s.closure.term {
            TermV::Var { name } => {
                if s.closure.env.last().0 == name {
                    StateV { closure: s.closure.env.last().1, stack: s.stack }
                } else {
                    StateV {
                        closure: ClosureV { term: s.closure.term, env: s.closure.env.drop_last() },
                        stack: s.stack,
                    }
                }
            }
            TermV::Lam { arg, body } => StateV {
                closure: ClosureV {
                    term: *body,
                    env: s.closure.env.push((arg, s.stack.last())),
                },
                stack: s.stack.drop_last(),
            },
            TermV::App { t1, t2 } => StateV {
                closure: ClosureV { term: *t1, env: s.closure.env },
                stack: s.stack.push(ClosureV { term: *t2, env: s.closure.env }),
            },
        }
    }
}

/// The read-back of a final state: the closure's term with its
/// environment applied, the remaining stack folded on as applications.
pub open spec fn k_readback_stack(t: TermV, stack: Seq<ClosureV>) -> TermV
    decreases stack.len(),
{
    if stack.len() == 0 {
        t
    } else {
        k_readback_stack(
            TermV::App { t1: Box::new(t), t2: Box::new(retrieve_v(stack.last())) },
            stack.drop_last(),
        )
    }
}

pub open spec fn k_readback_v(s: StateV) -> TermV {
    k_readback_stack(retrieve_v(s.closure), s.stack)
}

/// The machine is never stuck: the final states are exactly the fixed
/// points of the transition function, so every non-final state makes a
/// transition.
pub proof fn lemma_k_step_fixpoint(s: StateV)
    ensures
        k_final_v(s) <==> k_step_v(s) == s,
{
    if !k_final_v(s) {
        match s.closure.term {
            TermV::Var { name } => {
                let last = s.closure.env.last();
                if last.0 == name {
                    if k_step_v(s) == s {
                        lemma_esize_element(s.closure.env, s.closure.env.len() - 1, s.closure.env.len() as int);
                        assert(csize(last.1) == csize(s.closure));
                        assert(csize(last.1) < esize(s.closure.env, s.closure.env.len() as int));
                        assert(false);
                    }
                } else {
                    assert(k_step_v(s).closure.env.len() + 1 == s.closure.env.len());
                }
            }
            TermV::Lam { .. } => {
                assert(k_step_v(s).closure.env.len() == s.closure.env.len() + 1);
                assert(k_step_v(s).closure.env != s.closure.env);
            }
            TermV::App { .. } => {
                assert(k_step_v(s).stack.len() == s.stack.len() + 1);
            }
        }
    }
}

/// The result of running the machine with a bounded allowance of steps.
pub open spec fn k_run_v(s: StateV, fuel: nat) -> Option<TermV>
    decreases fuel,
{
    if k_final_v(s) {
        Option::Some(k_readback_v(s))
    } else if fuel == 0 {
        Option::None
    } else {
        k_run_v(k_step_v(s), (fuel - 1) as nat)
    }
}

/// The printed form of the top `n` closures of a stack, top first,
/// separated by commas.
pub open spec fn kstack_dsp(stack: Seq<ClosureV>, n: int) -> Seq<char>
    decreases stack, n,
{
    if n <= 0 || n > stack.len() {
        Seq::empty()
    } else if n == 1 {
        closure_dsp(stack[0])
    } else {
        closure_dsp(stack[n - 1]) + ", "@ + kstack_dsp(stack, n - 1)
    }
}

/// The printed form of a state: the closure, then the argument stack,
/// top first.
pub open spec fn kstate_dsp(s: StateV) -> Seq<char> {
    "("@ + closure_dsp(s.closure) + ", "@ + (if s.stack.len() == 0 {
        "[])"@
    } else {
        "("@ + kstack_dsp(s.stack, s.stack.len() as int) + "))"@
    })
}

fn kstack_display(stack: &Vec<Closure>, n: usize) -> (r: String)
    requires
        n <= stack@.len(),
    ensures
        r@ == kstack_dsp(stack_view(stack@), n as int),
    decreases n,
{
    proof {
        assert(stack_view(stack@).len() == stack@.len());
    }
    if n == 0 {
        let r = String::new();
        proof {
            assert(r@ =~= kstack_dsp(stack_view(stack@), 0));
        }
        r
    } else if n == 1 {
        let r = stack[0].display_string();
        proof {
            assert(stack_view(stack@)[0] == stack@[0]@);
        }
        r
    } else {
        let mut s = stack[n - 1].display_string();
        s.append(", ");
        let rest = kstack_display(stack, n - 1);
        s.append(rest.as_str());
        proof {
            assert(stack_view(stack@)[n - 1] == stack@[n - 1]@);
            assert(s@ =~= kstack_dsp(stack_view(stack@), n as int));
        }
        s
    }
}

impl State {
    /// The printed form of the state.
    pub fn display_string(&self) -> (r: String)
        ensures
            r@ == kstate_dsp(self@),
    {
        let mut s = String::from_str("(");
        let cd = self.closure.display_string();
        s.append(cd.as_str());
        s.append(", ");
        if self.stack.len() == 0 {
            s.append("[])");
        } else {
            s.append("(");
            let sd = kstack_display(&self.stack, self.stack.len());
            s.append(sd.as_str());
            s.append("))");
        }
        proof {
            assert(s@ =~= kstate_dsp(self@));
        }
        s
    }

    /// Create a state from a closure and an argument stack.
    pub fn new(closure: Closure, stack: Vec<Closure>) -> (r: Self)
        ensures
            r@ == (StateV { closure: closure@, stack: stack_view(stack@) }),
    {
        State { closure, stack }
    }

    /// Create the start state of a term: an empty environment and an
    /// empty argument stack.
    pub fn start(t: LambdaTerm) -> (r: Self)
        ensures
            r@ == (StateV {
                closure: ClosureV { term: t@, env: Seq::<(Seq<char>, ClosureV)>::empty() },
                stack: Seq::<ClosureV>::empty(),
            }),
    {
        let r = State { closure: Closure { term: t, env: Vec::new() }, stack: Vec::new() };
        proof {
            assert(env_view(r.closure.env@) =~= Seq::<(Seq<char>, ClosureV)>::empty());
            assert(stack_view(r.stack@) =~= Seq::<ClosureV>::empty());
        }
        r
    }

    /// Whether the state is final.
    pub fn final_(&self) -> (b: bool)
        ensures
            b == k_final_v(self@),
    {
        match &self.closure.term {
            LambdaTerm::Variable { .. } => self.closure.env.len() == 0,
            LambdaTerm::Lambda { .. } => self.stack.len() == 0,
            LambdaTerm::Apply { .. } => false,
        }
    }

    /// Perform one transition in place; a final state is left unchanged.
    pub fn step(&mut self)
        ensures
            final(self)@ == k_step_v(old(self)@),
    {
        if self.final_() {
            return ;
        }
        let t = self.closure.term.clone();
        match t {
            LambdaTerm::Variable { name } => {
                let ghost prev = self.closure.env@;
                let env_last = self.closure.env.pop().unwrap();
                proof {
                    assert(env_view(prev).last() == (env_last.0@, env_last.1@));
                    assert(env_view(self.closure.env@) =~= env_view(prev).drop_last());
                }
                if env_last.0 == name {
                    self.closure = env_last.1;
                }
            }
            LambdaTerm::Lambda { arg, body } => {
                let ghost prevstack = self.stack@;
                let stack_last = self.stack.pop().unwrap();
                proof {
                    assert(stack_view(prevstack).last() == stack_last@);
                    assert(stack_view(self.stack@) =~= stack_view(prevstack).drop_last());
                }
                let ghost prevenv = self.closure.env@;
                self.closure.term = *body;
                self.closure.env.push((arg, stack_last));
                proof {
                    assert(env_view(self.closure.env@) =~= env_view(prevenv).push(
                        (old(self)@.closure.term->Lam_arg, stack_view(prevstack).last()),
                    ));
                }
            }
            LambdaTerm::Apply { t1, t2 } => {
                self.closure.term = *t1;
                let argclosure = Closure { term: *t2, env: clone_env(&self.closure.env) };
                let ghost prevstack = self.stack@;
                self.stack.push(argclosure);
                proof {
                    assert(stack_view(self.stack@) =~= stack_view(prevstack).push(
                        ClosureV {
                            term: *old(self)@.closure.term->App_t2,
                            env: old(self)@.closure.env,
                        },
                    ));
                }
            }
        }
    }

    /// Read the state back into a plain term: the closure's read-back
    /// with the remaining argument stack folded on as applications.
    pub fn readback(&mut self) -> (r: LambdaTerm)
        ensures
            r@ == k_readback_v(old(self)@),
    {
        let cl = self.closure.clone();
        let mut t = cl.retrieve_term();
        let ghost s0 = old(self)@;
        while self.stack.len() > 0
            invariant
                k_readback_stack(t@, stack_view(self.stack@)) == k_readback_v(s0),
            decreases self.stack@.len(),
        {
            let ghost prev = self.stack@;
            let c = self.stack.pop().unwrap();
            proof {
                assert(stack_view(self.stack@) =~= stack_view(prev).drop_last());
                assert(stack_view(prev).last() == c@);
            }
            let rt = c.retrieve_term();
            t = LambdaTerm::Apply { t1: Box::new(t), t2: Box::new(rt) };
        }
        proof {
            assert(stack_view(self.stack@) =~= Seq::<ClosureV>::empty());
        }
        t
    }

    /// Run a term on the machine for at most `max_steps` transitions.
    /// Returns the read-back of the final state when one is reached, and
    /// `None` when the allowance of steps runs out first.
    pub fn run(term: LambdaTerm, max_steps: usize) -> (r: Option<LambdaTerm>)
        ensures
            r is Some <==> k_run_v(
                StateV {
                    closure: ClosureV { term: term@, env: Seq::<(Seq<char>, ClosureV)>::empty() },
                    stack: Seq::<ClosureV>::empty(),
                },
                max_steps as nat,
            ) is Some,
            r matches Option::Some(t) ==> k_run_v(
                StateV {
                    closure: ClosureV { term: term@, env: Seq::<(Seq<char>, ClosureV)>::empty() },
                    stack: Seq::<ClosureV>::empty(),
                },
                max_steps as nat,
            ) == Option::Some(t@),
    {
        let ghost s0 = StateV {
            closure: ClosureV { term: term@, env: Seq::<(Seq<char>, ClosureV)>::empty() },
            stack: Seq::<ClosureV>::empty(),
        };
        let mut s = State::start(term);
        let mut fuel = max_steps;
        let mut ran_out = false;
        loop
            invariant_except_break
                !ran_out,
                k_run_v(s@, fuel as nat) == k_run_v(s0, max_steps as nat),
            ensures
                ran_out ==> k_run_v(s0, max_steps as nat) is None,
                !ran_out ==> k_final_v(s@) && k_run_v(s0, max_steps as nat) == Option::Some(
                    k_readback_v(s@),
                ),
            decreases fuel,
        {
            if s.final_() {
                break ;
            }
            if fuel == 0 {
                proof {
                    assert(k_run_v(s@, 0) is None);
                }
                ran_out = true;
                break ;
            }
            let ghost pre = s@;
            s.step();
            proof {
                assert(k_run_v(pre, fuel as nat) == k_run_v(s@, (fuel - 1) as nat));
            }
            fuel = fuel - 1;
        }
        if ran_out {
            return Option::None;
        }
        let r = s.readback();
        Option::Some(r)
    }
}

} // verus!
