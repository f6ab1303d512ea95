//! The partial abstract machine: a term together with an argument stack,
//! reduced by capture-avoiding substitution.

use crate::lambdaterm::subst_v;
use crate::lambdaterm::term_dsp;
use crate::lambdaterm::term_view;
use crate::lambdaterm::LambdaTerm;
use crate::lambdaterm::TermV;
use vstd::prelude::*;

verus! {

/// The model of a machine state.
#[verifier::ext_equal]
pub struct PStateV {
    pub term: TermV,
    pub stack: Seq<TermV>,
}

/// The view of a stack of terms.
pub open spec fn terms_view(s: Seq<LambdaTerm>) -> Seq<TermV> {
    s.map_values(|t: LambdaTerm| term_view(t))
}

/// A state of the partial abstract machine.
#[derive(Debug, PartialEq)]
pub struct PState {
    term: LambdaTerm,
    stack: Vec<LambdaTerm>,
}

impl View for PState {
    type V = PStateV;

    closed spec fn view(&self) -> PStateV {
        PStateV { term: self.term@, stack: terms_view(self.stack@) }
    }
}

/// Whether a state is final: a variable, or a lambda with nothing left to
/// consume.
pub open spec fn p_final_v(s: PStateV) -> bool {
    match s.term {
        TermV::Var { .. } => true,
        TermV::Lam { .. } => s.stack.len() == 0,
        TermV::App { .. } => false,
    }
}

/// One transition of the machine: an application pushes its argument, a
/// lambda consumes the top of the stack by substitution.  Final states are
/// left unchanged.
pub open spec fn p_step_v(s: PStateV) -> PStateV {
    if p_final_v(s) {
        s
    } else {
        match s.term {
            TermV::App { t1, t2 } => PStateV { term: *t1, stack: s.stack.push(*t2) },
            TermV::Lam { arg, body } => PStateV {
                term: subst_v(*body, arg, s.stack.last()),
                stack: s.stack.drop_last(),
            },
            TermV::Var { .. } => s,
        }
    }
}

/// The machine is never stuck: the final states are exactly the fixed
/// points of the transition function, so every non-final state makes a
/// transition.
pub proof fn lemma_p_step_fixpoint(s: PStateV)
    ensures
        p_final_v(s) <==> p_step_v(s) == s,
{
    if !p_final_v(s) {
        match s.term {
            TermV::App { t1, t2 } => {
                assert(p_step_v(s).stack.len() == s.stack.len() + 1);
            }
            TermV::Lam { arg, body } => {
                assert(p_step_v(s).stack.len() + 1 == s.stack.len());
            }
            TermV::Var { .. } => {}
        }
    }
}

/// The result of running the machine with a bounded allowance of steps:
/// the read-back of the first final state reached, or `None` when the
/// allowance runs out first.
pub open spec fn p_run_v(s: PStateV, fuel: nat) -> Option<TermV>
    decreases fuel,
{
    if p_final_v(s) {
        Option::Some(p_readback_v(s.term, s.stack))
    } else if fuel == 0 {
        Option::None
    } else {
        p_run_v(p_step_v(s), (fuel - 1) as nat)
    }
}

/// The read-back of a state: the argument stack folded onto the term as
/// applications, top of the stack first.
pub open spec fn p_readback_v(t: TermV, stack: Seq<TermV>) -> TermV
    decreases stack.len(),
{
    if stack.len() == 0 {
        t
    } else {
        p_readback_v(
            TermV::App { t1: Box::new(t), t2: Box::new(stack.last()) },
            stack.drop_last(),
        )
    }
}

/// The printed form of the argument stack, top first, each entry followed
/// by a comma.
pub open spec fn p_stack_dsp(stack: Seq<TermV>) -> Seq<char>
    decreases stack.len(),
{
    if stack.len() == 0 {
        Seq::empty()
    } else {
        term_dsp(stack.last()) + ", "@ + p_stack_dsp(stack.drop_last())
    }
}

/// Peeling the bottom entry off a non-empty stack moves its printed form
/// to the back of the printed stack.
pub proof fn lemma_p_stack_dsp_front(stack: Seq<TermV>)
    requires
        stack.len() > 0,
    ensures
        p_stack_dsp(stack) == p_stack_dsp(stack.drop_first()) + term_dsp(stack.first()) + ", "@,
    decreases stack.len(),
{
    if stack.len() == 1 {
        assert(p_stack_dsp(stack.drop_last()) == Seq::<char>::empty());
        assert(p_stack_dsp(stack) =~= p_stack_dsp(stack.drop_first()) + term_dsp(stack.first())
            + ", "@);
    } else {
        lemma_p_stack_dsp_front(stack.drop_last());
        assert(stack.drop_last().drop_first() =~= stack.drop_first().drop_last());
        assert(p_stack_dsp(stack) =~= p_stack_dsp(stack.drop_first()) + term_dsp(stack.first())
            + ", "@);
    }
}

/// The printed form of a state.
pub open spec fn p_state_dsp(s: PStateV) -> Seq<char> {
    if s.stack.len() == 0 {
        "("@ + term_dsp(s.term) + ",[*])"@
    } else {
        "("@ + term_dsp(s.term) + ", ["@ + p_stack_dsp(s.stack) + "*])"@
    }
}

impl PState {
    /// Create a state from a term and an argument stack.
    pub fn new(term: LambdaTerm, stack: Vec<LambdaTerm>) -> (r: Self)
        ensures
            r@ == (PStateV { term: term@, stack: terms_view(stack@) }),
    {
        PState { term, stack }
    }

    /// Create the start state of a term: an empty argument stack.
    pub fn p_start(n: LambdaTerm) -> (r: Self)
        ensures
            r@ == (PStateV { term: n@, stack: Seq::<TermV>::empty() }),
    {
        let r = PState { term: n, stack: Vec::new() };
        proof {
            assert(terms_view(r.stack@) =~= Seq::<TermV>::empty());
        }
        r
    }

    /// Returns true if the state is final, i.e. computation is complete.
    pub fn p_final(&self) -> (b: bool)
        ensures
            b == p_final_v(self@),
    {
        match &self.term {
            LambdaTerm::Variable { .. } => true,
            LambdaTerm::Lambda { .. } => self.stack.len() == 0,
            LambdaTerm::Apply { .. } => false,
        }
    }

    /// Perform one transition in place; a final state is left unchanged.
    pub fn p_step(&mut self)
        ensures
            final(self)@ == p_step_v(old(self)@),
    {
        if self.p_final() {
            return ;
        }
        let t = self.term.clone();
        match t {
            LambdaTerm::Lambda { arg, body } => {
                let top = self.stack.pop().unwrap();
                self.term = body.substitute(&arg, &top);
                proof {
                    assert(terms_view(self.stack@) =~= terms_view(old(self).stack@).drop_last());
                    assert(terms_view(old(self).stack@).last() == top@);
                }
            }
            LambdaTerm::Apply { t1, t2 } => {
                self.term = *t1;
                self.stack.push(*t2);
                proof {
                    assert(terms_view(self.stack@) =~= terms_view(old(self).stack@).push(
                        *old(self)@.term->App_t2,
                    ));
                }
            }
            LambdaTerm::Variable { .. } => {}
        }
    }

    /// Run a term on the machine for at most `max_steps` transitions.
    /// Returns the read-back of the final state when one is reached, and
    /// `None` when the allowance of steps runs out first.
    pub fn p_run(term: LambdaTerm, max_steps: usize) -> (r: Option<LambdaTerm>)
        ensures
            r is Some <==> p_run_v(
                PStateV { term: term@, stack: Seq::<TermV>::empty() },
                max_steps as nat,
            ) is Some,
            r matches Option::Some(t) ==> p_run_v(
                PStateV { term: term@, stack: Seq::<TermV>::empty() },
                max_steps as nat,
            ) == Option::Some(t@),
    {
        let ghost s0 = PStateV { term: term@, stack: Seq::<TermV>::empty() };
        let mut s = PState::p_start(term);
        let mut fuel = max_steps;
        let mut ran_out = false;
        loop
            invariant_except_break
                !ran_out,
                p_run_v(s@, fuel as nat) == p_run_v(s0, max_steps as nat),
            ensures
                ran_out ==> p_run_v(s0, max_steps as nat) is None,
                !ran_out ==> p_final_v(s@) && p_run_v(s0, max_steps as nat) == Option::Some(
                    p_readback_v(s@.term, s@.stack),
                ),
            decreases fuel,
        {
            if s.p_final() {
                break ;
            }
            if fuel == 0 {
                proof {
                    assert(p_run_v(s@, 0) is None);
                }
                ran_out = true;
                break ;
            }
            let ghost pre = s@;
            s.p_step();
            proof {
                assert(p_run_v(pre, fuel as nat) == p_run_v(s@, (fuel - 1) as nat));
            }
            fuel = fuel - 1;
        }
        if ran_out {
            return Option::None;
        }
        let ghost fin = s@;
        let mut t = s.term;
        let mut stack = s.stack;
        while stack.len() > 0
            invariant
                p_readback_v(t@, terms_view(stack@)) == p_readback_v(fin.term, fin.stack),
            decreases stack.len(),
        {
            let ghost prev = stack@;
            let top = stack.pop().unwrap();
            proof {
                assert(terms_view(stack@) =~= terms_view(prev).drop_last());
                assert(terms_view(prev).last() == top@);
            }
            t = LambdaTerm::Apply { t1: Box::new(t), t2: Box::new(top) };
        }
        proof {
            assert(terms_view(stack@) =~= Seq::<TermV>::empty());
        }
        Option::Some(t)
    }

    /// The printed form of the state.
    pub fn display_string(&self) -> (r: String)
        ensures
            r@ == p_state_dsp(self@),
    {
        let mut s = String::from_str("(");
        let td = self.term.display_string();
        s.append(td.as_str());
        if self.stack.len() == 0 {
            s.append(",[*])");
            proof {
                assert(s@ =~= p_state_dsp(self@));
            }
            s
        } else {
            s.append(", [");
            proof {
                assert(self@.stack.subrange(
                    self.stack@.len() as int,
                    self@.stack.len() as int,
                ) =~= Seq::<TermV>::empty());
                assert(s@ =~= "("@ + term_dsp(self@.term) + ", ["@ + p_stack_dsp(
                    Seq::<TermV>::empty(),
                ));
            }
            let mut i: usize = self.stack.len();
            while i > 0
                invariant
                    i <= self.stack.len(),
                    self.stack@.len() == self@.stack.len(),
                    s@ == "("@ + term_dsp(self@.term) + ", ["@ + p_stack_dsp(
                        self@.stack.subrange(i as int, self@.stack.len() as int),
                    ),
                decreases i,
            {
                let td = self.stack[i - 1].display_string();
                s.append(td.as_str());
                s.append(", ");
                proof {
                    let len = self@.stack.len() as int;
                    let sub = self@.stack.subrange(i - 1, len);
                    lemma_p_stack_dsp_front(sub);
                    assert(sub.drop_first() =~= self@.stack.subrange(i as int, len));
                    assert(sub.first() == self@.stack[i - 1]);
                    assert(self@.stack[i - 1] == self.stack@[i - 1]@);
                    assert(s@ =~= "("@ + term_dsp(self@.term) + ", ["@ + p_stack_dsp(sub));
                }
                i = i - 1;
            }
            s.append("*])");
            proof {
                assert(self@.stack.subrange(0, self@.stack.len() as int) =~= self@.stack);
                assert(s@ =~= p_state_dsp(self@));
            }
            s
        }
    }
}

} // verus!
