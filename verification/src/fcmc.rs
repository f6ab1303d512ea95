//! The functional concurrent machine calculus: the sequential calculus
//! generalised to named locations — thread-local stacks and shared
//! channels — with a fork primitive.  The machine here is a deterministic
//! scheduler over a pool of threads: the lowest-numbered thread that can
//! make a step makes it, so every run of a term is a function of the term
//! alone.

use crate::names::name_set;
use crate::names::names_view;
use crate::names::no_dup_names;
use crate::names::push_unique;
use crate::lambdaterm::Var;
use vstd::prelude::*;

verus! {

/// The model of a concurrent term.
#[verifier::ext_equal]
pub enum CTermV {
    Skip,
    Var { name: Seq<char> },
    Pop { location: Seq<char>, arg: Seq<char>, next: Box<CTermV> },
    Push { term: Box<CTermV>, location: Seq<char>, next: Box<CTermV> },
    Sequence { term: Box<CTermV>, next: Box<CTermV> },
    Fork { forked: Box<CTermV>, cont: Box<CTermV> },
}

/// A term of the concurrent calculus: pushes and pops name the location
/// they act on, and a fork spawns a thread.
#[derive(Debug, PartialEq)]
pub enum FcmcTerm {
    Skip,
    Variable { name: Var },
    Pop { location_id: Var, arg: Var, next: Box<FcmcTerm> },
    Push { term: Box<FcmcTerm>, location_id: Var, next: Box<FcmcTerm> },
    Sequence { term: Box<FcmcTerm>, next: Box<FcmcTerm> },
    Fork { forked: Box<FcmcTerm>, cont: Box<FcmcTerm> },
}

pub open spec fn cterm_view(t: FcmcTerm) -> CTermV
    decreases t,
{
    match t {
        FcmcTerm::Skip => CTermV::Skip,
        FcmcTerm::Variable { name } => CTermV::Var { name: name@ },
        FcmcTerm::Pop { location_id, arg, next } => CTermV::Pop {
            location: location_id@,
            arg: arg@,
            next: Box::new(cterm_view(*next)),
        },
        FcmcTerm::Push { term, location_id, next } => CTermV::Push {
            term: Box::new(cterm_view(*term)),
            location: location_id@,
            next: Box::new(cterm_view(*next)),
        },
        FcmcTerm::Sequence { term, next } => CTermV::Sequence {
            term: Box::new(cterm_view(*term)),
            next: Box::new(cterm_view(*next)),
        },
        FcmcTerm::Fork { forked, cont } => CTermV::Fork {
            forked: Box::new(cterm_view(*forked)),
            cont: Box::new(cterm_view(*cont)),
        },
    }
}

impl View for FcmcTerm {
    type V = CTermV;

    open spec fn view(&self) -> CTermV {
        cterm_view(*self)
    }
}

impl Clone for FcmcTerm {
    fn clone(&self) -> (res: Self)
        ensures
            res@ == self@,
        decreases *self,
    {
        match self {
            FcmcTerm::Skip => FcmcTerm::Skip,
            FcmcTerm::Variable { name } => FcmcTerm::Variable { name: name.clone() },
            FcmcTerm::Pop { location_id, arg, next } => FcmcTerm::Pop {
                location_id: location_id.clone(),
                arg: arg.clone(),
                next: Box::new((**next).clone()),
            },
            FcmcTerm::Push { term, location_id, next } => FcmcTerm::Push {
                term: Box::new((**term).clone()),
                location_id: location_id.clone(),
                next: Box::new((**next).clone()),
            },
            FcmcTerm::Sequence { term, next } => FcmcTerm::Sequence {
                term: Box::new((**term).clone()),
                next: Box::new((**next).clone()),
            },
            FcmcTerm::Fork { forked, cont } => FcmcTerm::Fork {
                forked: Box::new((**forked).clone()),
                cont: Box::new((**cont).clone()),
            },
        }
    }
}

/// Whether a location name names a channel: channels are the locations
/// whose name starts with a tilde; all others are stacks.
pub open spec fn is_chan(name: Seq<char>) -> bool {
    name.len() > 0 && name[0] == '~'
}

/// The printed form of a concurrent term: `loc<x>` for a pop, `[t]loc`
/// for a push, `{t}` for a fork.
pub open spec fn cterm_dsp(t: CTermV) -> Seq<char>
    decreases t,
{
    match t {
        CTermV::Skip => "*"@,
        CTermV::Var { name } => name,
        CTermV::Pop { location, arg, next } => if *next is Skip {
            location + "<"@ + arg + ">"@
        } else {
            location + "<"@ + arg + ">."@ + cterm_dsp(*next)
        },
        CTermV::Push { term, location, next } => if *next is Skip {
            "["@ + cterm_dsp(*term) + "]"@ + location
        } else {
            "["@ + cterm_dsp(*term) + "]"@ + location + "."@ + cterm_dsp(*next)
        },
        CTermV::Sequence { term, next } => if *next is Skip {
            cterm_dsp(*term)
        } else {
            cterm_dsp(*term) + ";"@ + cterm_dsp(*next)
        },
        CTermV::Fork { forked, cont } => if *cont is Skip {
            "{"@ + cterm_dsp(*forked) + "}"@
        } else {
            "{"@ + cterm_dsp(*forked) + "}."@ + cterm_dsp(*cont)
        },
    }
}

/// The channel names that a term mentions in a pop or a push, in the
/// order the scan visits them, duplicates included.
pub open spec fn raw_chans(t: CTermV) -> Seq<Seq<char>>
    decreases t,
{
    match t {
        CTermV::Skip => Seq::empty(),
        CTermV::Var { .. } => Seq::empty(),
        CTermV::Pop { location, next, .. } => if is_chan(location) {
            seq![location] + raw_chans(*next)
        } else {
            raw_chans(*next)
        },
        CTermV::Push { term, location, next } => if is_chan(location) {
            seq![location] + raw_chans(*next) + raw_chans(*term)
        } else {
            raw_chans(*next) + raw_chans(*term)
        },
        CTermV::Sequence { term, next } => raw_chans(*next) + raw_chans(*term),
        CTermV::Fork { forked, cont } => raw_chans(*cont) + raw_chans(*forked),
    }
}

/// Append to `acc` each name of `s` in order, skipping those already
/// present: the first occurrence of each name is kept.
pub open spec fn dedup_acc(acc: Seq<Seq<char>>, s: Seq<Seq<char>>) -> Seq<Seq<char>>
    decreases s.len(),
{
    if s.len() == 0 {
        acc
    } else {
        dedup_acc(
            if acc.contains(s.first()) {
                acc
            } else {
                acc.push(s.first())
            },
            s.drop_first(),
        )
    }
}

/// Deduplicating a concatenation deduplicates its parts in turn.
pub proof fn lemma_dedup_acc_concat(acc: Seq<Seq<char>>, a: Seq<Seq<char>>, b: Seq<Seq<char>>)
    ensures
        dedup_acc(acc, a + b) == dedup_acc(dedup_acc(acc, a), b),
    decreases a.len(),
{
    if a.len() == 0 {
        assert(a + b =~= b);
    } else {
        assert((a + b).first() == a.first());
        assert((a + b).drop_first() =~= a.drop_first() + b);
        let acc2 = if acc.contains(a.first()) {
            acc
        } else {
            acc.push(a.first())
        };
        lemma_dedup_acc_concat(acc2, a.drop_first(), b);
    }
}

/// The channel names of a term, first occurrence of each kept, in scan
/// order.
pub open spec fn chan_list_v(t: CTermV) -> Seq<Seq<char>> {
    dedup_acc(Seq::empty(), raw_chans(t))
}

/// Whether a location name names a channel.
pub(crate) fn is_channel_name(name: &String) -> (b: bool)
    ensures
        b == is_chan(name@),
{
    let s = name.as_str();
    let n = s.unicode_len();
    if n == 0 {
        false
    } else {
        let c = s.get_char(0);
        c == '~'
    }
}

impl FcmcTerm {
    /// Turn a `&str` into a `Variable`.
    pub fn new_variable(name: &str) -> (r: Self)
        ensures
            r@ == (CTermV::Var { name: name@ }),
    {
        FcmcTerm::Variable { name: name.to_owned() }
    }

    /// Turn a location, a `&str` and a term into a `Pop`.
    pub fn new_pop(location: Var, arg: &str, next: FcmcTerm) -> (r: Self)
        ensures
            r@ == (CTermV::Pop { location: location@, arg: arg@, next: Box::new(next@) }),
    {
        FcmcTerm::Pop { location_id: location, arg: arg.to_owned(), next: Box::new(next) }
    }

    /// Turn two terms and a location into a `Push`.
    pub fn new_push(term: FcmcTerm, location: Var, next: FcmcTerm) -> (r: Self)
        ensures
            r@ == (CTermV::Push {
                term: Box::new(term@),
                location: location@,
                next: Box::new(next@),
            }),
    {
        FcmcTerm::Push { term: Box::new(term), location_id: location, next: Box::new(next) }
    }

    /// Turn two terms into a `Seq`.
    pub fn new_seq(term: FcmcTerm, next: FcmcTerm) -> (r: Self)
        ensures
            r@ == (CTermV::Sequence { term: Box::new(term@), next: Box::new(next@) }),
    {
        FcmcTerm::Sequence { term: Box::new(term), next: Box::new(next) }
    }

    /// Turn two terms into a `Fork`.
    pub fn new_fork(forked: FcmcTerm, cont: FcmcTerm) -> (r: Self)
        ensures
            r@ == (CTermV::Fork { forked: Box::new(forked@), cont: Box::new(cont@) }),
    {
        FcmcTerm::Fork { forked: Box::new(forked), cont: Box::new(cont) }
    }

    /// Return the channel names mentioned in the term, first occurrence
    /// of each kept, in scan order.  Channel names start with a `~`;
    /// stacks need not be created ahead of time.
    pub fn channel_scan(&self) -> (r: Vec<Var>)
        ensures
            names_view(r@) == chan_list_v(self@),
            no_dup_names(r@),
    {
        let mut list: Vec<Var> = Vec::new();
        proof {
            assert(names_view(list@) =~= Seq::<Seq<char>>::empty());
        }
        self.scan_into(&mut list);
        list
    }

    /// Add the channel names of the term to a list, skipping those
    /// already present.
    fn scan_into(&self, list: &mut Vec<Var>)
        requires
            no_dup_names(old(list)@),
        ensures
            no_dup_names(final(list)@),
            names_view(final(list)@) == dedup_acc(names_view(old(list)@), raw_chans(self@)),
        decreases *self,
    {
        let ghost acc0 = names_view(list@);
        match self {
            FcmcTerm::Skip => {}
            FcmcTerm::Variable { .. } => {}
            FcmcTerm::Pop { location_id, next, .. } => {
                if is_channel_name(location_id) {
                    push_unique(list, location_id.clone());
                    proof {
                        assert(raw_chans(self@) =~= seq![location_id@] + raw_chans(next@));
                        lemma_dedup_acc_concat(acc0, seq![location_id@], raw_chans(next@));
                        assert(seq![location_id@].drop_first() =~= Seq::<Seq<char>>::empty());
                        assert(name_set(old(list)@).contains(location_id@) == acc0.contains(
                            location_id@,
                        ));
                        reveal_with_fuel(dedup_acc, 3);
                        assert(names_view(list@) == dedup_acc(acc0, seq![location_id@]));
                    }
                }
                next.scan_into(list);
            }
            FcmcTerm::Push { term, location_id, next } => {
                let ghost rsub = raw_chans(next@) + raw_chans(term@);
                if is_channel_name(location_id) {
                    push_unique(list, location_id.clone());
                    proof {
                        assert(raw_chans(self@) =~= seq![location_id@] + rsub);
                        lemma_dedup_acc_concat(acc0, seq![location_id@], rsub);
                        assert(seq![location_id@].drop_first() =~= Seq::<Seq<char>>::empty());
                        assert(name_set(old(list)@).contains(location_id@) == acc0.contains(
                            location_id@,
                        ));
                        reveal_with_fuel(dedup_acc, 3);
                        assert(names_view(list@) == dedup_acc(acc0, seq![location_id@]));
                    }
                }
                let ghost acc1 = names_view(list@);
                next.scan_into(list);
                term.scan_into(list);
                proof {
                    lemma_dedup_acc_concat(acc1, raw_chans(next@), raw_chans(term@));
                }
            }
            FcmcTerm::Sequence { term, next } => {
                next.scan_into(list);
                term.scan_into(list);
                proof {
                    lemma_dedup_acc_concat(acc0, raw_chans(next@), raw_chans(term@));
                }
            }
            FcmcTerm::Fork { forked, cont } => {
                cont.scan_into(list);
                forked.scan_into(list);
                proof {
                    lemma_dedup_acc_concat(acc0, raw_chans(cont@), raw_chans(forked@));
                }
            }
        }
    }

    /// The printed form of the term.
    pub fn display_string(&self) -> (r: String)
        ensures
            r@ == cterm_dsp(self@),
        decreases *self,
    {
        match self {
            FcmcTerm::Skip => String::from_str("*"),
            FcmcTerm::Variable { name } => name.clone(),
            FcmcTerm::Pop { location_id, arg, next } => {
                let mut s = location_id.clone();
                s.append("<");
                s.append(arg.as_str());
                if matches!(**next, FcmcTerm::Skip) {
                    s.append(">");
                } else {
                    s.append(">.");
                    let nd = next.display_string();
                    s.append(nd.as_str());
                }
                proof {
                    reveal_with_fuel(cterm_view, 2);
                    assert(s@ =~= cterm_dsp(self@));
                }
                s
            }
            FcmcTerm::Push { term, location_id, next } => {
                let mut s = String::from_str("[");
                let td = term.display_string();
                s.append(td.as_str());
                s.append("]");
                s.append(location_id.as_str());
                if !matches!(**next, FcmcTerm::Skip) {
                    s.append(".");
                    let nd = next.display_string();
                    s.append(nd.as_str());
                }
                proof {
                    reveal_with_fuel(cterm_view, 2);
                    assert(s@ =~= cterm_dsp(self@));
                }
                s
            }
            FcmcTerm::Sequence { term, next } => {
                let mut s = term.display_string();
                if !matches!(**next, FcmcTerm::Skip) {
                    s.append(";");
                    let nd = next.display_string();
                    s.append(nd.as_str());
                }
                proof {
                    reveal_with_fuel(cterm_view, 2);
                    assert(s@ =~= cterm_dsp(self@));
                }
                s
            }
            FcmcTerm::Fork { forked, cont } => {
                let mut s = String::from_str("{");
                let fd = forked.display_string();
                s.append(fd.as_str());
                if matches!(**cont, FcmcTerm::Skip) {
                    s.append("}");
                } else {
                    s.append("}.");
                    let cd = cont.display_string();
                    s.append(cd.as_str());
                }
                proof {
                    reveal_with_fuel(cterm_view, 2);
                    assert(s@ =~= cterm_dsp(self@));
                }
                s
            }
        }
    }
}

/// The printed form of an environment entry: the name in quotes, then
/// the closure.
pub open spec fn centry_dsp(e: (Seq<char>, CClosureV)) -> Seq<char>
    decreases e.1, 1int,
{
    "(\""@ + e.0 + "\", "@ + cclosure_dsp(e.1) + ")"@
}

/// The printed form of the first `n` entries of an environment, newest
/// first, separated by commas.
pub open spec fn cenv_dsp(env: Seq<(Seq<char>, CClosureV)>, n: int) -> Seq<char>
    decreases env, n,
{
    if n <= 0 || n > env.len() {
        Seq::empty()
    } else if n == 1 {
        centry_dsp(env[0])
    } else {
        centry_dsp(env[n - 1]) + ", "@ + cenv_dsp(env, n - 1)
    }
}

/// The printed form of a closure: its term, then its environment,
/// newest binding first.
pub open spec fn cclosure_dsp(c: CClosureV) -> Seq<char>
    decreases c, 0int,
{
    cterm_dsp(c.term) + ", ["@ + cenv_dsp(c.env, c.env.len() as int) + "]"@
}

/// The model of a concurrent closure.
#[verifier::ext_equal]
pub struct CClosureV {
    pub term: CTermV,
    pub env: Seq<(Seq<char>, CClosureV)>,
}

/// A closure of the concurrent machine.
#[derive(Debug, PartialEq)]
pub struct FcmcClosure {
    pub term: FcmcTerm,
    pub env: Vec<(Var, FcmcClosure)>,
}

/// The view of an environment.
pub open spec fn cenv_view(env: Seq<(Var, FcmcClosure)>) -> Seq<(Seq<char>, CClosureV)>
    decreases env,
{
    Seq::new(
        env.len(),
        |i: int|
            if 0 <= i < env.len() {
                (env[i].0@, cclosure_view(env[i].1))
            } else {
                (Seq::<char>::empty(), CClosureV { term: CTermV::Skip, env: Seq::empty() })
            },
    )
}

pub open spec fn cclosure_view(c: FcmcClosure) -> CClosureV
    decreases c,
{
    CClosureV { term: cterm_view(c.term), env: cenv_view(c.env@) }
}

impl View for FcmcClosure {
    type V = CClosureV;

    open spec fn view(&self) -> CClosureV {
        cclosure_view(*self)
    }
}

/// The weight of a concurrent term: a pop binder weighs more than the
/// self-binding that read-back adds for it.
pub open spec fn cwsize(t: CTermV) -> nat
    decreases t,
{
    match t {
        CTermV::Skip => 1,
        CTermV::Var { .. } => 1,
        CTermV::Pop { next, .. } => 3 + cwsize(*next),
        CTermV::Push { term, next, .. } => 1 + cwsize(*term) + cwsize(*next),
        CTermV::Sequence { term, next } => 1 + cwsize(*term) + cwsize(*next),
        CTermV::Fork { forked, cont } => 1 + cwsize(*forked) + cwsize(*cont),
    }
}

/// The weight of the first `n` entries of an environment.
pub open spec fn cesize(env: Seq<(Seq<char>, CClosureV)>, n: int) -> nat
    decreases env, n,
{
    if n <= 0 || n > env.len() {
        0
    } else {
        cesize(env, n - 1) + 1 + ccsize(env[n - 1].1)
    }
}

/// The weight of a closure.
pub open spec fn ccsize(c: CClosureV) -> nat
    decreases c, 0int,
{
    cwsize(c.term) + cesize(c.env, c.env.len() as int)
}

/// `cesize` looks only at the entries below `n`.
pub proof fn lemma_cesize_prefix(
    env1: Seq<(Seq<char>, CClosureV)>,
    env2: Seq<(Seq<char>, CClosureV)>,
    n: int,
)
    requires
        0 <= n <= env1.len(),
        n <= env2.len(),
        forall|i: int| 0 <= i < n ==> env1[i] == env2[i],
    ensures
        cesize(env1, n) == cesize(env2, n),
    decreases n,
{
    if n > 0 {
        lemma_cesize_prefix(env1, env2, n - 1);
    }
}

/// Every entry of an environment weighs less than the whole environment.
pub proof fn lemma_cesize_element(env: Seq<(Seq<char>, CClosureV)>, i: int, n: int)
    requires
        0 <= i < n <= env.len(),
    ensures
        ccsize(env[i].1) < cesize(env, n),
    decreases n,
{
    if i < n - 1 {
        lemma_cesize_element(env, i, n - 1);
    }
}

/// The model of read-back: apply the environment to the term; a pop
/// binder extends the environment with a self-binding.
pub open spec fn cretrieve_v(c: CClosureV) -> CTermV
    decreases ccsize(c),
    via cretrieve_v_dec
{
    match c.term {
        CTermV::Skip => c.term,
        CTermV::Var { name } => {
            if c.env.len() == 0 {
                c.term
            } else if c.env.last().0 == name {
                cretrieve_v(c.env.last().1)
            } else {
                cretrieve_v(CClosureV { term: c.term, env: c.env.drop_last() })
            }
        }
        CTermV::Pop { location, arg, next } => CTermV::Pop {
            location,
            arg,
            next: Box::new(
                cretrieve_v(
                    CClosureV {
                        term: *next,
                        env: c.env.push(
                            (arg, CClosureV { term: CTermV::Var { name: arg }, env: Seq::empty() }),
                        ),
                    },
                ),
            ),
        },
        CTermV::Push { term, location, next } => CTermV::Push {
            term: Box::new(cretrieve_v(CClosureV { term: *term, env: c.env })),
            location,
            next: Box::new(cretrieve_v(CClosureV { term: *next, env: c.env })),
        },
        CTermV::Sequence { term, next } => CTermV::Sequence {
            term: Box::new(cretrieve_v(CClosureV { term: *term, env: c.env })),
            next: Box::new(cretrieve_v(CClosureV { term: *next, env: c.env })),
        },
        CTermV::Fork { forked, cont } => CTermV::Fork {
            forked: Box::new(cretrieve_v(CClosureV { term: *forked, env: c.env })),
            cont: Box::new(cretrieve_v(CClosureV { term: *cont, env: c.env })),
        },
    }
}

#[via_fn]
proof fn cretrieve_v_dec(c: CClosureV) {
    let len = c.env.len() as int;
    match c.term {
        CTermV::Var { name } => {
            if c.env.len() > 0 {
                if c.env.last().0 == name {
                    lemma_cesize_element(c.env, len - 1, len);
                } else {
                    let shorter = c.env.drop_last();
                    lemma_cesize_prefix(shorter, c.env, len - 1);
                    lemma_cesize_element(c.env, len - 1, len);
                }
            }
        }
        CTermV::Pop { arg, .. } => {
            let selfbind = CClosureV { term: CTermV::Var { name: arg }, env: Seq::empty() };
            let pushed = c.env.push((arg, selfbind));
            lemma_cesize_prefix(c.env, pushed, len);
            assert(cesize(pushed, len + 1) == cesize(pushed, len) + 1 + ccsize(selfbind));
            assert(ccsize(selfbind) == 1) by {
                assert(cesize(Seq::<(Seq<char>, CClosureV)>::empty(), 0) == 0);
            }
        }
        _ => {}
    }
}

/// An environment holding only self-bindings, as read-back of a binder
/// introduces them.
pub open spec fn c_self_env(env: Seq<(Seq<char>, CClosureV)>) -> bool {
    forall|i: int| 0 <= i < env.len() ==> env[i].1 == (CClosureV {
        term: CTermV::Var { name: env[i].0 },
        env: Seq::<(Seq<char>, CClosureV)>::empty(),
    })
}

/// Under an environment of self-bindings only, read-back returns the
/// term unchanged.
pub proof fn lemma_cretrieve_self_env(c: CClosureV)
    requires
        c_self_env(c.env),
    ensures
        cretrieve_v(c) == c.term,
    decreases ccsize(c),
{
    let len = c.env.len() as int;
    match c.term {
        CTermV::Var { name } => {
            if c.env.len() > 0 {
                if c.env.last().0 == name {
                    lemma_cesize_element(c.env, len - 1, len);
                    lemma_cretrieve_self_env(c.env.last().1);
                } else {
                    let shorter = c.env.drop_last();
                    lemma_cesize_prefix(shorter, c.env, len - 1);
                    lemma_cesize_element(c.env, len - 1, len);
                    lemma_cretrieve_self_env(CClosureV { term: c.term, env: shorter });
                }
            }
        }
        CTermV::Pop { location, arg, next } => {
            let selfbind = CClosureV { term: CTermV::Var { name: arg }, env: Seq::empty() };
            let pushed = c.env.push((arg, selfbind));
            lemma_cesize_prefix(c.env, pushed, len);
            assert(cesize(pushed, len + 1) == cesize(pushed, len) + 1 + ccsize(selfbind));
            assert(ccsize(selfbind) == 1) by {
                assert(cesize(Seq::<(Seq<char>, CClosureV)>::empty(), 0) == 0);
            }
            assert(c_self_env(pushed));
            lemma_cretrieve_self_env(CClosureV { term: *next, env: pushed });
        }
        CTermV::Push { term, next, .. } => {
            lemma_cretrieve_self_env(CClosureV { term: *term, env: c.env });
            lemma_cretrieve_self_env(CClosureV { term: *next, env: c.env });
        }
        CTermV::Sequence { term, next } => {
            lemma_cretrieve_self_env(CClosureV { term: *term, env: c.env });
            lemma_cretrieve_self_env(CClosureV { term: *next, env: c.env });
        }
        CTermV::Fork { forked, cont } => {
            lemma_cretrieve_self_env(CClosureV { term: *forked, env: c.env });
            lemma_cretrieve_self_env(CClosureV { term: *cont, env: c.env });
        }
        CTermV::Skip => {}
    }
}

/// Read-back is idempotent: reading back a closure of the read-back of
/// `c` over the empty environment gives the read-back of `c` again.
pub proof fn lemma_creadback_idempotent(c: CClosureV)
    ensures
        cretrieve_v(
            CClosureV { term: cretrieve_v(c), env: Seq::<(Seq<char>, CClosureV)>::empty() },
        ) == cretrieve_v(c),
{
    lemma_cretrieve_self_env(
        CClosureV { term: cretrieve_v(c), env: Seq::<(Seq<char>, CClosureV)>::empty() },
    );
}

/// Clone an environment, preserving its view.
pub(crate) fn cclone_env(env: &Vec<(Var, FcmcClosure)>) -> (r: Vec<(Var, FcmcClosure)>)
    ensures
        cenv_view(r@) == cenv_view(env@),
    decreases cesize(cenv_view(env@), env@.len() as int),
{
    let mut r: Vec<(Var, FcmcClosure)> = Vec::new();
    let n = env.len();
    let mut i: usize = 0;
    while i < n
        invariant
            i <= n,
            n == env.len(),
            r@.len() == i as int,
            forall|j: int| 0 <= j < i ==> cenv_view(r@)[j] == cenv_view(env@)[j],
        decreases n - i,
    {
        proof {
            lemma_cesize_element(cenv_view(env@), i as int, cenv_view(env@).len() as int);
            assert(cenv_view(env@)[i as int].1 == cclosure_view(env@[i as int].1));
        }
        let name = env[i].0.clone();
        let cl = env[i].1.clone();
        let ghost prevr = r@;
        r.push((name, cl));
        proof {
            assert(forall|j: int| 0 <= j < i ==> cenv_view(r@)[j] == cenv_view(prevr)[j]);
            assert(cenv_view(r@)[i as int] == cenv_view(env@)[i as int]);
        }
        i = i + 1;
    }
    proof {
        assert(cenv_view(r@) =~= cenv_view(env@));
    }
    r
}

fn centry_display(e: &(Var, FcmcClosure)) -> (r: String)
    ensures
        r@ == centry_dsp((e.0@, e.1@)),
    decreases e.1@, 1int,
{
    let mut s = String::from_str("(\"");
    s.append(e.0.as_str());
    s.append("\", ");
    let cd = e.1.display_string();
    s.append(cd.as_str());
    s.append(")");
    proof {
        assert(s@ =~= centry_dsp((e.0@, e.1@)));
    }
    s
}

fn cenv_display(env: &Vec<(Var, FcmcClosure)>, n: usize) -> (r: String)
    requires
        n <= env@.len(),
    ensures
        r@ == cenv_dsp(cenv_view(env@), n as int),
    decreases cenv_view(env@), n as int,
{
    proof {
        assert(cenv_view(env@).len() == env@.len());
    }
    if n == 0 {
        let r = String::new();
        proof {
            assert(r@ =~= cenv_dsp(cenv_view(env@), 0));
        }
        r
    } else if n == 1 {
        proof {
            assert(cenv_view(env@)[0] == (env@[0].0@, env@[0].1@));
            assert(decreases_to!(cenv_view(env@) => cenv_view(env@)[0]));
            assert(decreases_to!(cenv_view(env@)[0] => cenv_view(env@)[0].1));
        }
        let r = centry_display(&env[0]);
        r
    } else {
        proof {
            assert(cenv_view(env@)[n - 1] == (env@[n - 1].0@, env@[n - 1].1@));
            assert(decreases_to!(cenv_view(env@) => cenv_view(env@)[n - 1]));
            assert(decreases_to!(cenv_view(env@)[n - 1] => cenv_view(env@)[n - 1].1));
        }
        let mut s = centry_display(&env[n - 1]);
        s.append(", ");
        let rest = cenv_display(env, n - 1);
        s.append(rest.as_str());
        proof {
            assert(s@ =~= cenv_dsp(cenv_view(env@), n as int));
        }
        s
    }
}

impl FcmcClosure {
    /// The printed form of the closure.
    pub fn display_string(&self) -> (r: String)
        ensures
            r@ == cclosure_dsp(self@),
        decreases self@, 0int,
    {
        let mut s = self.term.display_string();
        s.append(", [");
        proof {
            assert(decreases_to!(self@ => self@.env));
            assert(self@.env == cenv_view(self.env@));
        }
        let ed = cenv_display(&self.env, self.env.len());
        s.append(ed.as_str());
        s.append("]");
        proof {
            assert(s@ =~= cclosure_dsp(self@));
        }
        s
    }
}

impl Clone for FcmcClosure {
    fn clone(&self) -> (res: Self)
        ensures
            res@ == self@,
        decreases ccsize(self@),
    {
        let res = FcmcClosure { term: self.term.clone(), env: cclone_env(&self.env) };
        proof {
            assert(res@ == self@);
        }
        res
    }
}

impl FcmcClosure {
    /// Create a closure from a term and an environment.
    pub fn new(term: FcmcTerm, env: Vec<(Var, FcmcClosure)>) -> (r: Self)
        ensures
            r@ == (CClosureV { term: term@, env: cenv_view(env@) }),
    {
        FcmcClosure { term, env }
    }

    /// Apply the environment to the term and return the resulting plain
    /// term.
    pub fn retrieve_term(self) -> (r: FcmcTerm)
        ensures
            r@ == cretrieve_v(self@),
        decreases ccsize(self@),
    {
        let ghost cv = self@;
        let FcmcClosure { term, mut env } = self;
        match term {
            FcmcTerm::Skip => FcmcTerm::Skip,
            FcmcTerm::Variable { name } => {
                if env.len() == 0 {
                    proof {
                        assert(cenv_view(env@) =~= Seq::<(Seq<char>, CClosureV)>::empty());
                    }
                    FcmcTerm::Variable { name }
                } else {
                    let ghost prev = env@;
                    let env_last = env.pop().unwrap();
                    proof {
                        assert(cenv_view(prev).last() == (env_last.0@, env_last.1@));
                        assert(cenv_view(env@) =~= cenv_view(prev).drop_last());
                        lemma_cesize_element(cv.env, cv.env.len() - 1, cv.env.len() as int);
                        lemma_cesize_prefix(cenv_view(env@), cv.env, cv.env.len() - 1);
                    }
                    if env_last.0 == name {
                        env_last.1.retrieve_term()
                    } else {
                        let c = FcmcClosure { term: FcmcTerm::Variable { name }, env };
                        c.retrieve_term()
                    }
                }
            }
            FcmcTerm::Pop { location_id, arg, next } => {
                let selfbind = FcmcClosure {
                    term: FcmcTerm::Variable { name: arg.clone() },
                    env: Vec::new(),
                };
                proof {
                    assert(cenv_view(selfbind.env@) =~= Seq::<(Seq<char>, CClosureV)>::empty());
                    assert(selfbind@ == (CClosureV {
                        term: CTermV::Var { name: arg@ },
                        env: Seq::<(Seq<char>, CClosureV)>::empty(),
                    }));
                }
                env.push((arg.clone(), selfbind));
                let c = FcmcClosure { term: *next, env };
                proof {
                    assert(cenv_view(c.env@) =~= cv.env.push(
                        (arg@, CClosureV {
                            term: CTermV::Var { name: arg@ },
                            env: Seq::<(Seq<char>, CClosureV)>::empty(),
                        }),
                    ));
                    lemma_cesize_prefix(cv.env, cenv_view(c.env@), cv.env.len() as int);
                    assert(cesize(cenv_view(c.env@), cv.env.len() as int + 1) == cesize(
                        cenv_view(c.env@),
                        cv.env.len() as int,
                    ) + 1 + ccsize(cenv_view(c.env@).last().1));
                    assert(ccsize(cenv_view(c.env@).last().1) == 1) by {
                        assert(cesize(Seq::<(Seq<char>, CClosureV)>::empty(), 0) == 0);
                    }
                }
                let inner = c.retrieve_term();
                FcmcTerm::Pop { location_id, arg, next: Box::new(inner) }
            }
            FcmcTerm::Push { term: pterm, location_id, next } => {
                let c1 = FcmcClosure { term: *pterm, env: cclone_env(&env) };
                proof {
                    assert(cenv_view(c1.env@) == cv.env);
                }
                let r1 = c1.retrieve_term();
                let c2 = FcmcClosure { term: *next, env };
                let r2 = c2.retrieve_term();
                FcmcTerm::Push { term: Box::new(r1), location_id, next: Box::new(r2) }
            }
            FcmcTerm::Sequence { term: sterm, next } => {
                let c1 = FcmcClosure { term: *sterm, env: cclone_env(&env) };
                proof {
                    assert(cenv_view(c1.env@) == cv.env);
                }
                let r1 = c1.retrieve_term();
                let c2 = FcmcClosure { term: *next, env };
                let r2 = c2.retrieve_term();
                FcmcTerm::Sequence { term: Box::new(r1), next: Box::new(r2) }
            }
            FcmcTerm::Fork { forked, cont } => {
                let c1 = FcmcClosure { term: *forked, env: cclone_env(&env) };
                proof {
                    assert(cenv_view(c1.env@) == cv.env);
                }
                let r1 = c1.retrieve_term();
                let c2 = FcmcClosure { term: *cont, env };
                let r2 = c2.retrieve_term();
                FcmcTerm::Fork { forked: Box::new(r1), cont: Box::new(r2) }
            }
        }
    }
}

/// The view of a queue of closures.
pub open spec fn queue_view(q: Seq<FcmcClosure>) -> Seq<CClosureV> {
    q.map_values(|c: FcmcClosure| cclosure_view(c))
}

/// A family of named locations, each holding a list of closures.
pub type LocMap = Vec<(Var, Vec<FcmcClosure>)>;

/// The model of a family of named locations.
pub type LocMapV = Seq<(Seq<char>, Seq<CClosureV>)>;

/// The view of a location map.
pub open spec fn locmap_view(m: Seq<(Var, Vec<FcmcClosure>)>) -> LocMapV {
    m.map_values(|e: (Var, Vec<FcmcClosure>)| (e.0@, queue_view(e.1@)))
}

/// The index of the first location with the given name, or a negative
/// number when there is none.
pub open spec fn loc_index(m: LocMapV, name: Seq<char>) -> int
    decreases m.len(),
{
    if m.len() == 0 {
        -1
    } else if m[0].0 == name {
        0
    } else if loc_index(m.drop_first(), name) < 0 {
        -1
    } else {
        loc_index(m.drop_first(), name) + 1
    }
}

pub proof fn lemma_loc_index(m: LocMapV, name: Seq<char>)
    ensures
        loc_index(m, name) >= 0 ==> loc_index(m, name) < m.len() && m[loc_index(m, name)].0
            == name && forall|j: int| 0 <= j < loc_index(m, name) ==> m[j].0 != name,
        loc_index(m, name) < 0 ==> forall|j: int| 0 <= j < m.len() ==> m[j].0 != name,
    decreases m.len(),
{
    if m.len() > 0 && m[0].0 != name {
        let rest = m.drop_first();
        lemma_loc_index(rest, name);
        let li = loc_index(rest, name);
        if li >= 0 {
            assert(m[li + 1] == rest[li]);
            assert forall|j: int| 0 <= j < li + 1 implies m[j].0 != name by {
                if j > 0 {
                    assert(m[j] == rest[j - 1]);
                }
            }
        } else {
            assert forall|j: int| 0 <= j < m.len() implies m[j].0 != name by {
                if j > 0 {
                    assert(m[j] == rest[j - 1]);
                }
            }
        }
    }
}

/// Find the first location with the given name.
fn find_loc(m: &LocMap, name: &String) -> (r: Option<usize>)
    ensures
        r matches Option::Some(i) ==> i < m@.len() && loc_index(locmap_view(m@), name@)
            == i as int,
        r is None ==> loc_index(locmap_view(m@), name@) < 0,
{
    let mut i: usize = 0;
    while i < m.len()
        invariant
            i <= m@.len(),
            forall|j: int| 0 <= j < i ==> locmap_view(m@)[j].0 != name@,
        decreases m@.len() - i,
    {
        let e = &m[i];
        if e.0 == *name {
            proof {
                lemma_loc_index(locmap_view(m@), name@);
                assert(locmap_view(m@)[i as int].0 == name@);
            }
            return Option::Some(i);
        }
        i = i + 1;
    }
    proof {
        lemma_loc_index(locmap_view(m@), name@);
        if loc_index(locmap_view(m@), name@) >= 0 {
            assert(false);
        }
    }
    Option::None
}

/// Append a closure at the back of the location at index `i`.
fn loc_push_back(m: &mut LocMap, i: usize, cl: FcmcClosure)
    requires
        i < old(m)@.len(),
    ensures
        locmap_view(final(m)@) == locmap_view(old(m)@).update(
            i as int,
            (
                locmap_view(old(m)@)[i as int].0,
                locmap_view(old(m)@)[i as int].1.push(cl@),
            ),
        ),
{
    let ghost m0 = locmap_view(m@);
    let mut e = m.remove(i);
    let ghost q0 = e.1@;
    e.1.push(cl);
    m.insert(i, e);
    proof {
        assert(queue_view(e.1@) =~= queue_view(q0).push(cl@));
        assert(locmap_view(m@) =~= m0.update(i as int, (m0[i as int].0, m0[i as int].1.push(cl@))));
    }
}

/// Take the front closure of the location at index `i`.
fn loc_pop_front(m: &mut LocMap, i: usize) -> (r: FcmcClosure)
    requires
        i < old(m)@.len(),
        locmap_view(old(m)@)[i as int].1.len() > 0,
    ensures
        r@ == locmap_view(old(m)@)[i as int].1.first(),
        locmap_view(final(m)@) == locmap_view(old(m)@).update(
            i as int,
            (
                locmap_view(old(m)@)[i as int].0,
                locmap_view(old(m)@)[i as int].1.drop_first(),
            ),
        ),
{
    let ghost m0 = locmap_view(m@);
    let mut e = m.remove(i);
    let ghost q0 = e.1@;
    let cl = e.1.remove(0);
    m.insert(i, e);
    proof {
        assert(queue_view(e.1@) =~= queue_view(q0).drop_first());
        assert(locmap_view(m@) =~= m0.update(
            i as int,
            (m0[i as int].0, m0[i as int].1.drop_first()),
        ));
    }
    cl
}

/// Take the back closure of the location at index `i`.
fn loc_pop_back(m: &mut LocMap, i: usize) -> (r: FcmcClosure)
    requires
        i < old(m)@.len(),
        locmap_view(old(m)@)[i as int].1.len() > 0,
    ensures
        r@ == locmap_view(old(m)@)[i as int].1.last(),
        locmap_view(final(m)@) == locmap_view(old(m)@).update(
            i as int,
            (
                locmap_view(old(m)@)[i as int].0,
                locmap_view(old(m)@)[i as int].1.drop_last(),
            ),
        ),
{
    let ghost m0 = locmap_view(m@);
    let mut e = m.remove(i);
    let ghost q0 = e.1@;
    let cl = e.1.pop().unwrap();
    m.insert(i, e);
    proof {
        assert(queue_view(e.1@) =~= queue_view(q0).drop_last());
        assert(cl@ == queue_view(q0).last());
        assert(locmap_view(m@) =~= m0.update(
            i as int,
            (m0[i as int].0, m0[i as int].1.drop_last()),
        ));
    }
    cl
}

/// The model of one thread: a focused closure, a continuation stack,
/// the thread-local stack locations, and whether the thread has failed.
#[verifier::ext_equal]
pub struct FThreadV {
    pub closure: CClosureV,
    pub continuation: Seq<CClosureV>,
    pub stacks: LocMapV,
    pub failed: bool,
}

/// One thread of the machine.  Stack locations are thread-local; a
/// failed thread stays in the pool but makes no further step.
#[derive(Debug)]
pub struct FcmcThreadState {
    pub closure: FcmcClosure,
    pub continuation: Vec<FcmcClosure>,
    pub stacks: LocMap,
    pub failed: bool,
}

impl View for FcmcThreadState {
    type V = FThreadV;

    open spec fn view(&self) -> FThreadV {
        FThreadV {
            closure: self.closure@,
            continuation: queue_view(self.continuation@),
            stacks: locmap_view(self.stacks@),
            failed: self.failed,
        }
    }
}

impl FcmcThreadState {
    /// Create a thread from a closure and a continuation stack, with no
    /// stack locations yet.
    pub fn new(closure: FcmcClosure, continuation: Vec<FcmcClosure>) -> (r: Self)
        ensures
            r@ == (FThreadV {
                closure: closure@,
                continuation: queue_view(continuation@),
                stacks: Seq::<(Seq<char>, Seq<CClosureV>)>::empty(),
                failed: false,
            }),
    {
        let r = FcmcThreadState { closure, continuation, stacks: Vec::new(), failed: false };
        proof {
            assert(locmap_view(r.stacks@) =~= Seq::<(Seq<char>, Seq<CClosureV>)>::empty());
        }
        r
    }
}

/// Whether a thread is final: its program is `Skip` and no continuation
/// is pending.
pub open spec fn t_final_v(t: FThreadV) -> bool {
    t.closure.term is Skip && t.continuation.len() == 0
}

/// What one thread of a host-scheduled run asks of its surroundings
/// after a local transition: nothing, a receive from a channel, a send
/// to a channel, a thread to spawn, or a verdict.
#[derive(Debug)]
pub enum ThreadAction {
    Continue,
    NeedsPop { location: Var },
    Pushed { location: Var, closure: FcmcClosure },
    Forked { closure: FcmcClosure },
    Finished,
    Failed { message: String },
}

/// The thread-local transition: every instruction except a channel
/// receive advances the thread; a pop from a channel leaves it waiting
/// for `supply_pop`.
pub open spec fn tl_step_state(t: FThreadV) -> FThreadV {
    match t.closure.term {
        CTermV::Skip => {
            if t.continuation.len() == 0 {
                t
            } else {
                FThreadV {
                    closure: t.continuation.last(),
                    continuation: t.continuation.drop_last(),
                    stacks: t.stacks,
                    failed: t.failed,
                }
            }
        }
        CTermV::Var { name } => {
            if t.closure.env.len() == 0 {
                FThreadV {
                    closure: t.closure,
                    continuation: t.continuation,
                    stacks: t.stacks,
                    failed: true,
                }
            } else {
                FThreadV {
                    closure: if t.closure.env.last().0 == name {
                        t.closure.env.last().1
                    } else {
                        CClosureV { term: t.closure.term, env: t.closure.env.drop_last() }
                    },
                    continuation: t.continuation,
                    stacks: t.stacks,
                    failed: t.failed,
                }
            }
        }
        CTermV::Pop { location, arg, next } => {
            if is_chan(location) {
                t
            } else {
                let si = loc_index(t.stacks, location);
                if si < 0 || t.stacks[si].1.len() == 0 {
                    FThreadV {
                        closure: t.closure,
                        continuation: t.continuation,
                        stacks: t.stacks,
                        failed: true,
                    }
                } else {
                    FThreadV {
                        closure: CClosureV {
                            term: *next,
                            env: t.closure.env.push((arg, t.stacks[si].1.last())),
                        },
                        continuation: t.continuation,
                        stacks: t.stacks.update(
                            si,
                            (t.stacks[si].0, t.stacks[si].1.drop_last()),
                        ),
                        failed: t.failed,
                    }
                }
            }
        }
        CTermV::Push { term, location, next } => {
            if is_chan(location) {
                FThreadV {
                    closure: CClosureV { term: *next, env: t.closure.env },
                    continuation: t.continuation,
                    stacks: t.stacks,
                    failed: t.failed,
                }
            } else {
                let cl = CClosureV { term: *term, env: t.closure.env };
                let si = loc_index(t.stacks, location);
                FThreadV {
                    closure: CClosureV { term: *next, env: t.closure.env },
                    continuation: t.continuation,
                    stacks: if si < 0 {
                        t.stacks.push((location, seq![cl]))
                    } else {
                        t.stacks.update(si, (t.stacks[si].0, t.stacks[si].1.push(cl)))
                    },
                    failed: t.failed,
                }
            }
        }
        CTermV::Sequence { term, next } => FThreadV {
            closure: CClosureV { term: *term, env: t.closure.env },
            continuation: t.continuation.push(CClosureV { term: *next, env: t.closure.env }),
            stacks: t.stacks,
            failed: t.failed,
        },
        CTermV::Fork { forked, cont } => FThreadV {
            closure: CClosureV { term: *cont, env: t.closure.env },
            continuation: t.continuation,
            stacks: t.stacks,
            failed: t.failed,
        },
    }
}

/// The action a thread-local transition asks for, as a function of the
/// thread before the transition.
pub open spec fn tl_action_ok(t: FThreadV, a: ThreadAction) -> bool {
    match t.closure.term {
        CTermV::Skip => if t.continuation.len() == 0 {
            a is Finished
        } else {
            a is Continue
        },
        CTermV::Var { .. } => if t.closure.env.len() == 0 {
            a is Failed
        } else {
            a is Continue
        },
        CTermV::Pop { location, .. } => if is_chan(location) {
            a matches ThreadAction::NeedsPop { location: l } && l@ == location
        } else if loc_index(t.stacks, location) < 0 || t.stacks[loc_index(
            t.stacks,
            location,
        )].1.len() == 0 {
            a is Failed
        } else {
            a is Continue
        },
        CTermV::Push { term, location, .. } => if is_chan(location) {
            a matches ThreadAction::Pushed { location: l, closure: c } && l@ == location && c@
                == (CClosureV { term: *term, env: t.closure.env })
        } else {
            a is Continue
        },
        CTermV::Sequence { .. } => a is Continue,
        CTermV::Fork { forked, .. } => a matches ThreadAction::Forked { closure: c } && c@
            == (CClosureV { term: *forked, env: t.closure.env }),
    }
}

impl FcmcThreadState {
    /// Whether the thread waits for a value from a channel: its next
    /// instruction is a pop from a channel location.
    pub fn awaiting_channel(&self) -> (b: bool)
        ensures
            b == (self@.closure.term matches CTermV::Pop { location, .. } && is_chan(location)),
    {
        match &self.closure.term {
            FcmcTerm::Pop { location_id, .. } => is_channel_name(location_id),
            _ => false,
        }
    }

    /// Perform one thread-local transition and report what the
    /// surroundings must do: everything except a channel receive is
    /// handled here — a pop from a channel leaves the thread unchanged,
    /// waiting for `supply_pop`.
    pub fn local_step(&mut self) -> (a: ThreadAction)
        ensures
            final(self)@ == tl_step_state(old(self)@),
            tl_action_ok(old(self)@, a),
    {
        let ghost tv0 = self@;
        let term = self.closure.term.clone();
        match term {
            FcmcTerm::Skip => {
                if self.continuation.len() == 0 {
                    ThreadAction::Finished
                } else {
                    let ghost prev = self.continuation@;
                    let k = self.continuation.pop().unwrap();
                    proof {
                        assert(queue_view(prev).last() == k@);
                        assert(queue_view(self.continuation@) =~= queue_view(prev).drop_last());
                    }
                    self.closure = k;
                    ThreadAction::Continue
                }
            }
            FcmcTerm::Variable { name } => {
                if self.closure.env.len() == 0 {
                    proof {
                        assert(cenv_view(self.closure.env@) =~= Seq::<(
                            Seq<char>,
                            CClosureV,
                        )>::empty());
                    }
                    self.failed = true;
                    ThreadAction::Failed {
                        message: "Term cannot be executed. Variable lookup encountered but environment is empty.".to_owned(),
                    }
                } else {
                    let ghost prev = self.closure.env@;
                    let env_last = self.closure.env.pop().unwrap();
                    proof {
                        assert(cenv_view(prev).last() == (env_last.0@, env_last.1@));
                        assert(cenv_view(self.closure.env@) =~= cenv_view(prev).drop_last());
                    }
                    if env_last.0 == name {
                        self.closure = env_last.1;
                    }
                    ThreadAction::Continue
                }
            }
            FcmcTerm::Pop { location_id, arg, next } => {
                if is_channel_name(&location_id) {
                    ThreadAction::NeedsPop { location: location_id }
                } else {
                    match find_loc(&self.stacks, &location_id) {
                        Option::None => {
                            self.failed = true;
                            ThreadAction::Failed {
                                message: "Specified location doesn't exist".to_owned(),
                            }
                        }
                        Option::Some(si) => {
                            if self.stacks[si].1.len() == 0 {
                                self.failed = true;
                                ThreadAction::Failed {
                                    message: "Term cannot be executed. Pop action encountered but local stack is empty.".to_owned(),
                                }
                            } else {
                                let r = loc_pop_back(&mut self.stacks, si);
                                self.closure.term = *next;
                                let ghost prevenv = self.closure.env@;
                                self.closure.env.push((arg, r));
                                proof {
                                    assert(cenv_view(self.closure.env@) =~= cenv_view(
                                        prevenv,
                                    ).push(
                                        (tv0.closure.term->Pop_arg, tv0.stacks[loc_index(
                                            tv0.stacks,
                                            tv0.closure.term->Pop_location,
                                        )].1.last()),
                                    ));
                                }
                                ThreadAction::Continue
                            }
                        }
                    }
                }
            }
            FcmcTerm::Push { term: pterm, location_id, next } => {
                let cl = FcmcClosure { term: *pterm, env: cclone_env(&self.closure.env) };
                proof {
                    assert(cl@ == (CClosureV {
                        term: *tv0.closure.term->Push_term,
                        env: tv0.closure.env,
                    }));
                }
                if is_channel_name(&location_id) {
                    self.closure.term = *next;
                    ThreadAction::Pushed { location: location_id, closure: cl }
                } else {
                    match find_loc(&self.stacks, &location_id) {
                        Option::None => {
                            let mut q: Vec<FcmcClosure> = Vec::new();
                            q.push(cl);
                            let ghost prevstacks = self.stacks@;
                            self.stacks.push((location_id, q));
                            self.closure.term = *next;
                            proof {
                                assert(queue_view(q@) =~= seq![
                                    CClosureV {
                                        term: *tv0.closure.term->Push_term,
                                        env: tv0.closure.env,
                                    },
                                ]);
                                assert(locmap_view(self.stacks@) =~= locmap_view(
                                    prevstacks,
                                ).push((tv0.closure.term->Push_location, queue_view(q@))));
                            }
                            ThreadAction::Continue
                        }
                        Option::Some(si) => {
                            loc_push_back(&mut self.stacks, si, cl);
                            self.closure.term = *next;
                            ThreadAction::Continue
                        }
                    }
                }
            }
            FcmcTerm::Sequence { term: sterm, next } => {
                let k = FcmcClosure { term: *next, env: cclone_env(&self.closure.env) };
                let ghost prevk = self.continuation@;
                self.continuation.push(k);
                self.closure.term = *sterm;
                proof {
                    assert(queue_view(self.continuation@) =~= queue_view(prevk).push(
                        CClosureV {
                            term: *tv0.closure.term->Sequence_next,
                            env: tv0.closure.env,
                        },
                    ));
                }
                ThreadAction::Continue
            }
            FcmcTerm::Fork { forked, cont } => {
                let child = FcmcClosure { term: *forked, env: cclone_env(&self.closure.env) };
                proof {
                    assert(child@ == (CClosureV {
                        term: *tv0.closure.term->Fork_forked,
                        env: tv0.closure.env,
                    }));
                }
                self.closure.term = *cont;
                ThreadAction::Forked { closure: child }
            }
        }
    }

    /// Hand the thread a value received from the channel it waits on:
    /// the value is bound to the pop's argument and the thread resumes.
    pub fn supply_pop(&mut self, value: FcmcClosure)
        requires
            old(self)@.closure.term is Pop,
            is_chan(old(self)@.closure.term->Pop_location),
        ensures
            final(self)@ == (FThreadV {
                closure: CClosureV {
                    term: *old(self)@.closure.term->Pop_next,
                    env: old(self)@.closure.env.push(
                        (old(self)@.closure.term->Pop_arg, value@),
                    ),
                },
                continuation: old(self)@.continuation,
                stacks: old(self)@.stacks,
                failed: old(self)@.failed,
            }),
    {
        let ghost tv0 = self@;
        let term = self.closure.term.clone();
        match term {
            FcmcTerm::Pop { location_id, arg, next } => {
                self.closure.term = *next;
                let ghost prevenv = self.closure.env@;
                self.closure.env.push((arg, value));
                proof {
                    assert(cenv_view(self.closure.env@) =~= cenv_view(prevenv).push(
                        (tv0.closure.term->Pop_arg, value@),
                    ));
                }
            }
            _ => {}
        }
    }
}

/// The model of the whole machine: the pool of threads — the main
/// thread first — and the shared channels.
#[verifier::ext_equal]
pub struct FcmcConfigV {
    pub threads: Seq<FThreadV>,
    pub channels: LocMapV,
}

/// The machine: a pool of threads sharing a family of channels.
#[derive(Debug)]
pub struct FcmcProgramState {
    pub threads: Vec<FcmcThreadState>,
    pub channels: LocMap,
}

/// The view of a pool of threads.
pub open spec fn threads_view(ts: Seq<FcmcThreadState>) -> Seq<FThreadV> {
    ts.map_values(|t: FcmcThreadState| t@)
}

impl View for FcmcProgramState {
    type V = FcmcConfigV;

    open spec fn view(&self) -> FcmcConfigV {
        FcmcConfigV { threads: threads_view(self.threads@), channels: locmap_view(self.channels@) }
    }
}

/// The outcome of one attempted step of a thread.
#[derive(Clone, Copy, Debug, PartialEq, Eq, Structural)]
pub enum ThreadOutcome {
    Ran,
    Blocked,
    Done,
    Failed,
}

/// One transition of thread `i`: the transitions of the sequential
/// machine, with pushes and pops routed to the named location — the
/// shared channel or the thread's own stack — and `Fork` adding a new
/// thread that shares the channels but starts with empty stacks.
pub open spec fn cstep_v(cfg: FcmcConfigV, i: int) -> (FcmcConfigV, ThreadOutcome)
    recommends
        0 <= i < cfg.threads.len(),
{
    let t = cfg.threads[i];
    match t.closure.term {
        CTermV::Skip => {
            if t.continuation.len() == 0 {
                (cfg, ThreadOutcome::Done)
            } else {
                let t2 = FThreadV {
                    closure: t.continuation.last(),
                    continuation: t.continuation.drop_last(),
                    stacks: t.stacks,
                    failed: t.failed,
                };
                (
                    FcmcConfigV { threads: cfg.threads.update(i, t2), channels: cfg.channels },
                    ThreadOutcome::Ran,
                )
            }
        }
        CTermV::Var { name } => {
            if t.closure.env.len() == 0 {
                let t2 = FThreadV {
                    closure: t.closure,
                    continuation: t.continuation,
                    stacks: t.stacks,
                    failed: true,
                };
                (
                    FcmcConfigV { threads: cfg.threads.update(i, t2), channels: cfg.channels },
                    ThreadOutcome::Failed,
                )
            } else {
                let t2 = FThreadV {
                    closure: if t.closure.env.last().0 == name {
                        t.closure.env.last().1
                    } else {
                        CClosureV { term: t.closure.term, env: t.closure.env.drop_last() }
                    },
                    continuation: t.continuation,
                    stacks: t.stacks,
                    failed: t.failed,
                };
                (
                    FcmcConfigV { threads: cfg.threads.update(i, t2), channels: cfg.channels },
                    ThreadOutcome::Ran,
                )
            }
        }
        CTermV::Pop { location, arg, next } => {
            if is_chan(location) {
                let ci = loc_index(cfg.channels, location);
                if ci < 0 {
                    let t2 = FThreadV {
                        closure: t.closure,
                        continuation: t.continuation,
                        stacks: t.stacks,
                        failed: true,
                    };
                    (
                        FcmcConfigV { threads: cfg.threads.update(i, t2), channels: cfg.channels },
                        ThreadOutcome::Failed,
                    )
                } else if cfg.channels[ci].1.len() == 0 {
                    (cfg, ThreadOutcome::Blocked)
                } else {
                    let r = cfg.channels[ci].1.first();
                    let t2 = FThreadV {
                        closure: CClosureV { term: *next, env: t.closure.env.push((arg, r)) },
                        continuation: t.continuation,
                        stacks: t.stacks,
                        failed: t.failed,
                    };
                    (
                        FcmcConfigV {
                            threads: cfg.threads.update(i, t2),
                            channels: cfg.channels.update(
                                ci,
                                (cfg.channels[ci].0, cfg.channels[ci].1.drop_first()),
                            ),
                        },
                        ThreadOutcome::Ran,
                    )
                }
            } else {
                let si = loc_index(t.stacks, location);
                if si < 0 || t.stacks[si].1.len() == 0 {
                    let t2 = FThreadV {
                        closure: t.closure,
                        continuation: t.continuation,
                        stacks: t.stacks,
                        failed: true,
                    };
                    (
                        FcmcConfigV { threads: cfg.threads.update(i, t2), channels: cfg.channels },
                        ThreadOutcome::Failed,
                    )
                } else {
                    let r = t.stacks[si].1.last();
                    let t2 = FThreadV {
                        closure: CClosureV { term: *next, env: t.closure.env.push((arg, r)) },
                        continuation: t.continuation,
                        stacks: t.stacks.update(
                            si,
                            (t.stacks[si].0, t.stacks[si].1.drop_last()),
                        ),
                        failed: t.failed,
                    };
                    (
                        FcmcConfigV { threads: cfg.threads.update(i, t2), channels: cfg.channels },
                        ThreadOutcome::Ran,
                    )
                }
            }
        }
        CTermV::Push { term, location, next } => {
            let cl = CClosureV { term: *term, env: t.closure.env };
            if is_chan(location) {
                let ci = loc_index(cfg.channels, location);
                if ci < 0 {
                    let t2 = FThreadV {
                        closure: t.closure,
                        continuation: t.continuation,
                        stacks: t.stacks,
                        failed: true,
                    };
                    (
                        FcmcConfigV { threads: cfg.threads.update(i, t2), channels: cfg.channels },
                        ThreadOutcome::Failed,
                    )
                } else {
                    let t2 = FThreadV {
                        closure: CClosureV { term: *next, env: t.closure.env },
                        continuation: t.continuation,
                        stacks: t.stacks,
                        failed: t.failed,
                    };
                    (
                        FcmcConfigV {
                            threads: cfg.threads.update(i, t2),
                            channels: cfg.channels.update(
                                ci,
                                (cfg.channels[ci].0, cfg.channels[ci].1.push(cl)),
                            ),
                        },
                        ThreadOutcome::Ran,
                    )
                }
            } else {
                let si = loc_index(t.stacks, location);
                let t2 = FThreadV {
                    closure: CClosureV { term: *next, env: t.closure.env },
                    continuation: t.continuation,
                    stacks: if si < 0 {
                        t.stacks.push((location, seq![cl]))
                    } else {
                        t.stacks.update(si, (t.stacks[si].0, t.stacks[si].1.push(cl)))
                    },
                    failed: t.failed,
                };
                (
                    FcmcConfigV { threads: cfg.threads.update(i, t2), channels: cfg.channels },
                    ThreadOutcome::Ran,
                )
            }
        }
        CTermV::Sequence { term, next } => {
            let t2 = FThreadV {
                closure: CClosureV { term: *term, env: t.closure.env },
                continuation: t.continuation.push(
                    CClosureV { term: *next, env: t.closure.env },
                ),
                stacks: t.stacks,
                failed: t.failed,
            };
            (
                FcmcConfigV { threads: cfg.threads.update(i, t2), channels: cfg.channels },
                ThreadOutcome::Ran,
            )
        }
        CTermV::Fork { forked, cont } => {
            let child = FThreadV {
                closure: CClosureV { term: *forked, env: t.closure.env },
                continuation: Seq::empty(),
                stacks: Seq::empty(),
                failed: false,
            };
            let t2 = FThreadV {
                closure: CClosureV { term: *cont, env: t.closure.env },
                continuation: t.continuation,
                stacks: t.stacks,
                failed: t.failed,
            };
            (
                FcmcConfigV {
                    threads: cfg.threads.update(i, t2).push(child),
                    channels: cfg.channels,
                },
                ThreadOutcome::Ran,
            )
        }
    }
}

/// A thread's attempted step is classified exactly: it reports `Done`
/// exactly on a final thread, `Blocked` exactly on a pop from an
/// existing empty channel, and otherwise it runs or fails, so no thread
/// is ever stuck without a verdict.
pub proof fn lemma_cstep_progress(cfg: FcmcConfigV, i: int)
    requires
        0 <= i < cfg.threads.len(),
    ensures
        cstep_v(cfg, i).1 == ThreadOutcome::Done <==> t_final_v(cfg.threads[i]),
        cstep_v(cfg, i).1 == ThreadOutcome::Blocked <==> t_blocked_v(cfg, i),
{
}

/// Whether thread `i` is blocked: its next instruction pops from a
/// channel that exists and is empty.
pub open spec fn t_blocked_v(cfg: FcmcConfigV, i: int) -> bool {
    let t = cfg.threads[i];
    match t.closure.term {
        CTermV::Pop { location, .. } => is_chan(location) && loc_index(cfg.channels, location)
            >= 0 && cfg.channels[loc_index(cfg.channels, location)].1.len() == 0,
        _ => false,
    }
}

/// Whether thread `i` can make a step now: it has not failed, is not
/// final and is not blocked.
pub open spec fn sched_ok(cfg: FcmcConfigV, i: int) -> bool {
    &&& !cfg.threads[i].failed
    &&& !t_final_v(cfg.threads[i])
    &&& !t_blocked_v(cfg, i)
}

/// The lowest-numbered thread from `i` on that can make a step, or a
/// negative number when none can.
pub open spec fn pick_from(cfg: FcmcConfigV, i: int) -> int
    decreases cfg.threads.len() - i,
{
    if i < 0 || i >= cfg.threads.len() {
        -1
    } else if sched_ok(cfg, i) {
        i
    } else {
        pick_from(cfg, i + 1)
    }
}

/// The scheduler: the lowest-numbered thread that can make a step.
pub open spec fn pick_v(cfg: FcmcConfigV) -> int {
    pick_from(cfg, 0)
}

pub proof fn lemma_pick_from(cfg: FcmcConfigV, i: int)
    requires
        0 <= i,
    ensures
        pick_from(cfg, i) >= 0 ==> i <= pick_from(cfg, i) < cfg.threads.len() && sched_ok(
            cfg,
            pick_from(cfg, i),
        ) && forall|j: int| i <= j < pick_from(cfg, i) ==> !sched_ok(cfg, j),
        pick_from(cfg, i) < 0 ==> forall|j: int| i <= j < cfg.threads.len() ==> !sched_ok(cfg, j),
    decreases cfg.threads.len() - i,
{
    if i < cfg.threads.len() && !sched_ok(cfg, i) {
        lemma_pick_from(cfg, i + 1);
    }
}

/// The read-back of one channel: its closures in queue order.
pub open spec fn rb_queue(name: Seq<char>, q: Seq<CClosureV>) -> Seq<(Seq<char>, CTermV)> {
    Seq::new(q.len(), |i: int| (name, cretrieve_v(q[i])))
}

/// The read-back of one stack: its closures, last pushed first.
pub open spec fn rb_stack(name: Seq<char>, q: Seq<CClosureV>) -> Seq<(Seq<char>, CTermV)> {
    Seq::new(q.len(), |i: int| (name, cretrieve_v(q[q.len() - 1 - i])))
}

/// The read-back of the first `n` channels.
pub open spec fn rb_chans(m: LocMapV, n: int) -> Seq<(Seq<char>, CTermV)>
    decreases n,
{
    if n <= 0 || n > m.len() {
        Seq::empty()
    } else {
        rb_chans(m, n - 1) + rb_queue(m[n - 1].0, m[n - 1].1)
    }
}

/// The read-back of the first `n` stacks.
pub open spec fn rb_stacks(m: LocMapV, n: int) -> Seq<(Seq<char>, CTermV)>
    decreases n,
{
    if n <= 0 || n > m.len() {
        Seq::empty()
    } else {
        rb_stacks(m, n - 1) + rb_stack(m[n - 1].0, m[n - 1].1)
    }
}

/// The read-back of the machine: every channel in creation order, then
/// every stack of the main thread, each location's closures read back
/// to plain terms.
pub open spec fn c_readback_v(cfg: FcmcConfigV) -> Seq<(Seq<char>, CTermV)> {
    rb_chans(cfg.channels, cfg.channels.len() as int) + rb_stacks(
        cfg.threads[0].stacks,
        cfg.threads[0].stacks.len() as int,
    )
}

/// The result of running the machine with a bounded allowance of steps:
/// the read-back once the main thread is final, an empty list when no
/// thread can make a step, or `None` when the allowance runs out first.
pub open spec fn crun_v(cfg: FcmcConfigV, fuel: nat) -> Option<Seq<(Seq<char>, CTermV)>>
    decreases fuel,
{
    if cfg.threads.len() > 0 && t_final_v(cfg.threads[0]) {
        Option::Some(c_readback_v(cfg))
    } else if pick_v(cfg) < 0 {
        Option::Some(Seq::empty())
    } else if fuel == 0 {
        Option::None
    } else {
        crun_v(cstep_v(cfg, pick_v(cfg)).0, (fuel - 1) as nat)
    }
}

/// The channels named by a list, all empty.
pub open spec fn empty_channels(names: Seq<Seq<char>>) -> LocMapV {
    names.map_values(|n: Seq<char>| (n, Seq::<CClosureV>::empty()))
}

/// The start configuration of a term: one thread focused on the term
/// over an empty environment, and an empty channel for every channel
/// name the term mentions.
pub open spec fn start_cfg(t: CTermV) -> FcmcConfigV {
    FcmcConfigV {
        threads: seq![
            FThreadV {
                closure: CClosureV { term: t, env: Seq::empty() },
                continuation: Seq::empty(),
                stacks: Seq::empty(),
                failed: false,
            },
        ],
        channels: empty_channels(chan_list_v(t)),
    }
}

/// The view of a list of location/term pairs.
pub open spec fn pairs_view(s: Seq<(Var, FcmcTerm)>) -> Seq<(Seq<char>, CTermV)> {
    s.map_values(|p: (Var, FcmcTerm)| (p.0@, cterm_view(p.1)))
}

/// The printed form of the closures of a queue from index `i` on, in
/// queue order, each in parentheses, separated by commas.
pub open spec fn cqlist_dsp(q: Seq<CClosureV>, i: int) -> Seq<char>
    decreases q, q.len() - i,
{
    if i < 0 || i >= q.len() {
        Seq::empty()
    } else if i == q.len() - 1 {
        "("@ + cclosure_dsp(q[i]) + ")"@
    } else {
        "("@ + cclosure_dsp(q[i]) + ")"@ + ", "@ + cqlist_dsp(q, i + 1)
    }
}

/// The printed form of the top `n` closures of a stack, top first, each
/// in parentheses, separated by commas.
pub open spec fn crlist_dsp(q: Seq<CClosureV>, n: int) -> Seq<char>
    decreases q, n,
{
    if n <= 0 || n > q.len() {
        Seq::empty()
    } else if n == 1 {
        "("@ + cclosure_dsp(q[0]) + ")"@
    } else {
        "("@ + cclosure_dsp(q[n - 1]) + ")"@ + ", "@ + crlist_dsp(q, n - 1)
    }
}

/// The printed sections of the locations from index `i` on, each its
/// name and contents in queue order.
pub open spec fn chan_secs_dsp(m: LocMapV, i: int) -> Seq<char>
    decreases m, m.len() - i,
{
    if i < 0 || i >= m.len() {
        Seq::empty()
    } else {
        m[i].0 + "["@ + cqlist_dsp(m[i].1, 0) + "], "@ + chan_secs_dsp(m, i + 1)
    }
}

/// The printed sections of the locations from index `i` on, each its
/// name and contents, last pushed first.
pub open spec fn stack_secs_dsp(m: LocMapV, i: int) -> Seq<char>
    decreases m, m.len() - i,
{
    if i < 0 || i >= m.len() {
        Seq::empty()
    } else {
        m[i].0 + "["@ + crlist_dsp(m[i].1, m[i].1.len() as int) + "], "@ + stack_secs_dsp(
            m,
            i + 1,
        )
    }
}

/// The printed form of the machine: the main thread's closure, the
/// channels in creation order, the main thread's stacks, and its
/// continuation stack.
pub open spec fn cprog_dsp(cfg: FcmcConfigV) -> Seq<char> {
    "("@ + cclosure_dsp(cfg.threads[0].closure) + ", "@ + (if cfg.channels.len() == 0
        && cfg.threads[0].stacks.len() == 0 {
        "[], "@
    } else {
        chan_secs_dsp(cfg.channels, 0) + stack_secs_dsp(cfg.threads[0].stacks, 0)
    }) + (if cfg.threads[0].continuation.len() == 0 {
        "[])"@
    } else {
        "["@ + crlist_dsp(
            cfg.threads[0].continuation,
            cfg.threads[0].continuation.len() as int,
        ) + "])"@
    })
}

fn cqlist_display(q: &Vec<FcmcClosure>, i: usize) -> (r: String)
    ensures
        r@ == cqlist_dsp(queue_view(q@), i as int),
    decreases q@.len() - i,
{
    proof {
        assert(queue_view(q@).len() == q@.len());
    }
    if i >= q.len() {
        let r = String::new();
        proof {
            assert(r@ =~= cqlist_dsp(queue_view(q@), i as int));
        }
        r
    } else {
        let mut s = String::from_str("(");
        let cd = q[i].display_string();
        s.append(cd.as_str());
        s.append(")");
        proof {
            assert(queue_view(q@)[i as int] == q@[i as int]@);
        }
        if i == q.len() - 1 {
            proof {
                assert(s@ =~= cqlist_dsp(queue_view(q@), i as int));
            }
            s
        } else {
            s.append(", ");
            let rest = cqlist_display(q, i + 1);
            s.append(rest.as_str());
            proof {
                assert(s@ =~= cqlist_dsp(queue_view(q@), i as int));
            }
            s
        }
    }
}

fn crlist_display(q: &Vec<FcmcClosure>, n: usize) -> (r: String)
    requires
        n <= q@.len(),
    ensures
        r@ == crlist_dsp(queue_view(q@), n as int),
    decreases n,
{
    proof {
        assert(queue_view(q@).len() == q@.len());
    }
    if n == 0 {
        let r = String::new();
        proof {
            assert(r@ =~= crlist_dsp(queue_view(q@), 0));
        }
        r
    } else if n == 1 {
        let mut s = String::from_str("(");
        let cd = q[0].display_string();
        s.append(cd.as_str());
        s.append(")");
        proof {
            assert(queue_view(q@)[0] == q@[0]@);
            assert(s@ =~= crlist_dsp(queue_view(q@), 1));
        }
        s
    } else {
        let mut s = String::from_str("(");
        let cd = q[n - 1].display_string();
        s.append(cd.as_str());
        s.append(")");
        s.append(", ");
        let rest = crlist_display(q, n - 1);
        s.append(rest.as_str());
        proof {
            assert(queue_view(q@)[n - 1] == q@[n - 1]@);
            assert(s@ =~= crlist_dsp(queue_view(q@), n as int));
        }
        s
    }
}

fn chan_secs_display(m: &LocMap, i: usize) -> (r: String)
    ensures
        r@ == chan_secs_dsp(locmap_view(m@), i as int),
    decreases m@.len() - i,
{
    proof {
        assert(locmap_view(m@).len() == m@.len());
    }
    if i >= m.len() {
        let r = String::new();
        proof {
            assert(r@ =~= chan_secs_dsp(locmap_view(m@), i as int));
        }
        r
    } else {
        let e = &m[i];
        let mut s = e.0.clone();
        s.append("[");
        let qd = cqlist_display(&e.1, 0);
        s.append(qd.as_str());
        s.append("], ");
        let rest = chan_secs_display(m, i + 1);
        s.append(rest.as_str());
        proof {
            assert(locmap_view(m@)[i as int] == (m@[i as int].0@, queue_view(m@[i as int].1@)));
            assert(s@ =~= chan_secs_dsp(locmap_view(m@), i as int));
        }
        s
    }
}

fn stack_secs_display(m: &LocMap, i: usize) -> (r: String)
    ensures
        r@ == stack_secs_dsp(locmap_view(m@), i as int),
    decreases m@.len() - i,
{
    proof {
        assert(locmap_view(m@).len() == m@.len());
    }
    if i >= m.len() {
        let r = String::new();
        proof {
            assert(r@ =~= stack_secs_dsp(locmap_view(m@), i as int));
        }
        r
    } else {
        let e = &m[i];
        let mut s = e.0.clone();
        s.append("[");
        let qd = crlist_display(&e.1, e.1.len());
        s.append(qd.as_str());
        s.append("], ");
        let rest = stack_secs_display(m, i + 1);
        s.append(rest.as_str());
        proof {
            assert(locmap_view(m@)[i as int] == (m@[i as int].0@, queue_view(m@[i as int].1@)));
            assert(s@ =~= stack_secs_dsp(locmap_view(m@), i as int));
        }
        s
    }
}

impl FcmcProgramState {
    /// The printed form of the machine.
    pub fn display_string(&self) -> (r: String)
        requires
            self.threads@.len() > 0,
        ensures
            r@ == cprog_dsp(self@),
    {
        let main = &self.threads[0];
        let mut s = String::from_str("(");
        let cd = main.closure.display_string();
        s.append(cd.as_str());
        s.append(", ");
        if self.channels.len() == 0 && main.stacks.len() == 0 {
            s.append("[], ");
        } else {
            let chans = chan_secs_display(&self.channels, 0);
            s.append(chans.as_str());
            let stacks = stack_secs_display(&main.stacks, 0);
            s.append(stacks.as_str());
        }
        if main.continuation.len() == 0 {
            s.append("[])");
        } else {
            s.append("[");
            let kd = crlist_display(&main.continuation, main.continuation.len());
            s.append(kd.as_str());
            s.append("])");
        }
        proof {
            assert(s@ =~= cprog_dsp(self@));
        }
        s
    }

    /// Create a machine with one thread focused on the term and an
    /// empty channel for each of the given names.
    pub fn start(t: FcmcTerm, channel_names: Vec<Var>) -> (r: Self)
        ensures
            r@ == (FcmcConfigV {
                threads: seq![
                    FThreadV {
                        closure: CClosureV {
                            term: t@,
                            env: Seq::<(Seq<char>, CClosureV)>::empty(),
                        },
                        continuation: Seq::<CClosureV>::empty(),
                        stacks: Seq::<(Seq<char>, Seq<CClosureV>)>::empty(),
                        failed: false,
                    },
                ],
                channels: empty_channels(names_view(channel_names@)),
            }),
    {
        let main_closure = FcmcClosure { term: t, env: Vec::new() };
        proof {
            assert(cenv_view(main_closure.env@) =~= Seq::<(Seq<char>, CClosureV)>::empty());
        }
        let main = FcmcThreadState::new(main_closure, Vec::new());
        proof {
            assert(queue_view(Seq::<FcmcClosure>::empty()) =~= Seq::<CClosureV>::empty());
        }
        let mut threads: Vec<FcmcThreadState> = Vec::new();
        threads.push(main);
        let mut channels: LocMap = Vec::new();
        let mut i: usize = 0;
        while i < channel_names.len()
            invariant
                i <= channel_names@.len(),
                locmap_view(channels@) == empty_channels(
                    names_view(channel_names@).subrange(0, i as int),
                ),
            decreases channel_names@.len() - i,
        {
            let ghost prev = channels@;
            channels.push((channel_names[i].clone(), Vec::new()));
            proof {
                let sub1 = names_view(channel_names@).subrange(0, i + 1);
                assert(locmap_view(prev).len() == prev.len());
                assert(empty_channels(names_view(channel_names@).subrange(0, i as int)).len()
                    == i as int);
                assert(prev.len() == i as int);
                assert(channels@.len() == i + 1);
                assert forall|j: int| 0 <= j < i + 1 implies locmap_view(channels@)[j]
                    == empty_channels(sub1)[j] by {
                    if j < i {
                        assert(channels@[j] == prev[j]);
                        assert(locmap_view(prev)[j] == empty_channels(
                            names_view(channel_names@).subrange(0, i as int),
                        )[j]);
                    } else {
                        assert(queue_view(channels@[j].1@) =~= Seq::<CClosureV>::empty());
                    }
                }
                assert(locmap_view(channels@) =~= empty_channels(sub1));
            }
            i = i + 1;
        }
        let r = FcmcProgramState { threads, channels };
        proof {
            assert(names_view(channel_names@).subrange(0, channel_names@.len() as int)
                =~= names_view(channel_names@));
            assert(threads_view(r.threads@) =~= seq![
                FThreadV {
                    closure: CClosureV { term: t@, env: Seq::<(Seq<char>, CClosureV)>::empty() },
                    continuation: Seq::<CClosureV>::empty(),
                    stacks: Seq::<(Seq<char>, Seq<CClosureV>)>::empty(),
                    failed: false,
                },
            ]);
        }
        r
    }

    /// Whether the main thread is final.
    pub fn main_is_final(&self) -> (b: bool)
        requires
            self.threads@.len() > 0,
        ensures
            b == t_final_v(self@.threads[0]),
    {
        let t = &self.threads[0];
        matches!(t.closure.term, FcmcTerm::Skip) && t.continuation.len() == 0
    }

    /// Whether thread `i` can make a step now.
    pub fn can_sched(&self, i: usize) -> (b: bool)
        requires
            i < self.threads@.len(),
        ensures
            b == sched_ok(self@, i as int),
    {
        let t = &self.threads[i];
        if t.failed {
            return false;
        }
        if matches!(t.closure.term, FcmcTerm::Skip) && t.continuation.len() == 0 {
            return false;
        }
        match &t.closure.term {
            FcmcTerm::Pop { location_id, .. } => {
                if is_channel_name(location_id) {
                    match find_loc(&self.channels, location_id) {
                        Option::Some(ci) => {
                            let e = &self.channels[ci];
                            e.1.len() > 0
                        }
                        Option::None => true,
                    }
                } else {
                    true
                }
            }
            _ => true,
        }
    }

    /// The scheduler: the lowest-numbered thread that can make a step.
    pub fn pick_thread(&self) -> (r: Option<usize>)
        ensures
            r matches Option::Some(i) ==> i < self.threads@.len() && pick_v(self@) == i as int,
            r is None ==> pick_v(self@) < 0,
    {
        let mut i: usize = 0;
        while i < self.threads.len()
            invariant
                i <= self.threads@.len(),
                forall|j: int| 0 <= j < i ==> !sched_ok(self@, j),
            decreases self.threads@.len() - i,
        {
            if self.can_sched(i) {
                proof {
                    lemma_pick_from(self@, 0);
                }
                return Option::Some(i);
            }
            i = i + 1;
        }
        proof {
            lemma_pick_from(self@, 0);
        }
        Option::None
    }

    /// Perform one transition of thread `i`, and report whether it ran,
    /// blocked on an empty channel, was already finished, or failed.
    pub fn step_thread(&mut self, i: usize) -> (o: ThreadOutcome)
        requires
            i < old(self).threads@.len(),
        ensures
            final(self)@ == cstep_v(old(self)@, i as int).0,
            o == cstep_v(old(self)@, i as int).1,
    {
        let ghost cfg0 = self@;
        let mut t = self.threads.remove(i);
        proof {
            assert(t@ == cfg0.threads[i as int]);
        }
        let ghost tv0 = t@;
        let term = t.closure.term.clone();
        let mut outcome = ThreadOutcome::Ran;
        match term {
            FcmcTerm::Skip => {
                if t.continuation.len() == 0 {
                    outcome = ThreadOutcome::Done;
                } else {
                    let ghost prev = t.continuation@;
                    let k = t.continuation.pop().unwrap();
                    proof {
                        assert(queue_view(prev).last() == k@);
                        assert(queue_view(t.continuation@) =~= queue_view(prev).drop_last());
                    }
                    t.closure = k;
                }
            }
            FcmcTerm::Variable { name } => {
                if t.closure.env.len() == 0 {
                    proof {
                        assert(cenv_view(t.closure.env@) =~= Seq::<(Seq<char>, CClosureV)>::empty());
                    }
                    t.failed = true;
                    outcome = ThreadOutcome::Failed;
                } else {
                    let ghost prev = t.closure.env@;
                    let env_last = t.closure.env.pop().unwrap();
                    proof {
                        assert(cenv_view(prev).last() == (env_last.0@, env_last.1@));
                        assert(cenv_view(t.closure.env@) =~= cenv_view(prev).drop_last());
                    }
                    if env_last.0 == name {
                        t.closure = env_last.1;
                    }
                }
            }
            FcmcTerm::Pop { location_id, arg, next } => {
                if is_channel_name(&location_id) {
                    match find_loc(&self.channels, &location_id) {
                        Option::None => {
                            t.failed = true;
                            outcome = ThreadOutcome::Failed;
                        }
                        Option::Some(ci) => {
                            let empty_q = self.channels[ci].1.len() == 0;
                            if empty_q {
                                outcome = ThreadOutcome::Blocked;
                            } else {
                                let r = loc_pop_front(&mut self.channels, ci);
                                t.closure.term = *next;
                                let ghost prevenv = t.closure.env@;
                                t.closure.env.push((arg, r));
                                proof {
                                    assert(cenv_view(t.closure.env@) =~= cenv_view(prevenv).push(
                                        (tv0.closure.term->Pop_arg, cfg0.channels[
                                            loc_index(cfg0.channels, tv0.closure.term->Pop_location)
                                        ].1.first()),
                                    ));
                                }
                            }
                        }
                    }
                } else {
                    match find_loc(&t.stacks, &location_id) {
                        Option::None => {
                            t.failed = true;
                            outcome = ThreadOutcome::Failed;
                        }
                        Option::Some(si) => {
                            let empty_q = t.stacks[si].1.len() == 0;
                            if empty_q {
                                t.failed = true;
                                outcome = ThreadOutcome::Failed;
                            } else {
                                let r = loc_pop_back(&mut t.stacks, si);
                                t.closure.term = *next;
                                let ghost prevenv = t.closure.env@;
                                t.closure.env.push((arg, r));
                                proof {
                                    assert(cenv_view(t.closure.env@) =~= cenv_view(prevenv).push(
                                        (tv0.closure.term->Pop_arg, tv0.stacks[
                                            loc_index(tv0.stacks, tv0.closure.term->Pop_location)
                                        ].1.last()),
                                    ));
                                }
                            }
                        }
                    }
                }
            }
            FcmcTerm::Push { term: pterm, location_id, next } => {
                let cl = FcmcClosure { term: *pterm, env: cclone_env(&t.closure.env) };
                proof {
                    assert(cl@ == (CClosureV {
                        term: *tv0.closure.term->Push_term,
                        env: tv0.closure.env,
                    }));
                }
                if is_channel_name(&location_id) {
                    match find_loc(&self.channels, &location_id) {
                        Option::None => {
                            t.failed = true;
                            outcome = ThreadOutcome::Failed;
                        }
                        Option::Some(ci) => {
                            loc_push_back(&mut self.channels, ci, cl);
                            t.closure.term = *next;
                        }
                    }
                } else {
                    match find_loc(&t.stacks, &location_id) {
                        Option::None => {
                            let mut q: Vec<FcmcClosure> = Vec::new();
                            q.push(cl);
                            let ghost prevstacks = t.stacks@;
                            t.stacks.push((location_id, q));
                            t.closure.term = *next;
                            proof {
                                assert(queue_view(q@) =~= seq![
                                    CClosureV {
                                        term: *tv0.closure.term->Push_term,
                                        env: tv0.closure.env,
                                    },
                                ]);
                                assert(locmap_view(t.stacks@) =~= locmap_view(prevstacks).push(
                                    (tv0.closure.term->Push_location, queue_view(q@)),
                                ));
                            }
                        }
                        Option::Some(si) => {
                            loc_push_back(&mut t.stacks, si, cl);
                            t.closure.term = *next;
                        }
                    }
                }
            }
            FcmcTerm::Sequence { term: sterm, next } => {
                let k = FcmcClosure { term: *next, env: cclone_env(&t.closure.env) };
                let ghost prevk = t.continuation@;
                t.continuation.push(k);
                t.closure.term = *sterm;
                proof {
                    assert(queue_view(t.continuation@) =~= queue_view(prevk).push(
                        CClosureV {
                            term: *tv0.closure.term->Sequence_next,
                            env: tv0.closure.env,
                        },
                    ));
                }
            }
            FcmcTerm::Fork { forked, cont } => {
                let child = FcmcThreadState::new(
                    FcmcClosure { term: *forked, env: cclone_env(&t.closure.env) },
                    Vec::new(),
                );
                proof {
                    assert(queue_view(Seq::<FcmcClosure>::empty()) =~= Seq::<CClosureV>::empty());
                }
                t.closure.term = *cont;
                self.threads.insert(i, t);
                self.threads.push(child);
                proof {
                    assert(threads_view(self.threads@) =~= cstep_v(cfg0, i as int).0.threads);
                    assert(self@ == cstep_v(cfg0, i as int).0);
                }
                return ThreadOutcome::Ran;
            }
        }
        self.threads.insert(i, t);
        proof {
            assert(threads_view(self.threads@) =~= cfg0.threads.update(i as int, t@));
            if outcome == ThreadOutcome::Done || outcome == ThreadOutcome::Blocked {
                assert(cfg0.threads.update(i as int, t@) =~= cfg0.threads);
            }
            assert(self@ == cstep_v(cfg0, i as int).0);
        }
        outcome
    }

    /// Read the machine back: every channel in creation order, then
    /// every stack of the main thread, each location's closures read
    /// back to plain terms — queue order for channels, last pushed
    /// first for stacks.  Empty locations contribute nothing.
    pub fn readback(&self) -> (r: Vec<(Var, FcmcTerm)>)
        requires
            self.threads@.len() > 0,
        ensures
            pairs_view(r@) == c_readback_v(self@),
    {
        let mut res: Vec<(Var, FcmcTerm)> = Vec::new();
        proof {
            assert(pairs_view(res@) =~= Seq::<(Seq<char>, CTermV)>::empty());
        }
        let ghost chansv = locmap_view(self.channels@);
        let mut ci: usize = 0;
        while ci < self.channels.len()
            invariant
                ci <= self.channels@.len(),
                chansv == locmap_view(self.channels@),
                self.threads@.len() > 0,
                pairs_view(res@) == rb_chans(chansv, ci as int),
            decreases self.channels@.len() - ci,
        {
            let e = &self.channels[ci];
            let ghost namev = chansv[ci as int].0;
            let ghost qv = chansv[ci as int].1;
            let mut j: usize = 0;
            while j < e.1.len()
                invariant
                    j <= e.1@.len(),
                    ci < self.channels@.len(),
                    e == &self.channels[ci as int],
                    chansv == locmap_view(self.channels@),
                    namev == chansv[ci as int].0,
                    qv == chansv[ci as int].1,
                    qv.len() == e.1@.len(),
                    pairs_view(res@) == rb_chans(chansv, ci as int) + rb_queue(
                        namev,
                        qv,
                    ).subrange(0, j as int),
                decreases e.1@.len() - j,
            {
                let cl = e.1[j].clone();
                let t = cl.retrieve_term();
                let ghost prevres = res@;
                res.push((e.0.clone(), t));
                proof {
                    assert(qv[j as int] == e.1@[j as int]@);
                    assert(pairs_view(res@) =~= pairs_view(prevres).push(
                        (namev, cretrieve_v(qv[j as int])),
                    ));
                    assert(rb_queue(namev, qv).subrange(0, j + 1) =~= rb_queue(
                        namev,
                        qv,
                    ).subrange(0, j as int).push((namev, cretrieve_v(qv[j as int]))));
                }
                j = j + 1;
            }
            proof {
                assert(rb_queue(namev, qv).subrange(0, qv.len() as int) =~= rb_queue(namev, qv));
                assert(rb_chans(chansv, ci + 1) == rb_chans(chansv, ci as int) + rb_queue(
                    namev,
                    qv,
                ));
            }
            ci = ci + 1;
        }
        let ghost stacksv = self@.threads[0].stacks;
        let main = &self.threads[0];
        proof {
            assert(locmap_view(main.stacks@) == stacksv);
        }
        let mut si: usize = 0;
        while si < main.stacks.len()
            invariant
                si <= main.stacks@.len(),
                main == &self.threads[0],
                self.threads@.len() > 0,
                stacksv == locmap_view(main.stacks@),
                chansv == locmap_view(self.channels@),
                pairs_view(res@) == rb_chans(chansv, chansv.len() as int) + rb_stacks(
                    stacksv,
                    si as int,
                ),
            decreases main.stacks@.len() - si,
        {
            let e = &main.stacks[si];
            let ghost namev = stacksv[si as int].0;
            let ghost qv = stacksv[si as int].1;
            let n = e.1.len();
            let mut j: usize = 0;
            while j < n
                invariant
                    j <= n,
                    si < main.stacks@.len(),
                    main == &self.threads[0],
                    self.threads@.len() > 0,
                    e == &main.stacks[si as int],
                    stacksv == locmap_view(main.stacks@),
                    chansv == locmap_view(self.channels@),
                    namev == stacksv[si as int].0,
                    qv == stacksv[si as int].1,
                    n == e.1@.len(),
                    qv.len() == n,
                    pairs_view(res@) == rb_chans(chansv, chansv.len() as int) + rb_stacks(
                        stacksv,
                        si as int,
                    ) + rb_stack(namev, qv).subrange(0, j as int),
                decreases n - j,
            {
                let cl = e.1[n - 1 - j].clone();
                let t = cl.retrieve_term();
                let ghost prevres = res@;
                res.push((e.0.clone(), t));
                proof {
                    assert(qv[n - 1 - j] == e.1@[n - 1 - j]@);
                    assert(pairs_view(res@) =~= pairs_view(prevres).push(
                        (namev, cretrieve_v(qv[qv.len() - 1 - j])),
                    ));
                    assert(rb_stack(namev, qv).subrange(0, j + 1) =~= rb_stack(
                        namev,
                        qv,
                    ).subrange(0, j as int).push((namev, cretrieve_v(qv[qv.len() - 1 - j]))));
                }
                j = j + 1;
            }
            proof {
                assert(rb_stack(namev, qv).subrange(0, qv.len() as int) =~= rb_stack(namev, qv));
                assert(rb_stacks(stacksv, si + 1) == rb_stacks(stacksv, si as int) + rb_stack(
                    namev,
                    qv,
                ));
            }
            si = si + 1;
        }
        proof {
            assert(pairs_view(res@) =~= c_readback_v(self@));
        }
        res
    }

    /// Run a term on the machine for at most `max_steps` transitions of
    /// the deterministic scheduler.  Returns the read-back once the main
    /// thread reaches its final state, an empty list when no thread can
    /// make a step — a deadlock, or a failure of every runnable thread —
    /// and `None` when the allowance of steps runs out first.
    pub fn run(term: FcmcTerm, max_steps: usize) -> (r: Option<Vec<(Var, FcmcTerm)>>)
        ensures
            r is Some <==> crun_v(start_cfg(term@), max_steps as nat) is Some,
            r matches Option::Some(ps) ==> crun_v(start_cfg(term@), max_steps as nat)
                == Option::Some(pairs_view(ps@)),
    {
        let ghost cfg0 = start_cfg(term@);
        let chans = term.channel_scan();
        let mut st = FcmcProgramState::start(term, chans);
        proof {
            assert(st@ == cfg0);
        }
        let mut fuel = max_steps;
        let mut halted = false;
        let mut ran_out = false;
        loop
            invariant_except_break
                !halted,
                !ran_out,
                st.threads@.len() >= 1,
                crun_v(st@, fuel as nat) == crun_v(cfg0, max_steps as nat),
            ensures
                ran_out ==> crun_v(cfg0, max_steps as nat) is None,
                halted ==> crun_v(cfg0, max_steps as nat) == Option::Some(
                    Seq::<(Seq<char>, CTermV)>::empty(),
                ),
                !ran_out && !halted ==> st.threads@.len() >= 1 && t_final_v(st@.threads[0])
                    && crun_v(cfg0, max_steps as nat) == Option::Some(c_readback_v(st@)),
            decreases fuel,
        {
            if st.main_is_final() {
                break ;
            }
            let picked = st.pick_thread();
            match picked {
                Option::None => {
                    halted = true;
                    break ;
                }
                Option::Some(ti) => {
                    if fuel == 0 {
                        proof {
                            assert(crun_v(st@, 0) is None);
                        }
                        ran_out = true;
                        break ;
                    }
                    let ghost pre = st@;
                    let outcome = st.step_thread(ti);
                    proof {
                        assert(crun_v(pre, fuel as nat) == crun_v(st@, (fuel - 1) as nat));
                        assert(st@.threads.len() >= pre.threads.len());
                    }
                    fuel = fuel - 1;
                }
            }
        }
        if ran_out {
            return Option::None;
        }
        if halted {
            let empty: Vec<(Var, FcmcTerm)> = Vec::new();
            proof {
                assert(pairs_view(empty@) =~= Seq::<(Seq<char>, CTermV)>::empty());
            }
            return Option::Some(empty);
        }
        let out = st.readback();
        Option::Some(out)
    }
}

} // verus!
