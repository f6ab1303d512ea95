//! Terms of the plain lambda-calculus and their structural operations:
//! used-name analysis, fresh-name generation, renaming and capture-avoiding
//! substitution.

use crate::names::candidate;
use crate::names::first_fresh;
use crate::names::is_min_free;
use crate::names::lemma_candidates_bound;
use crate::names::lemma_min_free_unique;
use crate::names::lemma_name_set_finite;
use crate::names::make_candidate;
use crate::names::merge_into;
use crate::names::name_list_contains;
use crate::names::name_set;
use crate::names::names_view;
use crate::names::no_dup_names;
use crate::names::push_unique;
use vstd::prelude::*;

verus! {

/// A variable name.
pub type Var = String;

/// The mathematical model of a lambda term: names are character sequences.
#[verifier::ext_equal]
pub enum TermV {
    Var { name: Seq<char> },
    Lam { arg: Seq<char>, body: Box<TermV> },
    App { t1: Box<TermV>, t2: Box<TermV> },
}

/// A term of the lambda-calculus.
#[derive(Debug, PartialEq)]
pub enum LambdaTerm {
    Variable { name: Var },
    Lambda { arg: Var, body: Box<LambdaTerm> },
    Apply { t1: Box<LambdaTerm>, t2: Box<LambdaTerm> },
}

pub open spec fn term_view(t: LambdaTerm) -> TermV
    decreases t,
{
    match t {
        LambdaTerm::Variable { name } => TermV::Var { name: name@ },
        LambdaTerm::Lambda { arg, body } => TermV::Lam {
            arg: arg@,
            body: Box::new(term_view(*body)),
        },
        LambdaTerm::Apply { t1, t2 } => TermV::App {
            t1: Box::new(term_view(*t1)),
            t2: Box::new(term_view(*t2)),
        },
    }
}

impl View for LambdaTerm {
    type V = TermV;

    open spec fn view(&self) -> TermV {
        term_view(*self)
    }
}

/// The number of nodes of a term; renaming preserves it.
pub open spec fn tsize(t: TermV) -> nat
    decreases t,
{
    match t {
        TermV::Var { .. } => 1,
        TermV::Lam { body, .. } => 1 + tsize(*body),
        TermV::App { t1, t2 } => 1 + tsize(*t1) + tsize(*t2),
    }
}

/// The set of all names that occur in a term, bound or free.
pub open spec fn used_names_of(t: TermV) -> Set<Seq<char>>
    decreases t,
{
    match t {
        TermV::Var { name } => Set::empty().insert(name),
        TermV::Lam { arg, body } => used_names_of(*body).insert(arg),
        TermV::App { t1, t2 } => used_names_of(*t1).union(used_names_of(*t2)),
    }
}

/// The set of names that occur free in a term.
pub open spec fn free_names_of(t: TermV) -> Set<Seq<char>>
    decreases t,
{
    match t {
        TermV::Var { name } => Set::empty().insert(name),
        TermV::Lam { arg, body } => free_names_of(*body).remove(arg),
        TermV::App { t1, t2 } => free_names_of(*t1).union(free_names_of(*t2)),
    }
}

pub proof fn lemma_used_names_finite(t: TermV)
    ensures
        used_names_of(t).finite(),
    decreases t,
{
    match t {
        TermV::Var { .. } => {}
        TermV::Lam { body, .. } => {
            lemma_used_names_finite(*body);
        }
        TermV::App { t1, t2 } => {
            lemma_used_names_finite(*t1);
            lemma_used_names_finite(*t2);
        }
    }
}

/// Every free name of a term is a used name of it.
pub proof fn lemma_free_subset_used(t: TermV)
    ensures
        free_names_of(t).subset_of(used_names_of(t)),
    decreases t,
{
    match t {
        TermV::Var { .. } => {}
        TermV::Lam { body, .. } => {
            lemma_free_subset_used(*body);
        }
        TermV::App { t1, t2 } => {
            lemma_free_subset_used(*t1);
            lemma_free_subset_used(*t2);
        }
    }
}

impl Clone for LambdaTerm {
    fn clone(&self) -> (res: Self)
        ensures
            res@ == self@,
        decreases *self,
    {
        match self {
            LambdaTerm::Variable { name } => LambdaTerm::Variable { name: name.clone() },
            LambdaTerm::Lambda { arg, body } => LambdaTerm::Lambda {
                arg: arg.clone(),
                body: Box::new((**body).clone()),
            },
            LambdaTerm::Apply { t1, t2 } => LambdaTerm::Apply {
                t1: Box::new((**t1).clone()),
                t2: Box::new((**t2).clone()),
            },
        }
    }
}

/// The model of the Church encoding of a boolean.
pub open spec fn bool_view(value: bool) -> TermV {
    TermV::Lam {
        arg: "a"@,
        body: Box::new(TermV::Lam {
            arg: "b"@,
            body: Box::new(TermV::Var { name: if value { "a"@ } else { "b"@ } }),
        }),
    }
}

/// The model of the body of the Church encoding of a number: `f` applied
/// `n` times to `x`.
pub open spec fn church_body_view(n: nat) -> TermV
    decreases n,
{
    if n == 0 {
        TermV::Var { name: "x"@ }
    } else {
        TermV::App {
            t1: Box::new(TermV::Var { name: "f"@ }),
            t2: Box::new(church_body_view((n - 1) as nat)),
        }
    }
}

/// The model of the Church encoding of a number.
pub open spec fn church_view(n: nat) -> TermV {
    TermV::Lam {
        arg: "f"@,
        body: Box::new(TermV::Lam { arg: "x"@, body: Box::new(church_body_view(n)) }),
    }
}

fn new_num_sub(numeral: usize) -> (r: LambdaTerm)
    ensures
        r@ == church_body_view(numeral as nat),
    decreases numeral,
{
    if numeral == 0 {
        LambdaTerm::new_var("x")
    } else {
        LambdaTerm::Apply {
            t1: Box::new(LambdaTerm::new_var("f")),
            t2: Box::new(new_num_sub(numeral - 1)),
        }
    }
}

impl LambdaTerm {
    /// Turn a `&str` into a `Variable`.
    pub fn new_var(name: &str) -> (r: Self)
        ensures
            r@ == (TermV::Var { name: name@ }),
    {
        LambdaTerm::Variable { name: name.to_owned() }
    }

    /// Return a `LambdaTerm` for the Church encoding of the given `usize`.
    pub fn new_num(numeral: usize) -> (r: Self)
        ensures
            r@ == church_view(numeral as nat),
    {
        let r = LambdaTerm::Lambda {
            arg: String::from_str("f"),
            body: Box::new(LambdaTerm::Lambda {
                arg: String::from_str("x"),
                body: Box::new(new_num_sub(numeral)),
            }),
        };
        proof {
            reveal_with_fuel(term_view, 3);
        }
        r
    }

    /// Return a `LambdaTerm` for the Church encoding of the given `bool`.
    pub fn new_bool(value: bool) -> (r: Self)
        ensures
            r@ == bool_view(value),
    {
        let x = if value { "a" } else { "b" };
        let r = LambdaTerm::Lambda {
            arg: String::from_str("a"),
            body: Box::new(LambdaTerm::Lambda {
                arg: String::from_str("b"),
                body: Box::new(LambdaTerm::new_var(x)),
            }),
        };
        proof {
            reveal_with_fuel(term_view, 3);
        }
        r
    }
}

/// The model of renaming: replace free occurrences of `from` by `to`; a
/// binder equal to `from` shadows, and its body is left alone.
pub open spec fn rename_v(t: TermV, from: Seq<char>, to: Seq<char>) -> TermV
    decreases t,
{
    match t {
        TermV::Var { name } => if name == from {
            TermV::Var { name: to }
        } else {
            t
        },
        TermV::Lam { arg, body } => if arg == from {
            t
        } else {
            TermV::Lam { arg, body: Box::new(rename_v(*body, from, to)) }
        },
        TermV::App { t1, t2 } => TermV::App {
            t1: Box::new(rename_v(*t1, from, to)),
            t2: Box::new(rename_v(*t2, from, to)),
        },
    }
}

/// Renaming does not change the number of nodes of a term.
pub proof fn lemma_rename_size(t: TermV, from: Seq<char>, to: Seq<char>)
    ensures
        tsize(rename_v(t, from, to)) == tsize(t),
    decreases t,
{
    match t {
        TermV::Var { .. } => {}
        TermV::Lam { arg, body } => {
            if arg != from {
                lemma_rename_size(*body, from, to);
            }
        }
        TermV::App { t1, t2 } => {
            lemma_rename_size(*t1, from, to);
            lemma_rename_size(*t2, from, to);
        }
    }
}

/// Renaming a name that does not occur in a term leaves it unchanged.
pub proof fn lemma_rename_unused(t: TermV, from: Seq<char>, to: Seq<char>)
    requires
        !used_names_of(t).contains(from),
    ensures
        rename_v(t, from, to) == t,
    decreases t,
{
    match t {
        TermV::Var { .. } => {}
        TermV::Lam { arg, body } => {
            if arg != from {
                lemma_rename_unused(*body, from, to);
            }
        }
        TermV::App { t1, t2 } => {
            lemma_rename_unused(*t1, from, to);
            lemma_rename_unused(*t2, from, to);
        }
    }
}

/// Renaming a free name `from` to a name `to` that occurs nowhere in the
/// term moves exactly the free occurrences of `from` over to `to`.
pub proof fn lemma_rename_free(t: TermV, from: Seq<char>, to: Seq<char>)
    requires
        !used_names_of(t).contains(to),
    ensures
        free_names_of(rename_v(t, from, to)) == (if free_names_of(t).contains(from) {
            free_names_of(t).remove(from).insert(to)
        } else {
            free_names_of(t)
        }),
    decreases t,
{
    let r = rename_v(t, from, to);
    match t {
        TermV::Var { name } => {
            if name == from {
                assert(free_names_of(r) =~= free_names_of(t).remove(from).insert(to));
            } else {
                assert(free_names_of(r) =~= free_names_of(t));
            }
        }
        TermV::Lam { arg, body } => {
            if arg == from {
                assert(!free_names_of(t).contains(from));
                assert(free_names_of(r) =~= free_names_of(t));
            } else {
                lemma_rename_free(*body, from, to);
                lemma_free_subset_used(*body);
                assert(to != arg);
                if free_names_of(*body).contains(from) {
                    assert(free_names_of(t).contains(from));
                    assert(free_names_of(r) =~= free_names_of(t).remove(from).insert(to));
                } else {
                    assert(!free_names_of(t).contains(from));
                    assert(free_names_of(r) =~= free_names_of(t));
                }
            }
        }
        TermV::App { t1, t2 } => {
            lemma_rename_free(*t1, from, to);
            lemma_rename_free(*t2, from, to);
            lemma_free_subset_used(*t1);
            lemma_free_subset_used(*t2);
            if free_names_of(t).contains(from) {
                assert(free_names_of(r) =~= free_names_of(t).remove(from).insert(to));
            } else {
                assert(free_names_of(r) =~= free_names_of(t));
            }
        }
    }
}

/// The names to avoid when substituting `rhs` for `from` in `t`.
pub open spec fn subst_avoid(t: TermV, from: Seq<char>, rhs: TermV) -> Set<Seq<char>> {
    used_names_of(t).union(used_names_of(rhs)).insert(from)
}

/// The model of capture-avoiding substitution: under a binder other than
/// `from`, the binder is first renamed to a fresh name.
pub open spec fn subst_v(t: TermV, from: Seq<char>, rhs: TermV) -> TermV
    decreases tsize(t),
    via subst_v_dec
{
    match t {
        TermV::Var { name } => if name == from {
            rhs
        } else {
            t
        },
        TermV::Lam { arg, body } => if arg == from {
            t
        } else {
            let z = first_fresh(subst_avoid(t, from, rhs));
            TermV::Lam { arg: z, body: Box::new(subst_v(rename_v(*body, arg, z), from, rhs)) }
        },
        TermV::App { t1, t2 } => TermV::App {
            t1: Box::new(subst_v(*t1, from, rhs)),
            t2: Box::new(subst_v(*t2, from, rhs)),
        },
    }
}

#[via_fn]
proof fn subst_v_dec(t: TermV, from: Seq<char>, rhs: TermV) {
    match t {
        TermV::Lam { arg, body } => {
            if arg != from {
                let z = first_fresh(subst_avoid(t, from, rhs));
                lemma_rename_size(*body, arg, z);
            }
        }
        _ => {}
    }
}

/// The rightmost position of a name in a list of binders, or a negative
/// number when the name is not bound.
pub open spec fn bound_index(b: Seq<Seq<char>>, n: Seq<char>) -> int
    decreases b.len(),
{
    if b.len() == 0 {
        -1
    } else if b.last() == n {
        b.len() - 1
    } else {
        bound_index(b.drop_last(), n)
    }
}

/// Alpha-equivalence under two parallel lists of binders: two variables
/// agree when they are bound at the same position, or both free under
/// the same name; two lambdas agree when their bodies agree with the
/// arguments bound in parallel.
pub open spec fn alpha_eq_v(t1: TermV, t2: TermV, b1: Seq<Seq<char>>, b2: Seq<Seq<char>>) -> bool
    decreases t1,
{
    match (t1, t2) {
        (TermV::Var { name: n1 }, TermV::Var { name: n2 }) => {
            let i1 = bound_index(b1, n1);
            let i2 = bound_index(b2, n2);
            if i1 < 0 && i2 < 0 {
                n1 == n2
            } else {
                i1 == i2
            }
        }
        (TermV::Lam { arg: a1, body: bd1 }, TermV::Lam { arg: a2, body: bd2 }) => alpha_eq_v(
            *bd1,
            *bd2,
            b1.push(a1),
            b2.push(a2),
        ),
        (TermV::App { t1: x1, t2: y1 }, TermV::App { t1: x2, t2: y2 }) => alpha_eq_v(
            *x1,
            *x2,
            b1,
            b2,
        ) && alpha_eq_v(*y1, *y2, b1, b2),
        _ => false,
    }
}

/// Alpha-equivalence is reflexive: every term is alpha-equivalent to
/// itself under equal binder lists.
pub proof fn lemma_alpha_eq_refl(t: TermV, b: Seq<Seq<char>>)
    ensures
        alpha_eq_v(t, t, b, b),
    decreases t,
{
    match t {
        TermV::Var { .. } => {}
        TermV::Lam { arg, body } => {
            lemma_alpha_eq_refl(*body, b.push(arg));
        }
        TermV::App { t1, t2 } => {
            lemma_alpha_eq_refl(*t1, b);
            lemma_alpha_eq_refl(*t2, b);
        }
    }
}

/// Alpha-equivalence is symmetric.
pub proof fn lemma_alpha_eq_sym(t1: TermV, t2: TermV, b1: Seq<Seq<char>>, b2: Seq<Seq<char>>)
    requires
        alpha_eq_v(t1, t2, b1, b2),
    ensures
        alpha_eq_v(t2, t1, b2, b1),
    decreases t1,
{
    match (t1, t2) {
        (TermV::Lam { arg: a1, body: bd1 }, TermV::Lam { arg: a2, body: bd2 }) => {
            lemma_alpha_eq_sym(*bd1, *bd2, b1.push(a1), b2.push(a2));
        }
        (TermV::App { t1: x1, t2: y1 }, TermV::App { t1: x2, t2: y2 }) => {
            lemma_alpha_eq_sym(*x1, *x2, b1, b2);
            lemma_alpha_eq_sym(*y1, *y2, b1, b2);
        }
        _ => {}
    }
}

/// The rightmost binder of a name, if any.
fn bound_lookup(b: &Vec<Var>, n: &Var) -> (r: Option<usize>)
    ensures
        r matches Option::Some(i) ==> i < b@.len() && bound_index(names_view(b@), n@) == i as int,
        r is None ==> bound_index(names_view(b@), n@) < 0,
{
    let mut i: usize = b.len();
    proof {
        assert(names_view(b@).subrange(0, names_view(b@).len() as int) =~= names_view(b@));
        assert(names_view(b@).len() == b@.len());
    }
    while i > 0
        invariant
            i <= b@.len(),
            bound_index(names_view(b@), n@) == bound_index(
                names_view(b@).subrange(0, i as int),
                n@,
            ),
        decreases i,
    {
        proof {
            assert(names_view(b@).subrange(0, i as int).last() == b@[i - 1]@);
        }
        if b[i - 1] == *n {
            return Option::Some(i - 1);
        }
        proof {
            assert(names_view(b@).subrange(0, i as int).drop_last() =~= names_view(
                b@,
            ).subrange(0, i - 1));
        }
        i = i - 1;
    }
    proof {
        assert(names_view(b@).subrange(0, 0) =~= Seq::<Seq<char>>::empty());
    }
    Option::None
}

fn alpha_eq_in(t1: &LambdaTerm, t2: &LambdaTerm, b1: &mut Vec<Var>, b2: &mut Vec<Var>) -> (r:
    bool)
    ensures
        r == alpha_eq_v(t1@, t2@, names_view(old(b1)@), names_view(old(b2)@)),
        final(b1)@ == old(b1)@,
        final(b2)@ == old(b2)@,
    decreases *t1,
{
    match (t1, t2) {
        (LambdaTerm::Variable { name: n1 }, LambdaTerm::Variable { name: n2 }) => {
            let l1 = bound_lookup(b1, n1);
            let l2 = bound_lookup(b2, n2);
            match (l1, l2) {
                (Option::Some(i1), Option::Some(i2)) => i1 == i2,
                (Option::None, Option::None) => *n1 == *n2,
                _ => false,
            }
        }
        (
            LambdaTerm::Lambda { arg: a1, body: bd1 },
            LambdaTerm::Lambda { arg: a2, body: bd2 },
        ) => {
            b1.push(a1.clone());
            b2.push(a2.clone());
            proof {
                assert(names_view(b1@) =~= names_view(old(b1)@).push(a1@));
                assert(names_view(b2@) =~= names_view(old(b2)@).push(a2@));
            }
            let r = alpha_eq_in(bd1, bd2, b1, b2);
            let ghost mid1 = b1@;
            let ghost mid2 = b2@;
            b1.pop();
            b2.pop();
            proof {
                assert(b1@ =~= old(b1)@);
                assert(b2@ =~= old(b2)@);
            }
            r
        }
        (LambdaTerm::Apply { t1: x1, t2: y1 }, LambdaTerm::Apply { t1: x2, t2: y2 }) => {
            let r1 = alpha_eq_in(x1, x2, b1, b2);
            if !r1 {
                false
            } else {
                alpha_eq_in(y1, y2, b1, b2)
            }
        }
        _ => false,
    }
}

impl LambdaTerm {
    /// Whether two terms are alpha-equivalent: equal up to a consistent
    /// renaming of bound variables.
    pub fn alpha_eq(&self, other: &LambdaTerm) -> (r: bool)
        ensures
            r == alpha_eq_v(
                self@,
                other@,
                Seq::<Seq<char>>::empty(),
                Seq::<Seq<char>>::empty(),
            ),
    {
        let mut b1: Vec<Var> = Vec::new();
        let mut b2: Vec<Var> = Vec::new();
        proof {
            assert(names_view(b1@) =~= Seq::<Seq<char>>::empty());
            assert(names_view(b2@) =~= Seq::<Seq<char>>::empty());
        }
        alpha_eq_in(self, other, &mut b1, &mut b2)
    }
}

/// The printed form of a term: `\x. b` for a lambda, juxtaposition for an
/// application, with parentheses around non-variable operands.
pub open spec fn term_dsp(t: TermV) -> Seq<char>
    decreases t,
{
    match t {
        TermV::Var { name } => name,
        TermV::Lam { arg, body } => "\\"@ + arg + ". "@ + term_dsp(*body),
        TermV::App { t1, t2 } => {
            let d1 = term_dsp(*t1);
            let d2 = term_dsp(*t2);
            if (*t2) is Var && !((*t1) is Lam) {
                d1 + " "@ + d2
            } else if (*t1) is Var {
                d1 + " ("@ + d2 + ")"@
            } else if (*t2) is Var {
                "("@ + d1 + ") "@ + d2
            } else {
                "("@ + d1 + ") ("@ + d2 + ")"@
            }
        }
    }
}

/// Substitution never captures a name: a name occurs free in the result
/// exactly where the rules of substitution put it — the free names of the
/// result are those of the original term without the substituted name,
/// together with the free names of the replacement wherever that name did
/// occur free.
pub proof fn lemma_substitute_free(t: TermV, from: Seq<char>, rhs: TermV)
    ensures
        free_names_of(subst_v(t, from, rhs)) == (if free_names_of(t).contains(from) {
            free_names_of(t).remove(from).union(free_names_of(rhs))
        } else {
            free_names_of(t)
        }),
    decreases tsize(t),
{
    let r = subst_v(t, from, rhs);
    match t {
        TermV::Var { name } => {
            if name == from {
                assert(free_names_of(r) =~= free_names_of(t).remove(from).union(
                    free_names_of(rhs),
                ));
            } else {
                assert(free_names_of(r) =~= free_names_of(t));
            }
        }
        TermV::Lam { arg, body } => {
            if arg == from {
                assert(!free_names_of(t).contains(from));
            } else {
                let avoid = subst_avoid(t, from, rhs);
                lemma_used_names_finite(t);
                lemma_used_names_finite(rhs);
                crate::names::lemma_first_fresh_not_in(avoid);
                let z = first_fresh(avoid);
                lemma_free_subset_used(*body);
                lemma_free_subset_used(rhs);
                lemma_free_subset_used(t);
                assert(!used_names_of(*body).contains(z));
                lemma_rename_free(*body, arg, z);
                let rb = rename_v(*body, arg, z);
                lemma_rename_size(*body, arg, z);
                lemma_substitute_free(rb, from, rhs);
                let fb = free_names_of(*body);
                assert(z != from && z != arg);
                if fb.contains(from) {
                    assert(free_names_of(t).contains(from));
                    assert(free_names_of(r) =~= free_names_of(t).remove(from).union(
                        free_names_of(rhs),
                    ));
                } else {
                    assert(!free_names_of(t).contains(from));
                    assert(free_names_of(r) =~= free_names_of(t));
                }
            }
        }
        TermV::App { t1, t2 } => {
            lemma_substitute_free(*t1, from, rhs);
            lemma_substitute_free(*t2, from, rhs);
            if free_names_of(t).contains(from) {
                assert(free_names_of(r) =~= free_names_of(t).remove(from).union(
                    free_names_of(rhs),
                ));
            } else {
                assert(free_names_of(r) =~= free_names_of(t));
            }
        }
    }
}

impl LambdaTerm {
    /// Return all names that occur in the term, without duplicates.
    pub fn get_used_names(&self) -> (r: Vec<Var>)
        ensures
            name_set(r@) == used_names_of(self@),
            no_dup_names(r@),
        decreases *self,
    {
        match self {
            LambdaTerm::Variable { name } => {
                let mut v: Vec<Var> = Vec::new();
                proof {
                    lemma_name_set_finite(v@);
                }
                push_unique(&mut v, name.clone());
                proof {
                    assert(name_set(v@) =~= used_names_of(self@));
                }
                v
            }
            LambdaTerm::Lambda { arg, body } => {
                let mut v = body.get_used_names();
                push_unique(&mut v, arg.clone());
                proof {
                    assert(name_set(v@) =~= used_names_of(self@));
                }
                v
            }
            LambdaTerm::Apply { t1, t2 } => {
                let mut v = t1.get_used_names();
                let w = t2.get_used_names();
                merge_into(&mut v, &w);
                proof {
                    assert(name_set(v@) =~= used_names_of(self@));
                }
                v
            }
        }
    }

    /// Return the first candidate name (`a`..`z`, then `a1`, `b1`, ...)
    /// that does not occur in `used`.
    pub fn fresh_from_used(used: Vec<Var>) -> (r: Var)
        ensures
            r@ == first_fresh(name_set(used@)),
            exists|k: nat| is_min_free(name_set(used@), k) && r@ == candidate(k),
            !name_set(used@).contains(r@),
    {
        let ghost us = name_set(used@);
        proof {
            lemma_name_set_finite(used@);
        }
        let n = used.len();
        let mut k: usize = 0;
        loop
            invariant
                us == name_set(used@),
                us.finite(),
                us.len() <= n as nat,
                n == used@.len(),
                k <= n,
                forall|m: nat| m < k ==> us.contains(#[trigger] candidate(m)),
            decreases n - k,
        {
            let cand = make_candidate(k);
            if !name_list_contains(&used, &cand) {
                proof {
                    assert(is_min_free(us, k as nat));
                    let kk = choose|j: nat| is_min_free(us, j);
                    lemma_min_free_unique(us, k as nat, kk);
                }
                return cand;
            }
            proof {
                lemma_candidates_bound(us, (k + 1) as nat);
            }
            k = k + 1;
        }
    }

    /// Return the first candidate name that does not occur in the term.
    pub fn get_fresh_name(&self) -> (r: Var)
        ensures
            r@ == first_fresh(used_names_of(self@)),
            !used_names_of(self@).contains(r@),
    {
        let used = self.get_used_names();
        LambdaTerm::fresh_from_used(used)
    }

    /// Rename free occurrences of a name in place.
    pub fn rename(&mut self, from: &Var, to: &Var)
        ensures
            final(self)@ == rename_v(old(self)@, from@, to@),
    {
        let r = self.renamed(from, to);
        *self = r;
    }

    /// Rename free occurrences of a name and return the new term.
    pub fn renamed(&self, from: &Var, to: &Var) -> (r: Self)
        ensures
            r@ == rename_v(self@, from@, to@),
        decreases *self,
    {
        match self {
            LambdaTerm::Variable { name } => {
                if *name == *from {
                    LambdaTerm::Variable { name: to.clone() }
                } else {
                    self.clone()
                }
            }
            LambdaTerm::Lambda { arg, body } => {
                if *arg == *from {
                    self.clone()
                } else {
                    LambdaTerm::Lambda { arg: arg.clone(), body: Box::new(body.renamed(from, to)) }
                }
            }
            LambdaTerm::Apply { t1, t2 } => LambdaTerm::Apply {
                t1: Box::new(t1.renamed(from, to)),
                t2: Box::new(t2.renamed(from, to)),
            },
        }
    }

    /// The printed form of the term.
    pub fn display_string(&self) -> (r: String)
        ensures
            r@ == term_dsp(self@),
        decreases *self,
    {
        match self {
            LambdaTerm::Variable { name } => name.clone(),
            LambdaTerm::Lambda { arg, body } => {
                let mut s = String::from_str("\\");
                s.append(arg.as_str());
                s.append(". ");
                let b = body.display_string();
                s.append(b.as_str());
                s
            }
            LambdaTerm::Apply { t1, t2 } => {
                let d1 = t1.display_string();
                let d2 = t2.display_string();
                let v1 = matches!(**t1, LambdaTerm::Variable { .. });
                let l1 = matches!(**t1, LambdaTerm::Lambda { .. });
                let v2 = matches!(**t2, LambdaTerm::Variable { .. });
                let mut s = String::new();
                if v2 && !l1 {
                    s.append(d1.as_str());
                    s.append(" ");
                    s.append(d2.as_str());
                } else if v1 {
                    s.append(d1.as_str());
                    s.append(" (");
                    s.append(d2.as_str());
                    s.append(")");
                } else if v2 {
                    s.append("(");
                    s.append(d1.as_str());
                    s.append(") ");
                    s.append(d2.as_str());
                } else {
                    s.append("(");
                    s.append(d1.as_str());
                    s.append(") (");
                    s.append(d2.as_str());
                    s.append(")");
                }
                proof {
                    assert(s@ =~= term_dsp(self@));
                }
                s
            }
        }
    }

    /// Perform a capture-avoiding substitution and return the new term.
    pub fn substitute(&self, from: &Var, rhs: &LambdaTerm) -> (r: Self)
        ensures
            r@ == subst_v(self@, from@, rhs@),
        decreases tsize(self@),
    {
        match self {
            LambdaTerm::Variable { name } => {
                if *name == *from {
                    rhs.clone()
                } else {
                    self.clone()
                }
            }
            LambdaTerm::Lambda { arg, body } => {
                if *arg == *from {
                    self.clone()
                } else {
                    let mut avoid = self.get_used_names();
                    let others = rhs.get_used_names();
                    merge_into(&mut avoid, &others);
                    push_unique(&mut avoid, from.clone());
                    let z = LambdaTerm::fresh_from_used(avoid);
                    proof {
                        assert(z@ == first_fresh(subst_avoid(self@, from@, rhs@)));
                        lemma_rename_size(body@, arg@, z@);
                    }
                    let renamed_body = body.renamed(arg, &z);
                    let new_body = renamed_body.substitute(from, rhs);
                    LambdaTerm::Lambda { arg: z, body: Box::new(new_body) }
                }
            }
            LambdaTerm::Apply { t1, t2 } => LambdaTerm::Apply {
                t1: Box::new(t1.substitute(from, rhs)),
                t2: Box::new(t2.substitute(from, rhs)),
            },
        }
    }
}

} // verus!
