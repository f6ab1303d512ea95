//! Fresh-name generation.
//!
//! Fresh names are drawn from a fixed candidate enumeration: first the
//! one-letter names `a` to `z`, then the suffixed names `a1`, `b1`, ...,
//! `z1`, `a2`, and so on.  `fresh_from_used` in the term module returns the
//! first candidate that does not occur in a given list of used names.

use vstd::prelude::*;
use vstd::set_lib::lemma_len_subset;

verus! {

/// The `j`-th lower-case letter.
pub open spec fn letter(j: nat) -> char
    recommends
        j < 26,
{
    (('a' as u8) + j) as char
}

/// The character of a decimal digit.
pub open spec fn digit(d: nat) -> char
    recommends
        d < 10,
{
    (('0' as u8) + d) as char
}

/// The decimal representation of a number, without leading zeros.
pub open spec fn dec_rep(n: nat) -> Seq<char>
    decreases n,
{
    if n < 10 {
        seq![digit(n)]
    } else {
        dec_rep(n / 10).push(digit(n % 10))
    }
}

/// The `k`-th name of the candidate enumeration: `a`..`z`, then `a1`,
/// `b1`, .., `z1`, `a2`, ...
pub open spec fn candidate(k: nat) -> Seq<char> {
    if k < 26 {
        seq![letter(k)]
    } else {
        seq![letter(((k - 26) as nat) % 26)] + dec_rep(((k - 26) as nat) / 26 + 1)
    }
}

/// `candidate(k)` is the first candidate not in `used`.
pub open spec fn is_min_free(used: Set<Seq<char>>, k: nat) -> bool {
    &&& !used.contains(candidate(k))
    &&& forall|m: nat| m < k ==> used.contains(#[trigger] candidate(m))
}

/// The first candidate name that is not in `used`.
pub open spec fn first_fresh(used: Set<Seq<char>>) -> Seq<char> {
    candidate(choose|k: nat| is_min_free(used, k))
}

/// The names denoted by a list of strings, in order.
pub open spec fn names_view(names: Seq<String>) -> Seq<Seq<char>> {
    names.map_values(|s: String| s@)
}

/// The set of names denoted by a list of strings.
pub open spec fn name_set(names: Seq<String>) -> Set<Seq<char>> {
    names_view(names).to_set()
}

/// The list holds no name twice.
pub open spec fn no_dup_names(names: Seq<String>) -> bool {
    forall|i: int, j: int| 0 <= i < j < names.len() ==> names[i]@ != names[j]@
}

pub proof fn lemma_name_set_finite(names: Seq<String>)
    ensures
        name_set(names).finite(),
        name_set(names).len() <= names.len(),
        forall|i: int| 0 <= i < names.len() ==> name_set(names).contains(#[trigger] names[i]@),
        forall|n: Seq<char>| name_set(names).contains(n) ==> exists|i: int|
            0 <= i < names.len() && #[trigger] names[i]@ == n,
{
    broadcast use vstd::seq_lib::seq_to_set_is_finite;

    let vs = names.map_values(|s: String| s@);
    vs.lemma_cardinality_of_set();
    assert forall|i: int| 0 <= i < names.len() implies name_set(names).contains(
        #[trigger] names[i]@,
    ) by {
        assert(vs[i] == names[i]@);
    }
    assert forall|n: Seq<char>| name_set(names).contains(n) implies exists|i: int|
        0 <= i < names.len() && #[trigger] names[i]@ == n by {
        let i = choose|i: int| 0 <= i < vs.len() && vs[i] == n;
        assert(names[i]@ == n);
    }
}

pub proof fn lemma_dec_rep_inj(a: nat, b: nat)
    requires
        dec_rep(a) == dec_rep(b),
    ensures
        a == b,
    decreases a + b,
{
    if a < 10 && b < 10 {
        assert(dec_rep(a)[0] == digit(a));
        assert(dec_rep(b)[0] == digit(b));
    } else if a < 10 {
        assert(dec_rep(a).len() == 1);
        assert(dec_rep(b).len() == dec_rep(b / 10).len() + 1);
        assert(dec_rep(b / 10).len() >= 1) by {
            lemma_dec_rep_len(b / 10);
        }
    } else if b < 10 {
        assert(dec_rep(b).len() == 1);
        assert(dec_rep(a).len() == dec_rep(a / 10).len() + 1);
        assert(dec_rep(a / 10).len() >= 1) by {
            lemma_dec_rep_len(a / 10);
        }
    } else {
        assert(dec_rep(a).last() == digit(a % 10));
        assert(dec_rep(b).last() == digit(b % 10));
        assert(a % 10 == b % 10);
        assert(dec_rep(a).drop_last() =~= dec_rep(a / 10));
        assert(dec_rep(b).drop_last() =~= dec_rep(b / 10));
        lemma_dec_rep_inj(a / 10, b / 10);
    }
}

pub proof fn lemma_dec_rep_len(n: nat)
    ensures
        dec_rep(n).len() >= 1,
    decreases n,
{
    if n >= 10 {
        lemma_dec_rep_len(n / 10);
    }
}

pub proof fn lemma_candidate_inj(k1: nat, k2: nat)
    requires
        candidate(k1) == candidate(k2),
    ensures
        k1 == k2,
{
    if k1 < 26 && k2 < 26 {
        assert(candidate(k1)[0] == letter(k1));
        assert(candidate(k2)[0] == letter(k2));
    } else if k1 < 26 {
        lemma_dec_rep_len((k2 - 26) as nat / 26 + 1);
        assert(candidate(k1).len() == 1);
        assert(candidate(k2).len() >= 2);
    } else if k2 < 26 {
        lemma_dec_rep_len((k1 - 26) as nat / 26 + 1);
        assert(candidate(k2).len() == 1);
        assert(candidate(k1).len() >= 2);
    } else {
        let j1 = (k1 - 26) as nat;
        let j2 = (k2 - 26) as nat;
        assert(candidate(k1)[0] == letter(j1 % 26));
        assert(candidate(k2)[0] == letter(j2 % 26));
        assert(j1 % 26 == j2 % 26);
        let c1 = candidate(k1);
        assert(c1.subrange(1, c1.len() as int) =~= dec_rep(j1 / 26 + 1));
        assert(c1.subrange(1, c1.len() as int) =~= dec_rep(j2 / 26 + 1));
        lemma_dec_rep_inj(j1 / 26 + 1, j2 / 26 + 1);
        assert(j1 == 26 * (j1 / 26) + j1 % 26) by (nonlinear_arith);
        assert(j2 == 26 * (j2 / 26) + j2 % 26) by (nonlinear_arith);
    }
}

/// If every candidate below `k` is a used name, there are at least `k`
/// used names.
pub proof fn lemma_candidates_bound(used: Set<Seq<char>>, k: nat)
    requires
        used.finite(),
        forall|m: nat| m < k ==> used.contains(#[trigger] candidate(m)),
    ensures
        k <= used.len(),
{
    let cs = Seq::new(k, |i: int| candidate(i as nat));
    assert forall|i: int, j: int| 0 <= i < cs.len() && 0 <= j < cs.len() && i != j implies cs[i]
        != cs[j] by {
        if cs[i] == cs[j] {
            lemma_candidate_inj(i as nat, j as nat);
        }
    }
    assert(cs.no_duplicates());
    cs.unique_seq_to_set();
    assert(cs.to_set().subset_of(used)) by {
        assert forall|n: Seq<char>| cs.to_set().contains(n) implies used.contains(n) by {
            let i = choose|i: int| 0 <= i < cs.len() && cs[i] == n;
            assert(used.contains(candidate(i as nat)));
        }
    }
    lemma_len_subset(cs.to_set(), used);
}

/// Some candidate below a free one is the first free one.
pub proof fn lemma_min_free_below(used: Set<Seq<char>>, k: nat)
    requires
        !used.contains(candidate(k)),
    ensures
        exists|j: nat| is_min_free(used, j),
    decreases k,
{
    if forall|m: nat| m < k ==> used.contains(#[trigger] candidate(m)) {
        assert(is_min_free(used, k));
    } else {
        let m = choose|m: nat| m < k && !used.contains(candidate(m));
        lemma_min_free_below(used, m);
    }
}

/// A finite set of used names leaves some candidate free, so a first free
/// candidate exists.
pub proof fn lemma_min_free_exists(used: Set<Seq<char>>)
    requires
        used.finite(),
    ensures
        exists|j: nat| is_min_free(used, j),
{
    let k = used.len() + 1;
    if forall|m: nat| m < k ==> used.contains(#[trigger] candidate(m)) {
        lemma_candidates_bound(used, k);
        assert(false);
    } else {
        let m = choose|m: nat| m < k && !used.contains(candidate(m));
        lemma_min_free_below(used, m);
    }
}

/// The first free candidate of a finite set of used names is not in it.
pub proof fn lemma_first_fresh_not_in(used: Set<Seq<char>>)
    requires
        used.finite(),
    ensures
        !used.contains(first_fresh(used)),
{
    lemma_min_free_exists(used);
    let k = choose|k: nat| is_min_free(used, k);
    assert(is_min_free(used, k));
}

/// There is only one first free candidate.
pub proof fn lemma_min_free_unique(used: Set<Seq<char>>, k1: nat, k2: nat)
    requires
        is_min_free(used, k1),
        is_min_free(used, k2),
    ensures
        k1 == k2,
{
}

/// The one-letter string holding the `i`-th lower-case letter.
pub(crate) fn letter_string(i: usize) -> (r: String)
    requires
        i < 26,
    ensures
        r@ == seq![letter(i as nat)],
{
    let letters = "abcdefghijklmnopqrstuvwxyz";
    proof {
        reveal_strlit("abcdefghijklmnopqrstuvwxyz");
        assert(letters@[i as int] == letter(i as nat));
    }
    assert(letters.is_ascii());
    let sub = letters.substring_ascii(i, i + 1);
    assert(sub@ =~= seq![letter(i as nat)]);
    sub.to_owned()
}

/// The decimal representation of a number as a string.
pub(crate) fn dec_string(n: usize) -> (r: String)
    ensures
        r@ == dec_rep(n as nat),
    decreases n,
{
    let digits = "0123456789";
    proof {
        reveal_strlit("0123456789");
    }
    assert(digits.is_ascii());
    if n < 10 {
        let sub = digits.substring_ascii(n, n + 1);
        assert(sub@ =~= seq![digit(n as nat)]);
        sub.to_owned()
    } else {
        let mut s = dec_string(n / 10);
        let d = n % 10;
        let sub = digits.substring_ascii(d, d + 1);
        assert(sub@ =~= seq![digit(d as nat)]);
        s.append(sub);
        proof {
            assert(s@ =~= dec_rep((n / 10) as nat).push(digit((n % 10) as nat)));
        }
        s
    }
}

/// The `k`-th candidate name as a string.
pub(crate) fn make_candidate(k: usize) -> (r: String)
    ensures
        r@ == candidate(k as nat),
{
    if k < 26 {
        letter_string(k)
    } else {
        let j = k - 26;
        let mut s = letter_string(j % 26);
        let num = dec_string(j / 26 + 1);
        s.append(num.as_str());
        proof {
            assert(s@ =~= candidate(k as nat));
        }
        s
    }
}

/// Whether a name occurs in a list of names.
pub(crate) fn name_list_contains(names: &Vec<String>, n: &String) -> (b: bool)
    ensures
        b == name_set(names@).contains(n@),
{
    proof {
        lemma_name_set_finite(names@);
    }
    let mut i: usize = 0;
    while i < names.len()
        invariant
            i <= names.len(),
            forall|j: int| 0 <= j < i ==> names@[j]@ != n@,
        decreases names.len() - i,
    {
        if names[i] == *n {
            proof {
                lemma_name_set_finite(names@);
            }
            return true;
        }
        i = i + 1;
    }
    proof {
        lemma_name_set_finite(names@);
        if name_set(names@).contains(n@) {
            let j = choose|j: int| 0 <= j < names@.len() && names@[j]@ == n@;
            assert(false);
        }
    }
    false
}

/// Append a name to a list unless it already occurs in it.
pub(crate) fn push_unique(names: &mut Vec<String>, n: String)
    requires
        no_dup_names(old(names)@),
    ensures
        no_dup_names(final(names)@),
        name_set(final(names)@) == name_set(old(names)@).insert(n@),
        names_view(final(names)@) == (if name_set(old(names)@).contains(n@) {
            names_view(old(names)@)
        } else {
            names_view(old(names)@).push(n@)
        }),
{
    let present = name_list_contains(names, &n);
    proof {
        lemma_name_set_finite(names@);
    }
    if present {
        proof {
            assert(name_set(names@) =~= name_set(names@).insert(n@));
        }
    } else {
        names.push(n);
        proof {
            let olds = old(names)@;
            let news = names@;
            assert(news =~= olds.push(n));
            lemma_name_set_finite(olds);
            lemma_name_set_finite(news);
            assert forall|m: Seq<char>| name_set(news).contains(m) implies name_set(
                olds,
            ).insert(n@).contains(m) by {
                let i = choose|i: int| 0 <= i < news.len() && news[i]@ == m;
                if i < olds.len() {
                    assert(name_set(olds).contains(olds[i]@));
                }
            }
            assert forall|m: Seq<char>| name_set(olds).insert(n@).contains(m) implies name_set(
                news,
            ).contains(m) by {
                if m == n@ {
                    assert(news[news.len() - 1]@ == m);
                } else {
                    let i = choose|i: int| 0 <= i < olds.len() && olds[i]@ == m;
                    assert(news[i]@ == m);
                }
            }
            assert(name_set(news) =~= name_set(olds).insert(n@));
            assert(names_view(news) =~= names_view(olds).push(n@));
        }
    }
}

/// Append to a list every name of another list that it does not hold yet.
pub(crate) fn merge_into(names: &mut Vec<String>, others: &Vec<String>)
    requires
        no_dup_names(old(names)@),
    ensures
        no_dup_names(final(names)@),
        name_set(final(names)@) == name_set(old(names)@).union(name_set(others@)),
{
    let ghost base = name_set(old(names)@);
    let mut i: usize = 0;
    while i < others.len()
        invariant
            i <= others.len(),
            no_dup_names(names@),
            name_set(names@) == base.union(name_set(others@.subrange(0, i as int))),
        decreases others.len() - i,
    {
        proof {
            lemma_name_set_finite(others@.subrange(0, i as int));
            lemma_name_set_finite(others@.subrange(0, i + 1 as int));
        }
        push_unique(names, others[i].clone());
        proof {
            let pre = others@.subrange(0, i as int);
            let post = others@.subrange(0, i + 1 as int);
            assert(post =~= pre.push(others@[i as int]));
            assert forall|m: Seq<char>| name_set(post).contains(m) implies name_set(
                pre,
            ).insert(others@[i as int]@).contains(m) by {
                let j = choose|j: int| 0 <= j < post.len() && post[j]@ == m;
                if j < pre.len() {
                    assert(name_set(pre).contains(pre[j]@));
                }
            }
            assert forall|m: Seq<char>| name_set(pre).insert(
                others@[i as int]@,
            ).contains(m) implies name_set(post).contains(m) by {
                if m == others@[i as int]@ {
                    assert(post[post.len() - 1]@ == m);
                } else {
                    let j = choose|j: int| 0 <= j < pre.len() && pre[j]@ == m;
                    assert(post[j]@ == m);
                }
            }
            assert(name_set(post) =~= name_set(pre).insert(others@[i as int]@));
            assert(name_set(names@) =~= base.union(name_set(post)));
        }
        i = i + 1;
    }
    proof {
        assert(others@.subrange(0, others@.len() as int) =~= others@);
    }
}

} // verus!
