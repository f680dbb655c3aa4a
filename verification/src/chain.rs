//! Chains of names, each name leading to the next: a chain longer than the
//! number of names it may pass through comes back to a name it visited,
//! and then goes on for ever.

use vstd::prelude::*;

verus! {

/// Following `next` from `x` makes at least `f` steps.
pub open spec fn steps(next: spec_fn(Seq<char>) -> Option<Seq<char>>, x: Seq<char>, f: nat) -> bool
    decreases f,
{
    if f == 0 {
        true
    } else {
        match next(x) {
            Some(y) => steps(next, y, (f - 1) as nat),
            None => false,
        }
    }
}

/// The name reached from `x` after `k` steps (where the chain ends, its
/// last name).
pub open spec fn nth(next: spec_fn(Seq<char>) -> Option<Seq<char>>, x: Seq<char>, k: nat) -> Seq<char>
    decreases k,
{
    if k == 0 {
        x
    } else {
        match next(x) {
            Some(y) => nth(next, y, (k - 1) as nat),
            None => x,
        }
    }
}

/// Making `a + b` steps from `x` is making `a` steps, then `b` more.
pub proof fn lemma_steps_split(next: spec_fn(Seq<char>) -> Option<Seq<char>>, x: Seq<char>, a: nat, b: nat)
    requires
        steps(next, x, a),
    ensures
        steps(next, x, a + b) == steps(next, nth(next, x, a), b),
        nth(next, x, a + b) == nth(next, nth(next, x, a), b),
    decreases a,
{
    if a > 0 {
        let y = next(x)->Some_0;
        lemma_steps_split(next, y, (a - 1) as nat, b);
        assert((a + b - 1) as nat == (a - 1) as nat + b);
    }
}

/// A chain that makes `f` steps makes every smaller number of steps.
pub proof fn lemma_steps_prefix(next: spec_fn(Seq<char>) -> Option<Seq<char>>, x: Seq<char>, f: nat, g: nat)
    requires
        steps(next, x, f),
        g <= f,
    ensures
        steps(next, x, g),
    decreases g,
{
    if g > 0 {
        let y = next(x)->Some_0;
        lemma_steps_prefix(next, y, (f - 1) as nat, (g - 1) as nat);
    }
}

/// Each of the first `f` names of a chain that makes `f` steps leads on.
pub proof fn lemma_steps_visit(next: spec_fn(Seq<char>) -> Option<Seq<char>>, x: Seq<char>, f: nat, k: nat)
    requires
        steps(next, x, f),
        k < f,
    ensures
        next(nth(next, x, k)) is Some,
    decreases k,
{
    let y = next(x)->Some_0;
    if k > 0 {
        lemma_steps_visit(next, y, (f - 1) as nat, (k - 1) as nat);
    }
}

/// A chain that comes back to `y` after `p` steps goes on for ever.
proof fn lemma_loop_endless(next: spec_fn(Seq<char>) -> Option<Seq<char>>, y: Seq<char>, p: nat, g: nat)
    requires
        p > 0,
        steps(next, y, p),
        nth(next, y, p) == y,
    ensures
        steps(next, y, g),
    decreases g,
{
    if g <= p {
        lemma_steps_prefix(next, y, p, g);
    } else {
        lemma_loop_endless(next, y, p, (g - p) as nat);
        lemma_steps_split(next, y, p, (g - p) as nat);
    }
}

/// A chain that visits a name twice goes on for ever.
pub proof fn lemma_cycle_endless(
    next: spec_fn(Seq<char>) -> Option<Seq<char>>,
    x: Seq<char>,
    i: nat,
    j: nat,
    f: nat,
)
    requires
        steps(next, x, j),
        i < j,
        nth(next, x, i) == nth(next, x, j),
    ensures
        steps(next, x, f),
{
    let y = nth(next, x, i);
    let p = (j - i) as nat;
    lemma_steps_prefix(next, x, j, i);
    lemma_steps_split(next, x, i, p);
    assert(i + p == j);
    if f <= i {
        lemma_steps_prefix(next, x, j, f);
    } else {
        lemma_loop_endless(next, y, p, (f - i) as nat);
        lemma_steps_split(next, x, i, (f - i) as nat);
        assert(i + (f - i) as nat == f);
    }
}

/// A chain that leads on only from names of `dom`, a finite set of at most
/// `n` names, and makes `n + 1` steps goes on for ever: two of the names it
/// visits are the same.
pub proof fn lemma_long_chain_endless(
    next: spec_fn(Seq<char>) -> Option<Seq<char>>,
    x: Seq<char>,
    dom: Set<Seq<char>>,
    n: nat,
    f: nat,
)
    requires
        dom.finite(),
        dom.len() <= n,
        forall|z: Seq<char>| (#[trigger] next(z)) is Some ==> dom.contains(z),
        steps(next, x, n + 1),
    ensures
        steps(next, x, f),
{
    let s = Seq::new(n + 1, |k: int| nth(next, x, k as nat));
    if s.no_duplicates() {
        s.unique_seq_to_set();
        assert forall|z: Seq<char>| s.to_set().contains(z) implies dom.contains(z) by {
            let k = choose|k: int| 0 <= k < s.len() && s[k] == z;
            lemma_steps_visit(next, x, n + 1, k as nat);
        }
        vstd::set_lib::lemma_len_subset(s.to_set(), dom);
        assert(false);
    } else {
        let (i, j) = choose|i: int, j: int|
            0 <= i < s.len() && 0 <= j < s.len() && i != j && s[i] == s[j];
        if i < j {
            lemma_steps_prefix(next, x, n + 1, j as nat);
            lemma_cycle_endless(next, x, i as nat, j as nat, f);
        } else {
            lemma_steps_prefix(next, x, n + 1, i as nat);
            lemma_cycle_endless(next, x, j as nat, i as nat, f);
        }
    }
}

} // verus!
