//! Small recursion exercises: the seat-counting identity and the
//! stair-climbing count, each written several ways (plain recursion,
//! memoised recursion, iteration) and proved against one spec.

use vstd::prelude::*;

verus! {

use std::collections::HashMap;

/// The number of distinct ways to climb `n` stairs taking one or two
/// steps at a time.
pub open spec fn stairs(n: nat) -> nat
    decreases n,
{
    if n <= 2 {
        n
    } else {
        stairs((n - 1) as nat) + stairs((n - 2) as nat)
    }
}

/// Climbing counts never shrink as the stair count grows.
pub proof fn lemma_stairs_mono(a: nat, b: nat)
    requires
        a <= b,
    ensures
        stairs(a) <= stairs(b),
    decreases b,
{
    if a < b {
        if b > 2 {
            lemma_stairs_mono(a, (b - 1) as nat);
        }
    }
}

/// From four stairs on, the climbing count passes the stair count.
pub proof fn lemma_stairs_grows(n: nat)
    requires
        n >= 4,
    ensures
        stairs(n) > n,
    decreases n,
{
    if n == 4 {
        assert(stairs(4) == stairs(3) + stairs(2));
        assert(stairs(3) == stairs(2) + stairs(1));
    } else {
        lemma_stairs_grows((n - 1) as nat);
        lemma_stairs_mono(1, (n - 2) as nat);
        assert(stairs(n) == stairs((n - 1) as nat) + stairs((n - 2) as nat));
        assert(stairs(1) == 1);
    }
}

/// The seat identity: the person after seat `n - 1` sits in seat `n`,
/// and the first one sits in seat one — so the answer is `n` itself.
pub fn f(n: u32) -> (r: u32)
    requires
        n >= 1,
    ensures
        r == n,
    decreases n,
{
    if n == 1 {
        return 1;
    }
    return f(n - 1) + 1;
}

/// The same seat identity computed with a loop.
pub fn find_seat(n: u32) -> (r: u32)
    ensures
        r == n,
{
    let mut m: u32 = 0;
    let mut i: u32 = 0;
    while i < n
        invariant
            m == i,
            i <= n,
        decreases n - i,
    {
        m = m + 1;
        i = i + 1;
    }
    m
}

/// Plain recursion over the two ways to take the first step.
pub fn climbing_stairs_v1(n: u32) -> (r: u32)
    requires
        n >= 1,
        stairs(n as nat) <= u32::MAX,
    ensures
        r == stairs(n as nat),
    decreases n,
{
    if n == 1 {
        return 1;
    }
    if n == 2 {
        return 2;
    }
    proof {
        lemma_stairs_mono((n - 1) as nat, n as nat);
        lemma_stairs_mono((n - 2) as nat, n as nat);
    }
    climbing_stairs_v1(n - 1) + climbing_stairs_v1(n - 2)
}

/// The memo `m` holds only correct stair counts.
pub open spec fn memo_ok(m: Map<u32, u32>) -> bool {
    forall|k: u32| m.contains_key(k) ==> #[trigger] m[k] == stairs(k as nat)
}

/// Recursion with a memo table to avoid recomputing shared
/// subproblems; every entry the table ever holds is a correct count.
pub fn climbing_stairs_v2(n: u32, m: &mut HashMap<u32, u32>) -> (r: u32)
    requires
        n >= 1,
        stairs(n as nat) <= u32::MAX,
        memo_ok(old(m)@),
    ensures
        r == stairs(n as nat),
        memo_ok(final(m)@),
    decreases n,
{
    broadcast use vstd::std_specs::hash::group_hash_axioms;

    if n == 1 {
        return 1;
    }
    if n == 2 {
        return 2;
    }
    if let Some(x) = m.get(&n) {
        return *x;
    }
    proof {
        lemma_stairs_mono((n - 1) as nat, n as nat);
        lemma_stairs_mono((n - 2) as nat, n as nat);
    }
    let ret = climbing_stairs_v2(n - 1, m) + climbing_stairs_v2(n - 2, m);
    m.insert(n, ret);
    ret
}

/// The iterative version, carrying the counts for the last two stair
/// numbers.
pub fn climbing_stairs_v3(n: u32) -> (r: u32)
    requires
        n >= 1,
        stairs(n as nat) <= u32::MAX,
    ensures
        r == stairs(n as nat),
{
    if n == 1 {
        return 1;
    }
    if n == 2 {
        return 2;
    }
    proof {
        if n >= 4 {
            lemma_stairs_grows(n as nat);
        }
    }
    let mut ret: u32 = 0;
    let mut one: u32 = 1;
    let mut two: u32 = 2;
    let mut i: u32 = 3;
    while i <= n
        invariant
            3 <= i <= n + 1,
            n >= 3,
            n < u32::MAX,
            stairs(n as nat) <= u32::MAX,
            one == stairs((i - 2) as nat),
            two == stairs((i - 1) as nat),
            i > 3 ==> ret == stairs((i - 1) as nat),
        decreases n + 1 - i,
    {
        proof {
            lemma_stairs_mono(i as nat, n as nat);
            assert(stairs(i as nat) == stairs((i - 1) as nat) + stairs((i - 2) as nat));
        }
        ret = one + two;
        one = two;
        two = ret;
        i = i + 1;
    }
    ret
}

} // verus!
