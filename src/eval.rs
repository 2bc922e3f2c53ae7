//! The leaf heuristic. A 3x3 grid is scored by playing on from it: a grid won
//! by `X` scores 1, one won by `O` scores -1, a full grid 0, and any other grid
//! the mean of the scores after each free cell is taken by the mover. Local
//! boards and the grid of local outcomes are scored alike. Scores are kept
//! exact: a grid with `e` free cells scores a multiple of 1/e!, so its score
//! times e! is an integer (its "outcome" below), and the outcome of a grid is
//! the sum of the outcomes one move further on.
use vstd::arithmetic::div_mod::lemma_fundamental_div_mod_converse;
use vstd::prelude::*;

use crate::board::{
    line_winner, local_digits, status_digits, winning_digit, Board, BoardModel, IndividualBoard,
    Player,
};

verus! {

/// `b` to the power `n`.
pub open spec fn pow(b: int, n: nat) -> int
    decreases n,
{
    if n == 0 {
        1
    } else {
        b * pow(b, (n - 1) as nat)
    }
}

/// `n` factorial.
pub open spec fn fact(n: nat) -> int
    decreases n,
{
    if n == 0 {
        1
    } else {
        n * fact((n - 1) as nat)
    }
}

/// 9! / e!: the product of `e + 1` up to 9.
pub open spec fn rising(e: nat) -> int
    decreases 9 - e,
{
    if e >= 9 {
        1
    } else {
        (e + 1) * rising(e + 1)
    }
}

/// The number of free (zero) cells among the first `n` of a grid.
pub open spec fn free_below(s: Seq<u8>, n: nat) -> nat
    decreases n,
{
    if n == 0 {
        0
    } else {
        free_below(s, (n - 1) as nat) + if s[n - 1] == 0 {
            1nat
        } else {
            0nat
        }
    }
}

/// The number of free (zero) cells of a grid.
pub open spec fn zeros(s: Seq<u8>) -> nat {
    free_below(s, s.len())
}

/// The digit of the mover after `m`.
pub open spec fn next_mover(m: u8) -> u8 {
    if m == 1 {
        2
    } else {
        1
    }
}

/// The score of grid `s` with mover digit `m`, times e!, where `e` is the
/// number of free cells of `s`.
pub open spec fn outcome(s: Seq<u8>, m: u8, e: nat) -> int
    decreases e, 1nat, 0nat,
{
    let w = line_winner(s);
    if w == 1 {
        fact(e)
    } else if w == 2 {
        -fact(e)
    } else if e == 0 {
        0
    } else {
        branch_sum(s, m, e, s.len())
    }
}

/// The outcomes after the mover takes each free cell below `n`.
pub open spec fn branch_sum(s: Seq<u8>, m: u8, e: nat, n: nat) -> int
    decreases e, 0nat, n,
{
    if n == 0 || e == 0 {
        0
    } else {
        branch_sum(s, m, e, (n - 1) as nat) + if s[n - 1] == 0 {
            outcome(s.update(n - 1, m), next_mover(m), (e - 1) as nat)
        } else {
            0
        }
    }
}

/// The score of grid `s` for mover digit `m`, times 9!.
pub open spec fn worth(s: Seq<u8>, m: u8) -> int {
    outcome(s, m, zeros(s)) * rising(zeros(s))
}

/// The number whose digits in base `b` are `s`, least significant first.
pub open spec fn code(s: Seq<u8>, b: int) -> int
    decreases s.len(),
{
    if s.len() == 0 {
        0
    } else {
        s[0] + b * code(s.drop_first(), b)
    }
}

/// The `n` lowest digits of `c` in base `b`, least significant first.
pub open spec fn decode(c: int, b: int, n: nat) -> Seq<u8>
    decreases n,
{
    if n == 0 {
        Seq::empty()
    } else {
        seq![(c % b) as u8].add(decode(c / b, b, (n - 1) as nat))
    }
}

pub open spec fn digits_below(s: Seq<u8>, b: int) -> bool {
    forall|i: int| 0 <= i < s.len() ==> (#[trigger] s[i]) < b
}

pub proof fn lemma_pow_positive(b: int, n: nat)
    requires
        b > 0,
    ensures
        pow(b, n) > 0,
    decreases n,
{
    if n > 0 {
        lemma_pow_positive(b, (n - 1) as nat);
        assert(b * pow(b, (n - 1) as nat) > 0) by (nonlinear_arith)
            requires
                b > 0,
                pow(b, (n - 1) as nat) > 0,
        ;
    }
}

pub proof fn lemma_code_bound(s: Seq<u8>, b: int)
    requires
        b > 0,
        digits_below(s, b),
    ensures
        0 <= code(s, b) < pow(b, s.len()),
    decreases s.len(),
{
    if s.len() > 0 {
        let t = s.drop_first();
        lemma_code_bound(t, b);
        let c = code(t, b);
        let p = pow(b, t.len());
        let d = s[0] as int;
        assert(0 <= d + b * c < b * p) by (nonlinear_arith)
            requires
                0 <= d < b,
                0 <= c < p,
        ;
    }
}

pub proof fn lemma_decode_code(s: Seq<u8>, b: int)
    requires
        0 < b <= 256,
        digits_below(s, b),
    ensures
        decode(code(s, b), b, s.len()) == s,
    decreases s.len(),
{
    if s.len() > 0 {
        let t = s.drop_first();
        lemma_code_bound(t, b);
        lemma_decode_code(t, b);
        let c = code(s, b);
        assert(s[0] < b);
        assert(c == code(t, b) * b + s[0]) by (nonlinear_arith)
            requires
                c == s[0] + b * code(t, b),
        ;
        lemma_fundamental_div_mod_converse(c, b, code(t, b), s[0] as int);
        assert(decode(c, b, s.len()) =~= s);
    }
}

pub proof fn lemma_code_decode(c: int, b: int, n: nat)
    requires
        0 < b <= 256,
        0 <= c < pow(b, n),
    ensures
        code(decode(c, b, n), b) == c,
        decode(c, b, n).len() == n,
        digits_below(decode(c, b, n), b),
    decreases n,
{
    if n > 0 {
        let q = c / b;
        let r = c % b;
        let p = pow(b, (n - 1) as nat);
        assert(c == b * q + r && 0 <= r < b) by (nonlinear_arith)
            requires
                b > 0,
                q == c / b,
                r == c % b,
        ;
        assert(0 <= q < p) by (nonlinear_arith)
            requires
                c == b * q + r,
                0 <= r < b,
                0 <= c < b * p,
                b > 0,
        ;
        lemma_code_decode(q, b, (n - 1) as nat);
        let d = decode(c, b, n);
        assert(d.drop_first() =~= decode(q, b, (n - 1) as nat));
    }
}

pub proof fn lemma_code_update(s: Seq<u8>, b: int, i: int, v: u8)
    requires
        0 <= i < s.len(),
    ensures
        code(s.update(i, v), b) == code(s, b) + (v - s[i]) * pow(b, i as nat),
    decreases s.len(),
{
    let u = s.update(i, v);
    if i == 0 {
        assert(u.drop_first() =~= s.drop_first());
    } else {
        let t = s.drop_first();
        assert(u.drop_first() =~= t.update(i - 1, v));
        lemma_code_update(t, b, i - 1, v);
        let x = (v - s[i]) as int;
        let p = pow(b, (i - 1) as nat);
        assert(b * (code(t, b) + x * p) == b * code(t, b) + x * (b * p)) by (nonlinear_arith);
    }
}

proof fn lemma_free_below_update(s: Seq<u8>, i: int, v: u8, n: nat)
    requires
        0 <= i < s.len(),
        n <= s.len(),
        s[i] == 0,
        v != 0,
    ensures
        free_below(s.update(i, v), n) + (if i < n {
            1nat
        } else {
            0nat
        }) == free_below(s, n),
    decreases n,
{
    if n > 0 {
        lemma_free_below_update(s, i, v, (n - 1) as nat);
    }
}

pub proof fn lemma_zeros_update(s: Seq<u8>, i: int, v: u8)
    requires
        0 <= i < s.len(),
        s[i] == 0,
        v != 0,
    ensures
        zeros(s.update(i, v)) + 1 == zeros(s),
{
    lemma_free_below_update(s, i, v, s.len());
}

proof fn lemma_free_below_grows(s: Seq<u8>, n1: nat, n2: nat)
    requires
        n1 <= n2,
    ensures
        free_below(s, n1) <= free_below(s, n2) <= free_below(s, n1) + (n2 - n1),
    decreases n2,
{
    if n1 < n2 {
        lemma_free_below_grows(s, n1, (n2 - 1) as nat);
    }
}

/// 0! up to 9! lie between 1 and 9!, and grow.
pub proof fn lemma_fact_bound(n: nat)
    requires
        n <= 9,
    ensures
        1 <= fact(n) <= 362880,
        n > 0 ==> fact((n - 1) as nat) <= fact(n),
    decreases 9 - n,
{
    reveal_with_fuel(fact, 10);
    if n < 9 {
        lemma_fact_bound(n + 1);
        assert(fact(n + 1) == (n + 1) * fact(n));
        if n > 0 {
            assert(fact(n) == n * fact((n - 1) as nat));
            assert(fact((n - 1) as nat) >= 1) by {
                lemma_fact_positive((n - 1) as nat);
            }
            assert(fact((n - 1) as nat) <= fact(n)) by (nonlinear_arith)
                requires
                    fact(n) == n * fact((n - 1) as nat),
                    n >= 1,
                    fact((n - 1) as nat) >= 1,
            ;
        }
        lemma_fact_positive(n);
        assert(fact(n) <= fact(n + 1)) by (nonlinear_arith)
            requires
                fact(n + 1) == (n + 1) * fact(n),
                fact(n) >= 1,
        ;
    } else {
        assert(fact(8) == 40320);
    }
}

proof fn lemma_fact_positive(n: nat)
    ensures
        fact(n) >= 1,
    decreases n,
{
    if n > 0 {
        lemma_fact_positive((n - 1) as nat);
        assert(n * fact((n - 1) as nat) >= 1) by (nonlinear_arith)
            requires
                n >= 1,
                fact((n - 1) as nat) >= 1,
        ;
    }
}

/// e! * (9! / e!) == 9!.
pub proof fn lemma_fact_rising(e: nat)
    requires
        e <= 9,
    ensures
        fact(e) * rising(e) == 362880,
        1 <= rising(e) <= 362880,
    decreases 9 - e,
{
    reveal_with_fuel(fact, 10);
    lemma_fact_positive(e);
    if e < 9 {
        lemma_fact_rising(e + 1);
        assert(fact(e + 1) == (e + 1) * fact(e));
        assert(rising(e) == (e + 1) * rising(e + 1));
        assert(fact(e) * rising(e) == fact(e + 1) * rising(e + 1)) by (nonlinear_arith)
            requires
                fact(e + 1) == (e + 1) * fact(e),
                rising(e) == (e + 1) * rising(e + 1),
        ;
        assert(1 <= rising(e) <= 362880) by (nonlinear_arith)
            requires
                fact(e) * rising(e) == 362880,
                fact(e) >= 1,
                rising(e) == (e + 1) * rising(e + 1),
                rising(e + 1) >= 1,
        ;
    }
}

/// An outcome never exceeds e! in size.
pub proof fn lemma_outcome_bound(s: Seq<u8>, m: u8, e: nat)
    requires
        s.len() == 9,
        e == zeros(s),
        m == 1 || m == 2,
    ensures
        -fact(e) <= outcome(s, m, e) <= fact(e),
    decreases e, 1nat, 0nat,
{
    lemma_fact_positive(e);
    if line_winner(s) != 1 && line_winner(s) != 2 && e > 0 {
        lemma_branch_bound(s, m, e, 9);
    }
}

/// The partial sums of the outcomes one move further on stay within e!.
pub proof fn lemma_branch_bound(s: Seq<u8>, m: u8, e: nat, n: nat)
    requires
        s.len() == 9,
        e == zeros(s),
        e > 0,
        n <= 9,
        m == 1 || m == 2,
    ensures
        -(free_below(s, n) * fact((e - 1) as nat)) <= branch_sum(s, m, e, n) <= free_below(s, n)
            * fact((e - 1) as nat),
        -fact(e) <= branch_sum(s, m, e, n) <= fact(e),
    decreases e, 0nat, n,
{
    lemma_fact_positive((e - 1) as nat);
    let p = fact((e - 1) as nat);
    if n > 0 {
        let k = (n - 1) as nat;
        lemma_branch_bound(s, m, e, k);
        let term = if s[n - 1] == 0 {
            outcome(s.update(n - 1, m), next_mover(m), (e - 1) as nat)
        } else {
            0
        };
        if s[n - 1] == 0 {
            lemma_zeros_update(s, n - 1, m);
            lemma_outcome_bound(s.update(n - 1, m), next_mover(m), (e - 1) as nat);
        }
        assert(branch_sum(s, m, e, n) == branch_sum(s, m, e, k) + term);
        let bs = branch_sum(s, m, e, k);
        let fk = free_below(s, k);
        let fnn = free_below(s, n);
        assert(-(fnn * p) <= bs + term <= fnn * p) by (nonlinear_arith)
            requires
                -(fk * p) <= bs <= fk * p,
                s[n - 1] == 0 ==> -p <= term <= p && fnn == fk + 1,
                s[n - 1] != 0 ==> term == 0 && fnn == fk,
                p >= 1,
        ;
    }
    lemma_free_below_grows(s, n, 9);
    let f = free_below(s, n);
    assert(fact(e) == e * p);
    assert(-(f * p) >= -fact(e) && f * p <= fact(e)) by (nonlinear_arith)
        requires
            f <= e,
            p >= 1,
            fact(e) == e * p,
    ;
}

pub proof fn lemma_pow_small(b: int, n: nat)
    requires
        b == 3 || b == 4,
        n <= 9,
    ensures
        0 < pow(b, n) <= pow(b, 9),
        pow(3, 9) == 19683,
        pow(4, 9) == 262144,
    decreases 9 - n,
{
    reveal_with_fuel(pow, 10);
    lemma_pow_positive(b, n);
    if n < 9 {
        lemma_pow_small(b, n + 1);
        assert(pow(b, n + 1) == b * pow(b, n));
    }
}

/// The digits of a grid, least significant first, as one number in base `b`.
pub fn grid_code(d: &[u8; 9], b: usize) -> (r: usize)
    requires
        b == 3 || b == 4,
        digits_below(d@, b as int),
    ensures
        r == code(d@, b as int),
        r < pow(b as int, 9),
{
    let mut r: usize = 0;
    let mut i: usize = 9;
    proof {
        lemma_pow_small(b as int, 0);
        assert(d@.subrange(9, 9) =~= Seq::<u8>::empty());
    }
    while i > 0
        invariant
            i <= 9,
            b == 3 || b == 4,
            digits_below(d@, b as int),
            r == code(d@.subrange(i as int, 9), b as int),
            r < pow(b as int, (9 - i) as nat),
        decreases i,
    {
        let ghost old_r = r;
        proof {
            lemma_pow_small(b as int, (9 - i + 1) as nat);
            let p = pow(b as int, (9 - i) as nat);
            assert(pow(b as int, (9 - i + 1) as nat) == b * p);
            let dig = d@[i - 1] as int;
            assert(dig < b);
            assert(dig + b * old_r < b * p) by (nonlinear_arith)
                requires
                    0 <= dig < b,
                    0 <= old_r < p,
            ;
            assert(d@.subrange(i - 1, 9).drop_first() =~= d@.subrange(i as int, 9));
        }
        r = d[i - 1] as usize + b * r;
        i -= 1;
    }
    assert(d@.subrange(0, 9) =~= d@);
    r
}

/// The number of free cells of a grid.
pub fn count_free(d: &[u8; 9]) -> (r: usize)
    ensures
        r == zeros(d@),
        r <= 9,
{
    let mut r: usize = 0;
    let mut i: usize = 0;
    while i < 9
        invariant
            i <= 9,
            r == free_below(d@, i as nat),
            r <= i,
        decreases 9 - i,
    {
        if d[i] == 0 {
            r += 1;
        }
        i += 1;
    }
    r
}

/// `e` factorial.
fn factorial(e: usize) -> (r: i64)
    requires
        e <= 9,
    ensures
        r == fact(e as nat),
        1 <= r <= 362880,
{
    let mut r: i64 = 1;
    let mut i: usize = 0;
    while i < e
        invariant
            i <= e <= 9,
            r == fact(i as nat),
        decreases e - i,
    {
        proof {
            lemma_fact_bound((i + 1) as nat);
            assert(fact((i + 1) as nat) == (i + 1) * fact(i as nat));
            assert(r * (i + 1) == fact((i + 1) as nat)) by (nonlinear_arith)
                requires
                    r == fact(i as nat),
                    fact((i + 1) as nat) == (i + 1) * fact(i as nat),
            ;
        }
        r = r * (i + 1) as i64;
        i += 1;
    }
    proof {
        lemma_fact_bound(e as nat);
    }
    r
}

/// 9! / e!.
fn rising_from(e: usize) -> (r: i64)
    requires
        e <= 9,
    ensures
        r == rising(e as nat),
{
    let mut r: i64 = 1;
    let mut i: usize = 9;
    while i > e
        invariant
            e <= i <= 9,
            r == rising(i as nat),
        decreases i,
    {
        proof {
            lemma_fact_rising((i - 1) as nat);
            assert(rising((i - 1) as nat) == i * rising(i as nat));
            assert(r * i == rising((i - 1) as nat)) by (nonlinear_arith)
                requires
                    r == rising(i as nat),
                    rising((i - 1) as nat) == i * rising(i as nat),
            ;
        }
        r = r * i as i64;
        i -= 1;
    }
    r
}

/// The nine lowest digits of `c` in base `b`.
pub(crate) fn digits_of(c: usize, b: usize) -> (d: [u8; 9])
    requires
        b == 3 || b == 4,
        c < pow(b as int, 9),
    ensures
        d@ == decode(c as int, b as int, 9),
        digits_below(d@, b as int),
{
    let mut d: [u8; 9] = [0u8; 9];
    let mut r: usize = c;
    let mut i: usize = 0;
    proof {
        lemma_code_decode(c as int, b as int, 9);
    }
    while i < 9
        invariant
            i <= 9,
            b == 3 || b == 4,
            decode(c as int, b as int, 9).len() == 9,
            decode(r as int, b as int, (9 - i) as nat) =~= decode(c as int, b as int, 9).subrange(
                i as int,
                9,
            ),
            forall|j: int| 0 <= j < i ==> d@[j] == decode(c as int, b as int, 9)[j],
        decreases 9 - i,
    {
        let ghost whole = decode(c as int, b as int, 9);
        let ghost rest = decode(r as int, b as int, (9 - i) as nat);
        assert(rest[0] == whole[i as int]);
        assert(rest.drop_first() =~= decode(r as int / b as int, b as int, (9 - i - 1) as nat));
        assert(whole.subrange(i + 1, 9) =~= rest.drop_first());
        d[i] = (r % b) as u8;
        r = r / b;
        i += 1;
    }
    assert(d@ =~= decode(c as int, b as int, 9));
    proof {
        lemma_code_decode(c as int, b as int, 9);
    }
    d
}

/// The grid one move further on: free cell `i` of grid `s` (number `c`)
/// taken with digit `v` has number `c + v * b^i` and one free cell less.
proof fn lemma_child_code(s: Seq<u8>, b: int, c: int, i: int, p: int, v: u8)
    requires
        b == 3 || b == 4,
        s.len() == 9,
        digits_below(s, b),
        code(s, b) == c,
        0 <= i < 9,
        s[i] == 0,
        p == pow(b, i as nat),
        0 < v < b,
    ensures
        decode(c + v * p, b, 9) == s.update(i, v),
        0 <= c + v * p < pow(b, 9),
        zeros(s.update(i, v)) + 1 == zeros(s),
{
    let u = s.update(i, v);
    lemma_code_update(s, b, i, v);
    assert((v - s[i]) * p == v * p);
    assert(digits_below(u, b));
    lemma_code_bound(u, b);
    lemma_decode_code(u, b);
    lemma_zeros_update(s, i, v);
}

/// Table `t` holds, for each number below b^9, the outcome of the grid with
/// those digits for mover digit `m`.
pub open spec fn table_holds(t: Seq<i64>, b: int, m: u8) -> bool {
    &&& t.len() == pow(b, 9)
    &&& forall|c: int|
        0 <= c < t.len() ==> #[trigger] t[c] == outcome(
            decode(c, b, 9),
            m,
            zeros(decode(c, b, 9)),
        )
}

/// The outcome of every grid in base `b`, for mover `X` and for mover `O`.
/// Grids are visited from the highest number down, so that the grids one
/// move further on, whose numbers are higher, are already scored.
pub fn fill_outcomes(b: usize) -> (r: (Vec<i64>, Vec<i64>))
    requires
        b == 3 || b == 4,
    ensures
        table_holds(r.0@, b as int, 1),
        table_holds(r.1@, b as int, 2),
{
    proof {
        lemma_pow_small(b as int, 9);
    }
    let n: usize = if b == 3 {
        19683
    } else {
        262144
    };
    let mut x: Vec<i64> = Vec::new();
    let mut o: Vec<i64> = Vec::new();
    while x.len() < n
        invariant
            x.len() == o.len(),
            x.len() <= n,
        decreases n - x.len(),
    {
        x.push(0);
        o.push(0);
    }
    let mut c: usize = n;
    while c > 0
        invariant
            b == 3 || b == 4,
            n == pow(b as int, 9),
            n <= 262144,
            c <= n,
            x.len() == n,
            o.len() == n,
            forall|k: int|
                c <= k < n ==> #[trigger] x@[k] == outcome(
                    decode(k, b as int, 9),
                    1,
                    zeros(decode(k, b as int, 9)),
                ),
            forall|k: int|
                c <= k < n ==> #[trigger] o@[k] == outcome(
                    decode(k, b as int, 9),
                    2,
                    zeros(decode(k, b as int, 9)),
                ),
        decreases c,
    {
        c -= 1;
        let d = digits_of(c, b);
        let ghost s = d@;
        proof {
            lemma_code_decode(c as int, b as int, 9);
        }
        let e = count_free(&d);
        let w = winning_digit(&d);
        let vx: i64;
        let vo: i64;
        if w == 1 {
            vx = factorial(e);
            vo = vx;
        } else if w == 2 {
            vx = -factorial(e);
            vo = vx;
        } else if e == 0 {
            vx = 0;
            vo = 0;
        } else {
            let mut sx: i64 = 0;
            let mut so: i64 = 0;
            let mut p: usize = 1;
            let mut i: usize = 0;
            proof {
                lemma_fact_bound(e as nat);
            }
            while i < 9
                invariant
                    b == 3 || b == 4,
                    n == pow(b as int, 9),
                    n <= 262144,
                    c < n,
                    s == d@,
                    s == decode(c as int, b as int, 9),
                    code(s, b as int) == c,
                    digits_below(s, b as int),
                    s.len() == 9,
                    e == zeros(s),
                    0 < e <= 9,
                    i <= 9,
                    p == pow(b as int, i as nat),
                    x.len() == n,
                    o.len() == n,
                    forall|k: int|
                        c < k < n ==> #[trigger] x@[k] == outcome(
                            decode(k, b as int, 9),
                            1,
                            zeros(decode(k, b as int, 9)),
                        ),
                    forall|k: int|
                        c < k < n ==> #[trigger] o@[k] == outcome(
                            decode(k, b as int, 9),
                            2,
                            zeros(decode(k, b as int, 9)),
                        ),
                    sx == branch_sum(s, 1, e as nat, i as nat),
                    so == branch_sum(s, 2, e as nat, i as nat),
                    fact(e as nat) <= 362880,
                decreases 9 - i,
            {
                proof {
                    lemma_pow_small(b as int, i as nat);
                    lemma_pow_small(b as int, (i + 1) as nat);
                    lemma_branch_bound(s, 1, e as nat, (i + 1) as nat);
                    lemma_branch_bound(s, 2, e as nat, (i + 1) as nat);
                }
                if d[i] == 0 {
                    proof {
                        let ii = i as int;
                        lemma_child_code(s, b as int, c as int, ii, p as int, 1);
                        lemma_child_code(s, b as int, c as int, ii, p as int, 2);
                        let sx1 = s.update(ii, 1);
                        let so1 = s.update(ii, 2);
                        assert(o@[c + p] == outcome(sx1, 2, (e - 1) as nat));
                        assert(x@[c + 2 * p] == outcome(so1, 1, (e - 1) as nat));
                        assert(branch_sum(s, 1, e as nat, (i + 1) as nat) == sx + o@[c + p]);
                        assert(branch_sum(s, 2, e as nat, (i + 1) as nat) == so + x@[c + 2 * p]);
                    }
                    sx = sx + o[c + p];
                    so = so + x[c + 2 * p];
                }
                proof {
                    assert(pow(b as int, (i + 1) as nat) == b * pow(b as int, i as nat));
                }
                p = p * b;
                i += 1;
            }
            vx = sx;
            vo = so;
        }
        proof {
            lemma_outcome_bound(s, 1, e as nat);
            lemma_outcome_bound(s, 2, e as nat);
        }
        x.set(c, vx);
        o.set(c, vo);
    }
    (x, o)
}


/// The largest size of a grid's score times 9!.
pub const WORTH_MAX: i64 = 362880;

/// Lookup tables of the leaf heuristic: the outcome of every local grid
/// (numbered in base 3) and of every grid of local outcomes (numbered in base
/// 4: open, won by `X`, won by `O`, tied), for each mover.
pub struct EvalTables {
    local_x: Vec<i64>,
    local_o: Vec<i64>,
    global_x: Vec<i64>,
    global_o: Vec<i64>,
}

/// A grid scored by table `t`: its outcome scaled to 9!.
fn scaled(t: &Vec<i64>, d: &[u8; 9], b: usize, m: u8) -> (r: i64)
    requires
        b == 3 || b == 4,
        m == 1 || m == 2,
        table_holds(t@, b as int, m),
        digits_below(d@, b as int),
    ensures
        r == worth(d@, m),
        -WORTH_MAX <= r <= WORTH_MAX,
{
    let c = grid_code(d, b);
    let e = count_free(d);
    proof {
        lemma_decode_code(d@, b as int);
        lemma_outcome_bound(d@, m, e as nat);
        lemma_fact_rising(e as nat);
        let o = t@[c as int];
        let p = rising(e as nat);
        let q = fact(e as nat);
        assert(-WORTH_MAX <= o * p <= WORTH_MAX) by (nonlinear_arith)
            requires
                -q <= o <= q,
                q * p == 362880,
                p > 0,
        ;
    }
    t[c] * rising_from(e)
}

impl EvalTables {
    /// Each table holds the outcome of every grid of its kind.
    pub closed spec fn wf(&self) -> bool {
        &&& table_holds(self.local_x@, 3, 1)
        &&& table_holds(self.local_o@, 3, 2)
        &&& table_holds(self.global_x@, 4, 1)
        &&& table_holds(self.global_o@, 4, 2)
    }

    /// Scores every local grid and every grid of local outcomes.
    pub fn new() -> (r: Self)
        ensures
            r.wf(),
    {
        let (local_x, local_o) = fill_outcomes(3);
        let (global_x, global_o) = fill_outcomes(4);
        EvalTables { local_x, local_o, global_x, global_o }
    }
}

/// The score of a local board with `player` to move, times 9!.
pub fn evalute(board: &IndividualBoard, player: Player, tables: &EvalTables) -> (r: i64)
    requires
        tables.wf(),
    ensures
        r == worth(board.digits(), player.digit()),
        -WORTH_MAX <= r <= WORTH_MAX,
{
    let d = board.digit_grid();
    reveal(EvalTables::wf);
    match player {
        Player::X => scaled(&tables.local_x, &d, 3, 1),
        Player::O => scaled(&tables.local_o, &d, 3, 2),
    }
}

/// The score of the grid of local outcomes with `player` to move, times 9!.
pub fn evaluate_whole(board: &Board, player: Player, tables: &EvalTables) -> (r: i64)
    requires
        tables.wf(),
    ensures
        r == worth(status_digits(board@.status), player.digit()),
        -WORTH_MAX <= r <= WORTH_MAX,
{
    let d = board.status_grid();
    reveal(EvalTables::wf);
    match player {
        Player::X => scaled(&tables.global_x, &d, 4, 1),
        Player::O => scaled(&tables.global_o, &d, 4, 2),
    }
}

/// The local boards below `n`, each scored for both movers.
pub open spec fn local_total(b: BoardModel, n: nat) -> int
    decreases n,
{
    if n == 0 {
        0
    } else {
        local_total(b, (n - 1) as nat) + worth(local_digits(b.cells[n - 1]), 1) + worth(
            local_digits(b.cells[n - 1]),
            2,
        )
    }
}

/// The leaf heuristic in units of 1/(18 * 9!): the mean score of the local
/// boards over both movers, plus the mean score of the grid of local outcomes
/// over both movers.
pub open spec fn leaf_value(b: BoardModel) -> int {
    local_total(b, 9) + 9 * (worth(status_digits(b.status), 1) + worth(status_digits(b.status), 2))
}

/// The largest size of the leaf heuristic.
pub const LEAF_MAX: i64 = 36 * WORTH_MAX;

impl Board {
    /// The leaf heuristic of this board.
    pub fn evalutate(&self, tables: &EvalTables) -> (r: i64)
        requires
            tables.wf(),
        ensures
            r == leaf_value(self@),
            -LEAF_MAX <= r <= LEAF_MAX,
    {
        let mut sum: i64 = 0;
        let mut g: usize = 0;
        while g < 9
            invariant
                g <= 9,
                tables.wf(),
                sum == local_total(self@, g as nat),
                -(2 * g * WORTH_MAX) <= sum <= 2 * g * WORTH_MAX,
            decreases 9 - g,
        {
            let a = evalute(&self.locals[g], Player::X, tables);
            let b = evalute(&self.locals[g], Player::O, tables);
            assert(self.locals[g as int].digits() == local_digits(self@.cells[g as int]));
            sum = sum + a + b;
            g += 1;
        }
        let wx = evaluate_whole(self, Player::X, tables);
        let wo = evaluate_whole(self, Player::O, tables);
        sum + 9 * (wx + wo)
    }
}


/// The leaf heuristic of a board, in units of 1/(18 * 9!).
pub fn evaluate(whole_board: &Board, tables: &EvalTables) -> (r: i64)
    requires
        tables.wf(),
    ensures
        r == leaf_value(whole_board@),
        -LEAF_MAX <= r <= LEAF_MAX,
{
    whole_board.evalutate(tables)
}

} // verus!
