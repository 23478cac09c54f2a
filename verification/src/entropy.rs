//! The entropy scorer: a candidate guess is scored by how evenly the
//! feedback it would produce partitions the remaining possible answers.
//!
//! Against each possible answer, a guess yields one of `3^len` feedback
//! classes (absent / present / correct per position). With class sizes
//! `n_1..n_k`, the guess's score is `sum n_i * log2fp(n_i)`, where
//! `log2fp(n)` is the binary logarithm of `n` in fixed point with sixteen
//! fractional bits. Minimizing this sum maximizes the Shannon entropy of
//! the feedback distribution, since the candidate-set size is fixed while
//! a guess is chosen. The logarithm is computed in integer arithmetic by
//! the classic normalize-and-square method; its rounding is part of the
//! scorer's definition.
use vstd::prelude::*;

use vstd::arithmetic::div_mod::lemma_fundamental_div_mod;
use vstd::arithmetic::power2::{lemma2_to64, lemma2_to64_rest, lemma_pow2_adds,
    lemma_pow2_pos, lemma_pow2_strictly_increases, pow2};

use crate::model::{all_len, views};
use crate::Word;

verus! {

/// Powers of three: the number of feedback classes over `k` positions.
pub open spec fn pow3(k: nat) -> nat
    decreases k,
{
    if k == 0 {
        1
    } else {
        3 * pow3((k - 1) as nat)
    }
}

pub proof fn lemma_pow3_monotone(a: nat, b: nat)
    requires
        a <= b,
    ensures
        pow3(a) <= pow3(b),
    decreases b,
{
    if a < b {
        lemma_pow3_monotone(a, (b - 1) as nat);
        assert(pow3(b) == 3 * pow3((b - 1) as nat));
    }
}

/// The number of feedback classes over `k` positions.
fn pow3_exec(k: usize) -> (r: usize)
    requires
        k <= crate::MAX_WORD_LEN,
    ensures
        r as nat == pow3(k as nat),
{
    proof {
        reveal_with_fuel(pow3, 14);
        assert(pow3(13) == 1594323);
    }
    let mut r: usize = 1;
    let mut i: usize = 0;
    while i < k
        invariant
            i <= k <= 13,
            r as nat == pow3(i as nat),
        decreases k - i,
    {
        proof {
            lemma_pow3_monotone((i + 1) as nat, 13);
            reveal_with_fuel(pow3, 14);
            assert(pow3(13) == 1594323);
            assert(pow3((i + 1) as nat) == 3 * pow3(i as nat));
        }
        r = r * 3;
        i = i + 1;
    }
    r
}

/// The feedback class of position `i` of guess `q` against answer `w`:
/// `2` for a correct letter, `1` for one present elsewhere, `0` for an
/// absent one.
pub open spec fn trit(q: Seq<char>, w: Seq<char>, i: int) -> int {
    if q[i] == w[i] {
        2
    } else if w.contains(q[i]) {
        1
    } else {
        0
    }
}

/// The feedback class of the first `k` positions, read as a base-three
/// numeral.
pub open spec fn mask_id_prefix(q: Seq<char>, w: Seq<char>, k: int) -> int
    decreases k,
{
    if k <= 0 {
        0
    } else {
        mask_id_prefix(q, w, k - 1) * 3 + trit(q, w, k - 1)
    }
}

/// The feedback class of guess `q` against answer `w`, over all positions.
/// Two answers share a class exactly when `q` yields the same feedback
/// against both.
pub open spec fn mask_id(q: Seq<char>, w: Seq<char>) -> int {
    mask_id_prefix(q, w, q.len() as int)
}

pub proof fn lemma_mask_id_prefix_bounds(q: Seq<char>, w: Seq<char>, k: int)
    requires
        k >= 0,
    ensures
        0 <= mask_id_prefix(q, w, k) < pow3(k as nat),
    decreases k,
{
    if k > 0 {
        lemma_mask_id_prefix_bounds(q, w, k - 1);
        assert(pow3(k as nat) == 3 * pow3((k - 1) as nat));
    }
}

/// The size of feedback class `id` of guess `q` over the answers `ws`.
pub open spec fn gs(q: Seq<char>, ws: Seq<Seq<char>>, id: int) -> nat
    decreases ws.len(),
{
    if ws.len() == 0 {
        0
    } else {
        gs(q, ws.drop_last(), id) + if mask_id(q, ws.last()) == id {
            1nat
        } else {
            0nat
        }
    }
}

pub proof fn lemma_gs_le_len(q: Seq<char>, ws: Seq<Seq<char>>, id: int)
    ensures
        gs(q, ws, id) <= ws.len(),
    decreases ws.len(),
{
    if ws.len() > 0 {
        lemma_gs_le_len(q, ws.drop_last(), id);
    }
}

/// How one more answer changes a class size: the class of that answer
/// grows by one, every other class is unchanged.
pub proof fn lemma_gs_take_step(q: Seq<char>, ws: Seq<Seq<char>>, j: int, id: int)
    requires
        0 <= j < ws.len(),
    ensures
        gs(q, ws.take(j + 1), id) == gs(q, ws.take(j), id) + if mask_id(q, ws[j]) == id {
            1nat
        } else {
            0nat
        },
{
    assert(ws.take(j + 1).drop_last() =~= ws.take(j));
    assert(ws.take(j + 1).last() == ws[j]);
}

// The fixed-point binary logarithm.

/// The exponent of the highest power of two not above `n` (zero for
/// `n < 2`).
pub open spec fn ilog2(n: nat) -> nat
    decreases n,
{
    if n < 2 {
        0
    } else {
        1 + ilog2(n / 2)
    }
}

/// One squaring step on a mantissa held in fixed point with 32 fractional
/// bits.
pub open spec fn sq_step(m: nat) -> nat {
    m * m / 0x100000000
}

/// The next `k` fraction bits of the binary logarithm of a mantissa `m`
/// in `[1, 2)`, held in fixed point with 32 fractional bits: squaring the
/// mantissa doubles its logarithm, and a result at or above `2` yields a
/// one bit.
pub open spec fn frac_steps(m: nat, k: nat) -> nat
    decreases k,
{
    if k == 0 {
        0
    } else {
        let s = sq_step(m);
        if s >= 0x200000000 {
            pow2((k - 1) as nat) + frac_steps(s / 2, (k - 1) as nat)
        } else {
            frac_steps(s, (k - 1) as nat)
        }
    }
}

/// The binary logarithm of `n`, in fixed point with sixteen fractional
/// bits, rounded as the normalize-and-square method rounds it. Zero maps
/// to zero so that an empty feedback class never contributes to a score.
pub open spec fn log2fp_spec(n: nat) -> nat {
    if n == 0 {
        0
    } else {
        0x10000 * ilog2(n) + frac_steps(n * 0x100000000 / pow2(ilog2(n)), 16)
    }
}

pub proof fn lemma_ilog2_bounds(n: nat)
    requires
        n >= 1,
    ensures
        pow2(ilog2(n)) <= n < pow2(ilog2(n) + 1),
    decreases n,
{
    if n < 2 {
        lemma2_to64();
    } else {
        lemma_ilog2_bounds(n / 2);
        let e = ilog2(n / 2);
        lemma_fundamental_div_mod(n as int, 2);
        assert(pow2(e + 1) == 2 * pow2(e)) by {
            lemma_pow2_adds(e, 1);
            lemma2_to64();
        }
        assert(pow2(e + 2) == 2 * pow2(e + 1)) by {
            lemma_pow2_adds(e + 1, 1);
            lemma2_to64();
        }
    }
}

pub proof fn lemma_frac_steps_bound(m: nat, k: nat)
    ensures
        frac_steps(m, k) < pow2(k),
    decreases k,
{
    lemma_pow2_pos(k);
    if k > 0 {
        let s = sq_step(m);
        lemma_pow2_adds((k - 1) as nat, 1);
        lemma2_to64();
        assert(pow2(k) == 2 * pow2((k - 1) as nat));
        if s >= 0x200000000 {
            lemma_frac_steps_bound(s / 2, (k - 1) as nat);
        } else {
            lemma_frac_steps_bound(s, (k - 1) as nat);
        }
    }
}

pub proof fn lemma_log2fp_bound(n: nat)
    requires
        n < 0x10000000000000000,
    ensures
        log2fp_spec(n) < 0x400000,
{
    if n >= 1 {
        lemma_ilog2_bounds(n);
        let e = ilog2(n);
        if e >= 64 {
            lemma_pow2_strictly_increases(63, e);
            lemma2_to64();
            lemma2_to64_rest();
            assert(pow2(64) <= pow2(e)) by {
                if e > 64 {
                    lemma_pow2_strictly_increases(64, e);
                }
            }
            assert(false);
        }
        assert(e <= 63);
        lemma_frac_steps_bound(n * 0x100000000 / pow2(e), 16);
        lemma2_to64();
        assert(pow2(16) == 0x10000);
        let f = frac_steps(n * 0x100000000 / pow2(e), 16);
        assert(f < 0x10000);
        assert(log2fp_spec(n) == 0x10000 * e + f);
        assert(0x10000 * e + f < 0x400000) by (nonlinear_arith)
            requires
                e <= 63,
                f < 0x10000,
        ;
    } else {
        assert(log2fp_spec(0) == 0);
        assert(log2fp_spec(n) < 0x400000);
    }
}

/// Division stays under `c` when the dividend is under `c` times the
/// divisor.
proof fn lemma_div_lt(x: int, d: int, c: int)
    requires
        d > 0,
        x >= 0,
        x < c * d,
    ensures
        x / d < c,
{
    lemma_fundamental_div_mod(x, d);
    assert(d * (x / d) <= x);
    assert((x / d) < c) by (nonlinear_arith)
        requires
            d > 0,
            d * (x / d) <= x,
            x < c * d,
    ;
}

/// Division reaches `c` when the dividend reaches `c` times the divisor.
proof fn lemma_div_ge(x: int, d: int, c: int)
    requires
        d > 0,
        c >= 0,
        x >= c * d,
    ensures
        x / d >= c,
{
    lemma_fundamental_div_mod(x, d);
    assert(x / d >= c) by (nonlinear_arith)
        requires
            d > 0,
            c >= 0,
            x == d * (x / d) + x % d,
            0 <= x % d < d,
            x >= c * d,
    ;
}

/// The exponent of the highest power of two not above `n`.
fn ilog2_exec(n: u64) -> (r: u64)
    requires
        n >= 1,
    ensures
        r as nat == ilog2(n as nat),
        r <= 63,
{
    let mut t: u64 = n;
    let mut r: u64 = 0;
    proof {
        lemma2_to64();
    }
    while t >= 2
        invariant
            t >= 1,
            r <= 63,
            ilog2(n as nat) == r + ilog2(t as nat),
            pow2(r as nat) * t <= n,
        decreases t,
    {
        proof {
            lemma_pow2_pos(r as nat);
            if r == 63 {
                lemma_pow2_adds(63, 1);
                lemma2_to64();
                lemma2_to64_rest();
                assert(pow2(63) * t >= pow2(63) * 2) by (nonlinear_arith)
                    requires
                        t >= 2,
                        pow2(63) > 0,
                ;
                assert(false);
            }
            lemma_fundamental_div_mod(t as int, 2);
            lemma_pow2_adds(r as nat, 1);
            lemma2_to64();
            assert(pow2((r + 1) as nat) * ((t as int) / 2) <= pow2(r as nat) * t) by (
            nonlinear_arith)
                requires
                    pow2((r + 1) as nat) == 2 * pow2(r as nat),
                    2 * ((t as int) / 2) <= t,
                    pow2(r as nat) > 0,
                    t >= 0,
            ;
        }
        t = t / 2;
        r = r + 1;
    }
    r
}

/// The power of two with exponent `k`.
fn pow2_exec(k: u64) -> (r: u128)
    requires
        k <= 64,
    ensures
        r as nat == pow2(k as nat),
{
    let mut r: u128 = 1;
    let mut i: u64 = 0;
    proof {
        lemma2_to64();
    }
    while i < k
        invariant
            i <= k <= 64,
            r as nat == pow2(i as nat),
        decreases k - i,
    {
        proof {
            lemma_pow2_adds(i as nat, 1);
            lemma2_to64();
            if (i as nat) < 64 {
                lemma_pow2_strictly_increases(i as nat, 64);
            }
            lemma2_to64_rest();
        }
        r = r * 2;
        i = i + 1;
    }
    r
}

/// The binary logarithm of `n` in fixed point with sixteen fractional
/// bits, by normalizing `n` to a mantissa in `[1, 2)` and squaring it
/// sixteen times.
pub fn log2fp(n: u64) -> (r: u64)
    requires
        n >= 1,
    ensures
        r as nat == log2fp_spec(n as nat),
        r < 0x400000,
{
    let e = ilog2_exec(n);
    let p = pow2_exec(e);
    proof {
        lemma_ilog2_bounds(n as nat);
        lemma_pow2_pos(e as nat);
        lemma_pow2_adds(e as nat, 1);
        lemma2_to64();
        // The normalized mantissa lies in [2^32, 2^33).
        assert((n as int) * 0x100000000 >= 0x100000000 * (p as int)) by (nonlinear_arith)
            requires
                n as int >= p as int,
        ;
        lemma_div_ge((n as int) * 0x100000000, p as int, 0x100000000);
        assert((n as int) * 0x100000000 < 0x200000000 * (p as int)) by (nonlinear_arith)
            requires
                (n as int) < 2 * (p as int),
        ;
        lemma_div_lt((n as int) * 0x100000000, p as int, 0x200000000);
    }
    let m0: u128 = (n as u128) * 0x100000000 / p;
    let ghost mstart: nat = m0 as nat;
    let mut m: u128 = m0;
    let mut frac: u64 = 0;
    let mut j: u64 = 0;
    proof {
        lemma2_to64();
    }
    while j < 16
        invariant
            j <= 16,
            0x100000000 <= m < 0x200000000,
            frac < pow2(j as nat),
            frac * pow2((16 - j) as nat) + frac_steps(m as nat, (16 - j) as nat) == frac_steps(
                mstart,
                16,
            ),
        decreases 16 - j,
    {
        let ghost k: nat = (16 - j) as nat;
        let ghost frac_old = frac as int;
        let ghost m_old = m as nat;
        proof {
            assert((m as int) * (m as int) < 0x200000000 * 0x200000000) by (nonlinear_arith)
                requires
                    0 <= m < 0x200000000,
            ;
            assert((m as int) * (m as int) >= 0x100000000 * 0x100000000) by (nonlinear_arith)
                requires
                    m >= 0x100000000,
            ;
            lemma_div_ge((m as int) * (m as int), 0x100000000, 0x100000000);
            lemma_div_lt((m as int) * (m as int), 0x100000000, 0x400000000);
        }
        let sq: u128 = m * m / 0x100000000;
        proof {
            assert(sq as nat == sq_step(m_old));
            lemma_pow2_adds((k - 1) as nat, 1);
            lemma_pow2_adds(j as nat, 1);
            lemma2_to64();
            if (j as nat) < 16 {
                lemma_pow2_strictly_increases(j as nat, 16);
            }
        }
        if sq >= 0x200000000 {
            m = sq / 2;
            frac = frac * 2 + 1;
            proof {
                assert(frac_steps(m_old, k) == pow2((k - 1) as nat) + frac_steps(
                    sq as nat / 2,
                    (k - 1) as nat,
                ));
                assert((frac as int) * pow2((k - 1) as nat) == frac_old * pow2(k) + pow2(
                    (k - 1) as nat,
                )) by (nonlinear_arith)
                    requires
                        frac as int == 2 * frac_old + 1,
                        pow2(k) == 2 * pow2((k - 1) as nat),
                ;
            }
        } else {
            m = sq;
            frac = frac * 2;
            proof {
                assert(frac_steps(m_old, k) == frac_steps(sq as nat, (k - 1) as nat));
                assert((frac as int) * pow2((k - 1) as nat) == frac_old * pow2(k)) by (
                nonlinear_arith)
                    requires
                        frac as int == 2 * frac_old,
                        pow2(k) == 2 * pow2((k - 1) as nat),
                ;
            }
        }
        j = j + 1;
    }
    proof {
        assert(pow2(0) == 1) by {
            lemma2_to64();
        }
        assert(j == 16);
        assert(frac_steps(m as nat, (16 - j) as nat) == 0);
        assert(pow2((16 - j) as nat) == 1);
        assert((frac as int) * pow2((16 - j) as nat) == frac as int) by (nonlinear_arith)
            requires
                pow2((16 - j) as nat) == 1,
        ;
        assert(frac as nat == frac_steps(mstart, 16));
        assert(pow2(16) == 0x10000) by {
            lemma2_to64();
        }
    }
    e * 0x10000 + frac
}



/// The summed sizes of feedback classes `0..k`.
pub open spec fn class_total(q: Seq<char>, ws: Seq<Seq<char>>, k: int) -> nat
    decreases k,
{
    if k <= 0 {
        0
    } else {
        class_total(q, ws, k - 1) + gs(q, ws, k - 1)
    }
}

proof fn lemma_class_total_empty(q: Seq<char>, ws: Seq<Seq<char>>, k: int)
    requires
        ws.len() == 0,
    ensures
        class_total(q, ws, k) == 0,
    decreases k,
{
    if k > 0 {
        lemma_class_total_empty(q, ws, k - 1);
    }
}

proof fn lemma_class_total_push(q: Seq<char>, ws: Seq<Seq<char>>, k: int)
    requires
        ws.len() > 0,
    ensures
        class_total(q, ws, k) == class_total(q, ws.drop_last(), k) + if 0 <= mask_id(
            q,
            ws.last(),
        ) < k {
            1nat
        } else {
            0nat
        },
    decreases k,
{
    if k > 0 {
        lemma_class_total_push(q, ws, k - 1);
    }
}

/// The feedback classes of a guess partition the candidates: over all
/// `3^len` classes the sizes add up to the number of candidates.
pub proof fn lemma_classes_partition(q: Seq<char>, ws: Seq<Seq<char>>)
    ensures
        class_total(q, ws, pow3(q.len()) as int) == ws.len(),
    decreases ws.len(),
{
    if ws.len() == 0 {
        lemma_class_total_empty(q, ws, pow3(q.len()) as int);
    } else {
        lemma_classes_partition(q, ws.drop_last());
        lemma_mask_id_prefix_bounds(q, ws.last(), q.len() as int);
        lemma_class_total_push(q, ws, pow3(q.len()) as int);
    }
}

/// One feedback class's contribution to a guess's score: `n * log2fp(n)`
/// for a class of size `n`. An empty class contributes nothing.
pub open spec fn f_score(n: nat) -> nat {
    n * log2fp_spec(n)
}

/// The summed contributions of feedback classes `0..k`.
pub open spec fn score_upto(q: Seq<char>, ws: Seq<Seq<char>>, k: int) -> nat
    decreases k,
{
    if k <= 0 {
        0
    } else {
        score_upto(q, ws, k - 1) + f_score(gs(q, ws, k - 1))
    }
}

/// The entropy score of guess `q` over the possible answers `ws`: the sum
/// over all `3^len` feedback classes of `n * log2fp(n)` with `n` the class
/// size. Lower scores mean more evenly split classes, hence more expected
/// information.
pub open spec fn score(q: Seq<char>, ws: Seq<Seq<char>>) -> nat {
    score_upto(q, ws, pow3(q.len()) as int)
}

/// The feedback class of guess `query` against answer `word`, as an index
/// below `3^len`.
pub fn mask_index(query: &Word, word: &Word) -> (r: usize)
    requires
        query@.len() == word@.len(),
        query@.len() <= crate::MAX_WORD_LEN,
    ensures
        r as int == mask_id(query@, word@),
        r < pow3(query@.len()),
{
    let l = query.0.len();
    let mut id: usize = 0;
    let mut i: usize = 0;
    proof {
        reveal_with_fuel(pow3, 14);
        assert(pow3(13) == 1594323);
    }
    while i < l
        invariant
            i <= l,
            l == query@.len(),
            query@.len() == word@.len(),
            query@.len() <= 13,
            id as int == mask_id_prefix(query@, word@, i as int),
            id < pow3(i as nat),
        decreases l - i,
    {
        proof {
            lemma_pow3_monotone((i + 1) as nat, 13);
            reveal_with_fuel(pow3, 14);
            assert(pow3(13) == 1594323);
            assert(pow3((i + 1) as nat) == 3 * pow3(i as nat));
        }
        let qc = query.letter(i);
        let t: usize = if qc == word.letter(i) {
            2
        } else if word.has_letter(qc) {
            1
        } else {
            0
        };
        proof {
            assert(t as int == trit(query@, word@, i as int));
        }
        id = id * 3 + t;
        i = i + 1;
    }
    id
}

/// The entropy score of `query` over the answers `possible`, computed by
/// tabulating the size of each of the `3^len` feedback classes.
pub fn score_query(query: &Word, possible: &Vec<Word>) -> (r: u128)
    requires
        query@.len() <= crate::MAX_WORD_LEN,
        all_len(views(possible@), query@.len()),
    ensures
        r as nat == score(query@, views(possible@)),
{
    let ghost vws = views(possible@);
    let l = query.0.len();
    proof {
        reveal_with_fuel(pow3, 14);
        assert(pow3(13) == 1594323);
        lemma_pow3_monotone(query@.len(), 13);
    }
    let tsize = pow3_exec(l);
    let mut counts: Vec<usize> = Vec::new();
    while counts.len() < tsize
        invariant
            counts@.len() <= tsize,
            forall|k: int| 0 <= k < counts@.len() ==> (#[trigger] counts@[k]) == 0,
        decreases tsize - counts@.len(),
    {
        counts.push(0);
    }
    let mut j: usize = 0;
    proof {
        assert(vws.take(0).len() == 0);
    }
    while j < possible.len()
        invariant
            j <= possible@.len(),
            counts@.len() == tsize,
            tsize == pow3(query@.len()),
            query@.len() <= 13,
            all_len(vws, query@.len()),
            vws == views(possible@),
            forall|id: int| 0 <= id < tsize ==> (#[trigger] counts@[id]) as nat == gs(
                query@,
                vws.take(j as int),
                id,
            ),
        decreases possible@.len() - j,
    {
        proof {
            assert(vws[j as int] == possible@[j as int]@);
            assert(vws[j as int].len() == query@.len());
        }
        let id = mask_index(query, &possible[j]);
        let c = counts[id];
        proof {
            lemma_gs_le_len(query@, vws.take(j as int), id as int);
            assert(vws.take(j as int).len() == j);
            assert forall|id2: int| 0 <= id2 < tsize implies gs(query@, vws.take(j + 1), id2)
                == gs(query@, vws.take(j as int), id2) + (if mask_id(query@, vws[j as int])
                == id2 {
                1nat
            } else {
                0nat
            }) by {
                lemma_gs_take_step(query@, vws, j as int, id2);
            }
        }
        counts.set(id, c + 1);
        j = j + 1;
    }
    proof {
        assert(vws.take(possible@.len() as int) =~= vws);
    }
    let mut acc: u128 = 0;
    let mut id: usize = 0;
    while id < tsize
        invariant
            id <= tsize,
            counts@.len() == tsize,
            tsize == pow3(query@.len()),
            tsize <= 1594323,
            vws == views(possible@),
            vws.len() < 0x10000000000000000,
            forall|k: int| 0 <= k < tsize ==> (#[trigger] counts@[k]) as nat == gs(query@, vws, k),
            acc as nat == score_upto(query@, vws, id as int),
            acc as nat <= (id as nat) * 0x4000000000000000000000,
        decreases tsize - id,
    {
        let c = counts[id];
        proof {
            lemma_gs_le_len(query@, vws, id as int);
        }
        if c > 0 {
            let lg = log2fp(c as u64);
            proof {
                let cn = c as nat;
                let lgn = lg as nat;
                assert(f_score(cn) == cn * lgn);
                assert(cn * lgn < 0x4000000000000000000000) by (nonlinear_arith)
                    requires
                        cn < 0x10000000000000000,
                        lgn < 0x400000,
                ;
                let accn = acc as nat;
                let idn = id as nat;
                assert(accn + cn * lgn <= (idn + 1) * 0x4000000000000000000000) by (
                nonlinear_arith)
                    requires
                        accn <= idn * 0x4000000000000000000000,
                        cn * lgn < 0x4000000000000000000000,
                ;
                assert((idn + 1) * 0x4000000000000000000000 <= 1594323
                    * 0x4000000000000000000000) by (nonlinear_arith)
                    requires
                        idn + 1 <= 1594323,
                ;
            }
            acc = acc + (c as u128) * (lg as u128);
        } else {
            proof {
                assert(counts@[id as int] == 0);
                assert(gs(query@, vws, id as int) == 0);
                assert(f_score(0nat) == 0nat * log2fp_spec(0nat));
                assert(f_score(gs(query@, vws, id as int)) == 0);
                assert((acc as nat) <= ((id + 1) as nat) * 0x4000000000000000000000) by (
                nonlinear_arith)
                    requires
                        acc as nat <= (id as nat) * 0x4000000000000000000000,
                ;
            }
        }
        id = id + 1;
    }
    acc
}


/// The index of the best-scoring guess among the first `k` of `qs`,
/// earliest minimum first.
pub open spec fn best_upto(qs: Seq<Seq<char>>, ws: Seq<Seq<char>>, k: int) -> int
    decreases k,
{
    if k <= 1 {
        0
    } else {
        let b = best_upto(qs, ws, k - 1);
        if score(qs[k - 1], ws) < score(qs[b], ws) {
            k - 1
        } else {
            b
        }
    }
}

/// The index of the first guess in `qs` whose score over `ws` is minimal.
pub open spec fn best_query_index(qs: Seq<Seq<char>>, ws: Seq<Seq<char>>) -> int {
    best_upto(qs, ws, qs.len() as int)
}

/// The chosen index is in range, scores no worse than any guess in range,
/// and strictly beats every earlier guess: the selection is a stable
/// minimum.
pub proof fn lemma_best_upto(qs: Seq<Seq<char>>, ws: Seq<Seq<char>>, k: int)
    requires
        1 <= k <= qs.len(),
    ensures
        0 <= best_upto(qs, ws, k) < k,
        forall|j: int| 0 <= j < k ==> score(qs[best_upto(qs, ws, k)], ws) <= score(
            #[trigger] qs[j],
            ws,
        ),
        forall|j: int| 0 <= j < best_upto(qs, ws, k) ==> score(#[trigger] qs[j], ws) > score(
            qs[best_upto(qs, ws, k)],
            ws,
        ),
    decreases k,
{
    if k > 1 {
        lemma_best_upto(qs, ws, k - 1);
    }
}

} // verus!
