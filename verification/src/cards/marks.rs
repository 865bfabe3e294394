//! Sets of card values as rows of marks: position `v` of a row is marked when
//! the value at position `v` belongs to the set.

use vstd::prelude::*;
use vstd::arithmetic::power2::{lemma2_to64, lemma_pow2_unfold, pow2};

verus! {

/// Length of a row of marks: one position for each card value.
pub const ROW: usize = 13;

/// Number of marked positions of `m` from position `v` upward.
pub open spec fn set_from(m: Seq<bool>, v: int) -> nat
    decreases m.len() - v,
{
    if v < 0 || v >= m.len() {
        0
    } else {
        set_from(m, v + 1) + if m[v] { 1nat } else { 0nat }
    }
}

/// Number of marked positions of `m`.
pub open spec fn total(m: Seq<bool>) -> nat {
    set_from(m, 0)
}

/// The number whose binary digits are the marks of `m` from position `v`
/// upward, the mark at `v` being the lowest digit.
pub open spec fn digits_from(m: Seq<bool>, v: int) -> nat
    decreases m.len() - v,
{
    if v < 0 || v >= m.len() {
        0
    } else {
        2 * digits_from(m, v + 1) + if m[v] { 1nat } else { 0nat }
    }
}

/// The row read as a binary number: position `v` weighs two to the `v`.
pub open spec fn mask(m: Seq<bool>) -> nat {
    digits_from(m, 0)
}

/// The `n` highest marked positions of `m`.
pub open spec fn keep_top(m: Seq<bool>, n: nat) -> Seq<bool> {
    Seq::new(m.len(), |v: int| m[v] && set_from(m, v + 1) < n)
}

/// The positions marked in `m` and not in `x`.
pub open spec fn without(m: Seq<bool>, x: Seq<bool>) -> Seq<bool> {
    Seq::new(m.len(), |v: int| m[v] && !x[v])
}

/// Five positions in sequence are marked, the highest of them being `v`.
pub open spec fn run_ends_at(m: Seq<bool>, v: int) -> bool {
    4 <= v < m.len() && m[v] && m[v - 1] && m[v - 2] && m[v - 3] && m[v - 4]
}

/// The ace and the four lowest values are marked.
pub open spec fn wheel(m: Seq<bool>) -> bool {
    m.len() == 13 && m[12] && m[0] && m[1] && m[2] && m[3]
}

/// The best straight at or below position `v`: the highest run of five ending
/// there counts its top position less three, the wheel counts 0.
pub open spec fn straight_from(m: Seq<bool>, v: int) -> Option<u32>
    decreases v,
{
    if v < 4 {
        if wheel(m) {
            Some(0u32)
        } else {
            None
        }
    } else if run_ends_at(m, v) {
        Some((v - 3) as u32)
    } else {
        straight_from(m, v - 1)
    }
}

/// The best straight among the marked values, if there is one.
pub open spec fn straight_of(m: Seq<bool>) -> Option<u32> {
    straight_from(m, m.len() - 1)
}

/// A count from some position upward is at most the number of positions.
pub proof fn lemma_set_from_bound(m: Seq<bool>, v: int)
    requires
        0 <= v <= m.len(),
    ensures
        set_from(m, v) <= m.len() - v,
    decreases m.len() - v,
{
    if v < m.len() {
        lemma_set_from_bound(m, v + 1);
    }
}

/// A marked position is counted.
pub proof fn lemma_marked_counts(m: Seq<bool>, v: int, from: int)
    requires
        0 <= from <= v < m.len(),
        m[v],
    ensures
        set_from(m, from) > 0,
    decreases v - from,
{
    if from < v {
        lemma_marked_counts(m, v, from + 1);
    }
}

/// The digits from position `v` upward stay below two to the number of
/// positions read.
pub proof fn lemma_digits_bound(m: Seq<bool>, v: int)
    requires
        0 <= v <= m.len(),
    ensures
        digits_from(m, v) < pow2((m.len() - v) as nat),
    decreases m.len() - v,
{
    if v < m.len() {
        lemma_digits_bound(m, v + 1);
        lemma_pow2_unfold((m.len() - v) as nat);
    } else {
        lemma2_to64();
    }
}

/// A row of thirteen marks reads as a number below 8192.
pub proof fn lemma_mask_bound(m: Seq<bool>)
    requires
        m.len() == 13,
    ensures
        mask(m) < 8192,
{
    lemma_digits_bound(m, 0);
    lemma2_to64();
}

/// Count the marks of a row.
pub fn count_marks(m: &Vec<bool>) -> (n: usize)
    requires
        m@.len() == ROW,
    ensures
        n == total(m@),
        n <= ROW,
{
    let mut n: usize = 0;
    let mut i: usize = ROW;
    while i > 0
        invariant
            m@.len() == ROW,
            i <= ROW,
            n == set_from(m@, i as int),
            n <= ROW - i,
        decreases i,
    {
        i = i - 1;
        if m[i] {
            n = n + 1;
        }
    }
    n
}

/// Read a row as a binary number.
pub fn row_mask(m: &Vec<bool>) -> (n: u32)
    requires
        m@.len() == ROW,
    ensures
        n == mask(m@),
        n < 8192,
{
    let mut n: u32 = 0;
    let mut i: usize = ROW;
    while i > 0
        invariant
            m@.len() == ROW,
            i <= ROW,
            n == digits_from(m@, i as int),
        decreases i,
    {
        proof {
            lemma_digits_bound(m@, i as int);
            lemma_digits_bound(m@, i as int - 1);
            lemma2_to64();
            vstd::arithmetic::power2::lemma_pow2_strictly_increases(
                (ROW - i) as nat,
                14,
            );
        }
        i = i - 1;
        n = 2 * n;
        if m[i] {
            n = n + 1;
        }
    }
    proof {
        lemma_mask_bound(m@);
    }
    n
}

/// Keep the `n` highest marks of a row.
pub fn top_marks(m: &Vec<bool>, n: usize) -> (out: Vec<bool>)
    requires
        m@.len() == ROW,
    ensures
        out@ == keep_top(m@, n as nat),
{
    let mut out: Vec<bool> = Vec::new();
    let mut k: usize = 0;
    while k < ROW
        invariant
            k <= ROW,
            out@.len() == k,
            forall|v: int| 0 <= v < k ==> !out@[v],
        decreases ROW - k,
    {
        out.push(false);
        k = k + 1;
    }
    let mut kept: usize = 0;
    let mut i: usize = ROW;
    while i > 0
        invariant
            m@.len() == ROW,
            out@.len() == ROW,
            i <= ROW,
            kept <= ROW - i,
            kept <= n,
            kept == set_from(m@, i as int) || (kept == n && set_from(m@, i as int) >= n),
            forall|v: int| i <= v < ROW ==> out@[v] == (m@[v] && set_from(m@, v + 1) < n),
        decreases i,
    {
        proof {
            lemma_set_from_bound(m@, i as int);
        }
        i = i - 1;
        if m[i] && kept < n {
            out.set(i, true);
            kept = kept + 1;
        } else {
            out.set(i, false);
        }
    }
    assert(out@ =~= keep_top(m@, n as nat));
    out
}

/// Take the marks of `x` out of `m`.
pub fn marks_without(m: &Vec<bool>, x: &Vec<bool>) -> (out: Vec<bool>)
    requires
        m@.len() == ROW,
        x@.len() == ROW,
    ensures
        out@ == without(m@, x@),
{
    let mut out: Vec<bool> = Vec::new();
    let mut i: usize = 0;
    while i < ROW
        invariant
            m@.len() == ROW,
            x@.len() == ROW,
            i <= ROW,
            out@.len() == i,
            forall|v: int| 0 <= v < i ==> out@[v] == (m@[v] && !x@[v]),
        decreases ROW - i,
    {
        out.push(m[i] && !x[i]);
        i = i + 1;
    }
    assert(out@ =~= without(m@, x@));
    out
}

/// Find the best straight among the marked values.
pub fn find_straight(m: &Vec<bool>) -> (r: Option<u32>)
    requires
        m@.len() == ROW,
    ensures
        r == straight_of(m@),
{
    let mut v: usize = ROW - 1;
    while v >= 4
        invariant
            m@.len() == ROW,
            3 <= v < ROW,
            straight_of(m@) == straight_from(m@, v as int),
        decreases v,
    {
        if m[v] && m[v - 1] && m[v - 2] && m[v - 3] && m[v - 4] {
            let top: u32 = (v - 3) as u32;
            return Some(top);
        }
        v = v - 1;
    }
    if m[12] && m[0] && m[1] && m[2] && m[3] {
        Some(0)
    } else {
        None
    }
}

} // verus!
