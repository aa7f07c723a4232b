//! How far the search has come: the trail read as a number in base three,
//! one digit per position (nothing, a decision, an implied literal). Every
//! round of the main loop makes it grow, and it stays below `3^n`.
use vstd::prelude::*;
use crate::data::State;

verus! {

/// `3` to the power `e`.
pub open spec fn pow3(e: nat) -> nat
    decreases e,
{
    if e == 0 {
        1
    } else {
        3 * pow3((e - 1) as nat)
    }
}

/// Trail position `q` holds a decision.
pub open spec fn decided_at(ctl: Seq<usize>, q: int) -> bool {
    exists|i: int| 0 <= i < ctl.len() && ctl[i] as int == q
}

/// What trail position `q` holds: nothing (0), a decision (1) or an implied
/// literal (2).
pub open spec fn tag(len: int, ctl: Seq<usize>, q: int) -> int {
    if q >= len {
        0
    } else if decided_at(ctl, q) {
        1
    } else {
        2
    }
}

/// The tags of positions `q..n` read as a number in base three, position
/// `q` the most significant digit.
pub open spec fn weight(len: int, ctl: Seq<usize>, q: int, n: int) -> int
    decreases n - q,
{
    if q >= n {
        0
    } else {
        tag(len, ctl, q) * pow3((n - 1 - q) as nat) + weight(len, ctl, q + 1, n)
    }
}

/// How far the search has come: grows with every step of the main loop.
pub open spec fn progress(st: State, n: int) -> int {
    weight(st.trail@.len() as int, st.control@, 0, n)
}

pub proof fn lemma_weight_bounded(len: int, ctl: Seq<usize>, q: int, n: int)
    requires
        0 <= q <= n,
    ensures
        0 <= weight(len, ctl, q, n) < pow3((n - q) as nat),
    decreases n - q,
{
    if q < n {
        lemma_weight_bounded(len, ctl, q + 1, n);
        let k = (n - 1 - q) as nat;
        assert(pow3((n - q) as nat) == 3 * pow3(k));
        let tg = tag(len, ctl, q);
        assert(0 <= tg * pow3(k) <= 2 * pow3(k)) by (nonlinear_arith)
            requires
                0 <= tg <= 2,
        ;
    }
}

pub proof fn lemma_weight_prefix(a: int, ca: Seq<usize>, b: int, cb: Seq<usize>, q: int, p: int, n: int)
    requires
        0 <= q <= p <= n,
        forall|r: int| q <= r < p ==> #[trigger] tag(a, ca, r) == tag(b, cb, r),
    ensures
        weight(b, cb, q, n) - weight(a, ca, q, n) == weight(b, cb, p, n) - weight(a, ca, p, n),
    decreases p - q,
{
    if q < p {
        lemma_weight_prefix(a, ca, b, cb, q + 1, p, n);
        assert(tag(a, ca, q) == tag(b, cb, q));
    }
}

/// The first position whose tag differs decides which trail is further.
pub proof fn lemma_weight_lex(a: int, ca: Seq<usize>, b: int, cb: Seq<usize>, p: int, n: int)
    requires
        0 <= p < n,
        forall|r: int| 0 <= r < p ==> #[trigger] tag(a, ca, r) == tag(b, cb, r),
        tag(a, ca, p) < tag(b, cb, p),
    ensures
        weight(a, ca, 0, n) < weight(b, cb, 0, n),
{
    lemma_weight_prefix(a, ca, b, cb, 0, p, n);
    lemma_weight_bounded(a, ca, p + 1, n);
    lemma_weight_bounded(b, cb, p + 1, n);
    let k = (n - 1 - p) as nat;
    let ta = tag(a, ca, p);
    let tb = tag(b, cb, p);
    assert(ta * pow3(k) + pow3(k) <= tb * pow3(k)) by (nonlinear_arith)
        requires
            ta + 1 <= tb,
            pow3(k) >= 0,
    ;
}

} // verus!
