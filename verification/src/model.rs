//! The mathematical model of the feedback engine: what feedback a guess
//! yields against an answer, when a word is consistent with feedback, and
//! how feedback filters a word list.
use vstd::prelude::*;

use crate::game::State;
use crate::Word;

verus! {

/// The views of a list of words, as a sequence of letter sequences.
pub open spec fn views(ws: Seq<Word>) -> Seq<Seq<char>> {
    ws.map_values(|w: Word| w@)
}

/// Every word in `ws` has length `n`.
pub open spec fn all_len(ws: Seq<Seq<char>>, n: nat) -> bool {
    forall|i: int| 0 <= i < ws.len() ==> (#[trigger] ws[i]).len() == n
}

/// Every word of `a` occurs somewhere in `b`.
pub open spec fn sub_list(a: Seq<Seq<char>>, b: Seq<Seq<char>>) -> bool {
    forall|i: int| 0 <= i < a.len() ==> b.contains(#[trigger] a[i])
}

/// The feedback for position `i` of guess `q` against answer `w`: the
/// guessed letter is recorded together with whether it matches the answer's
/// letter there, occurs elsewhere in the answer, or does not occur at all.
pub open spec fn outcome_at(q: Seq<char>, w: Seq<char>, i: int) -> State {
    if q[i] == w[i] {
        State::Green(q[i])
    } else if w.contains(q[i]) {
        State::Yellow(q[i])
    } else {
        State::Gray(q[i])
    }
}

/// The full feedback of guess `q` against answer `w`, one outcome per
/// position.
pub open spec fn derive_spec(q: Seq<char>, w: Seq<char>) -> Seq<State> {
    Seq::new(q.len(), |i: int| outcome_at(q, w, i))
}

/// What one outcome demands of a candidate word `w` whose letter at that
/// position is `c`.
pub open spec fn state_ok(s: State, c: char, w: Seq<char>) -> bool {
    match s {
        State::Gray(x) => !w.contains(x),
        State::Yellow(x) => c != x && w.contains(x),
        State::Green(x) => c == x,
    }
}

/// A candidate word `w` is consistent with feedback `r` when every
/// position's demand holds of it.
pub open spec fn consistent_spec(r: Seq<State>, w: Seq<char>) -> bool {
    forall|i: int| 0 <= i < r.len() ==> state_ok(#[trigger] r[i], w[i], w)
}

/// Feedback signals a win exactly when every position matched.
pub open spec fn wins_spec(r: Seq<State>) -> bool {
    forall|i: int| 0 <= i < r.len() ==> (#[trigger] r[i]) is Green
}

/// The subsequence of `ws` consistent with feedback `r`, in input order.
pub open spec fn filter_spec(r: Seq<State>, ws: Seq<Seq<char>>) -> Seq<Seq<char>> {
    ws.filter(|w: Seq<char>| consistent_spec(r, w))
}

/// Every code of an externally supplied mask is `'0'`, `'1'` or `'2'`.
pub open spec fn mask_ok(m: Seq<char>) -> bool {
    forall|i: int| 0 <= i < m.len() ==> (#[trigger] m[i] == '0' || m[i] == '1' || m[i] == '2')
}

/// The outcome encoded at position `i` of a per-position mask over guess
/// `q`: `'0'` marks the letter absent, `'1'` present elsewhere, `'2'`
/// correct.
pub open spec fn decode_at(q: Seq<char>, m: Seq<char>, i: int) -> State {
    if m[i] == '2' {
        State::Green(q[i])
    } else if m[i] == '1' {
        State::Yellow(q[i])
    } else {
        State::Gray(q[i])
    }
}

/// The feedback encoded by a per-position mask over guess `q`.
pub open spec fn decode_spec(q: Seq<char>, m: Seq<char>) -> Seq<State> {
    Seq::new(q.len(), |i: int| decode_at(q, m, i))
}

/// How one more word changes a filtered prefix: it is appended exactly
/// when it is consistent with the rule.
pub proof fn lemma_filter_take_step(r: Seq<State>, ws: Seq<Seq<char>>, i: int)
    requires
        0 <= i < ws.len(),
    ensures
        consistent_spec(r, ws[i]) ==> filter_spec(r, ws.take(i + 1)) == filter_spec(
            r,
            ws.take(i),
        ).push(ws[i]),
        !consistent_spec(r, ws[i]) ==> filter_spec(r, ws.take(i + 1)) == filter_spec(
            r,
            ws.take(i),
        ),
{
    reveal(Seq::filter);
    assert(ws.take(i + 1).drop_last() =~= ws.take(i));
    assert(ws.take(i + 1).last() == ws[i]);
}

/// What filtering keeps: no more words than were there, only words that
/// were there and are consistent, and all of those.
pub proof fn lemma_filter_membership(r: Seq<State>, ws: Seq<Seq<char>>)
    ensures
        filter_spec(r, ws).len() <= ws.len(),
        forall|i: int| 0 <= i < filter_spec(r, ws).len() ==> ws.contains(
            #[trigger] filter_spec(r, ws)[i],
        ) && consistent_spec(r, filter_spec(r, ws)[i]),
        forall|x: Seq<char>| ws.contains(x) && consistent_spec(r, x) ==> filter_spec(
            r,
            ws,
        ).contains(x),
    decreases ws.len(),
{
    reveal(Seq::filter);
    let out = filter_spec(r, ws);
    if ws.len() > 0 {
        let dl = ws.drop_last();
        lemma_filter_membership(r, dl);
        let sub = filter_spec(r, dl);
        assert(forall|i: int| 0 <= i < dl.len() ==> ws[i] == #[trigger] dl[i]);
        assert(forall|x: Seq<char>| dl.contains(x) ==> ws.contains(x));
        assert forall|i: int| 0 <= i < out.len() implies ws.contains(#[trigger] out[i])
            && consistent_spec(r, out[i]) by {
            if i < sub.len() {
                assert(out[i] == sub[i]);
            } else {
                assert(out[i] == ws.last());
            }
        }
        assert forall|x: Seq<char>| ws.contains(x) && consistent_spec(r, x) implies out.contains(
            x,
        ) by {
            let j = choose|j: int| 0 <= j < ws.len() && ws[j] == x;
            if j < dl.len() {
                assert(dl[j] == x);
                assert(dl.contains(x));
                assert(sub.contains(x));
                let i = choose|i: int| 0 <= i < sub.len() && sub[i] == x;
                assert(out[i] == x);
            } else {
                assert(x == ws.last());
                assert(out[out.len() - 1] == x);
            }
        }
    }
}

/// The guessed letter an outcome records.
pub open spec fn letter_of(s: State) -> char {
    match s {
        State::Gray(x) => x,
        State::Yellow(x) => x,
        State::Green(x) => x,
    }
}

/// The letters a full feedback records, in position order.
pub open spec fn rule_letters(r: Seq<State>) -> Seq<char> {
    r.map_values(|s: State| letter_of(s))
}

} // verus!
