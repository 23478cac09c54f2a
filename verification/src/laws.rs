//! The laws the engine obeys, stated and proved over the model: feedback
//! round-trips, filtering is idempotent and never grows a list, winning
//! feedback characterizes equality, scores ignore candidate order, and a
//! candidate guess that does not win always shrinks the candidate list.
use vstd::prelude::*;

use vstd::multiset::Multiset;

use crate::entropy::{gs, mask_id, mask_id_prefix, score, score_upto, trit};
use crate::game::State;
use crate::model::{
    consistent_spec, derive_spec, filter_spec, lemma_filter_membership, outcome_at,
    state_ok, wins_spec,
};

verus! {

/// A word is consistent with the feedback a guess yields against an answer
/// exactly when the guess yields the same feedback against that word: the
/// words surviving a round are precisely the guess's feedback class of the
/// answer.
pub proof fn lemma_consistent_iff_same_feedback(q: Seq<char>, t: Seq<char>, w: Seq<char>)
    requires
        q.len() == t.len(),
        w.len() == q.len(),
    ensures
        consistent_spec(derive_spec(q, t), w) <==> derive_spec(q, w) == derive_spec(q, t),
{
    let rt = derive_spec(q, t);
    let rw = derive_spec(q, w);
    assert forall|i: int| 0 <= i < q.len() implies (state_ok(rt[i], w[i], w) <==> rw[i]
        == rt[i]) by {
        assert(rt[i] == outcome_at(q, t, i));
        assert(rw[i] == outcome_at(q, w, i));
    }
    if consistent_spec(rt, w) {
        assert(rw =~= rt);
    }
    if rw == rt {
        assert forall|i: int| 0 <= i < rt.len() implies state_ok(#[trigger] rt[i], w[i], w) by {
            assert(rw[i] == rt[i]);
        }
    }
}

/// Self-consistency: an answer is always consistent with the feedback any
/// guess of its length yields against it.
pub proof fn lemma_self_consistency(q: Seq<char>, a: Seq<char>)
    requires
        q.len() == a.len(),
    ensures
        consistent_spec(derive_spec(q, a), a),
{
    let r = derive_spec(q, a);
    assert forall|i: int| 0 <= i < r.len() implies state_ok(#[trigger] r[i], a[i], a) by {
        assert(r[i] == outcome_at(q, a, i));
    }
}

/// A list whose every word is consistent with a rule passes through the
/// rule's filter unchanged.
proof fn lemma_filter_consistent_all(r: Seq<State>, ws: Seq<Seq<char>>)
    requires
        forall|i: int| 0 <= i < ws.len() ==> consistent_spec(r, #[trigger] ws[i]),
    ensures
        filter_spec(r, ws) == ws,
    decreases ws.len(),
{
    reveal(Seq::filter);
    if ws.len() > 0 {
        let dl = ws.drop_last();
        assert(forall|i: int| 0 <= i < dl.len() ==> dl[i] == #[trigger] ws[i]);
        lemma_filter_consistent_all(r, dl);
        assert(consistent_spec(r, ws.last()));
        assert(filter_spec(r, ws) =~= ws);
    }
}

/// Idempotent filtering: filtering a list twice by one rule is the same as
/// filtering it once.
pub proof fn lemma_filter_idempotent(r: Seq<State>, ws: Seq<Seq<char>>)
    ensures
        filter_spec(r, filter_spec(r, ws)) == filter_spec(r, ws),
{
    lemma_filter_membership(r, ws);
    lemma_filter_consistent_all(r, filter_spec(r, ws));
}

/// Win correctness: feedback derived for a guess against an answer signals
/// a win exactly when guess and answer agree at every position, that is,
/// when they are the same word.
pub proof fn lemma_win_iff_equal(q: Seq<char>, a: Seq<char>)
    requires
        q.len() == a.len(),
    ensures
        wins_spec(derive_spec(q, a)) <==> q == a,
{
    let r = derive_spec(q, a);
    if wins_spec(r) {
        assert forall|i: int| 0 <= i < q.len() implies q[i] == a[i] by {
            assert(r[i] == outcome_at(q, a, i));
            assert(r[i] is Green);
        }
        assert(q =~= a);
    }
    if q == a {
        assert forall|i: int| 0 <= i < r.len() implies (#[trigger] r[i]) is Green by {
            assert(r[i] == outcome_at(q, a, i));
        }
    }
}

/// Filtering an empty multiset keeps it empty.
proof fn lemma_multiset_filter_empty(pred: spec_fn(Seq<char>) -> bool)
    ensures
        Multiset::<Seq<char>>::empty().filter(pred) =~= Multiset::<Seq<char>>::empty(),
        Multiset::<Seq<char>>::empty().filter(pred).len() == 0,
{
    broadcast use vstd::multiset::group_multiset_axioms;

    let e = Multiset::<Seq<char>>::empty();
    assert forall|v: Seq<char>| e.filter(pred).count(v) == 0int by {
        assert(e.filter(pred).count(v) == if pred(v) {
            e.count(v)
        } else {
            0
        });
    }
    assert(e.filter(pred) =~= e);
}

/// Filtering after inserting one element is inserting it, if it passes,
/// into the filtered multiset.
proof fn lemma_multiset_filter_insert(
    m: Multiset<Seq<char>>,
    x: Seq<char>,
    pred: spec_fn(Seq<char>) -> bool,
)
    ensures
        pred(x) ==> m.insert(x).filter(pred) =~= m.filter(pred).insert(x),
        !pred(x) ==> m.insert(x).filter(pred) =~= m.filter(pred),
        m.insert(x).filter(pred).len() == m.filter(pred).len() + if pred(x) {
            1int
        } else {
            0int
        },
{
    broadcast use vstd::multiset::group_multiset_axioms;

    if pred(x) {
        assert(m.insert(x).filter(pred) =~= m.filter(pred).insert(x));
        vstd::multiset::lemma_insert_len(m.filter(pred), x);
    } else {
        assert(m.insert(x).filter(pred) =~= m.filter(pred));
    }
}

/// A feedback class's size is a function of the candidate multiset alone.
proof fn lemma_gs_multiset(q: Seq<char>, ws: Seq<Seq<char>>, id: int)
    ensures
        gs(q, ws, id) == ws.to_multiset().filter(|w: Seq<char>| mask_id(q, w) == id).len(),
    decreases ws.len(),
{
    let pred = |w: Seq<char>| mask_id(q, w) == id;
    if ws.len() == 0 {
        ws.to_multiset_ensures();
        assert(ws.to_multiset().len() == 0);
        broadcast use vstd::multiset::group_multiset_axioms;

        assert(ws.to_multiset() =~= Multiset::<Seq<char>>::empty());
        lemma_multiset_filter_empty(pred);
    } else {
        let dl = ws.drop_last();
        lemma_gs_multiset(q, dl, id);
        dl.to_multiset_ensures();
        assert(ws =~= dl.push(ws.last()));
        assert(ws.to_multiset() == dl.to_multiset().insert(ws.last()));
        lemma_multiset_filter_insert(dl.to_multiset(), ws.last(), pred);
    }
}

proof fn lemma_score_upto_congruent(
    q: Seq<char>,
    ws1: Seq<Seq<char>>,
    ws2: Seq<Seq<char>>,
    k: int,
)
    requires
        forall|id: int| gs(q, ws1, id) == gs(q, ws2, id),
    ensures
        score_upto(q, ws1, k) == score_upto(q, ws2, k),
    decreases k,
{
    if k > 0 {
        lemma_score_upto_congruent(q, ws1, ws2, k - 1);
    }
}

/// Order independence: a guess's score depends only on the multiset of
/// candidate words, not on their order. The other half of the property —
/// deterministic first-occurrence tie-breaking — is what
/// [`crate::entropy::lemma_best_upto`] states of the selection.
pub proof fn lemma_score_order_independent(q: Seq<char>, ws1: Seq<Seq<char>>, ws2: Seq<Seq<char>>)
    requires
        ws1.to_multiset() == ws2.to_multiset(),
    ensures
        score(q, ws1) == score(q, ws2),
{
    assert forall|id: int| gs(q, ws1, id) == gs(q, ws2, id) by {
        lemma_gs_multiset(q, ws1, id);
        lemma_gs_multiset(q, ws2, id);
    }
    lemma_score_upto_congruent(q, ws1, ws2, pow3_len(q));
}

/// The class-count range the score sums over, as one name.
spec fn pow3_len(q: Seq<char>) -> int {
    crate::entropy::pow3(q.len()) as int
}

/// The word lists a game tracks after any sequence of observed rules, each
/// applied as a filter in turn.
pub open spec fn apply_rules(rules: Seq<Seq<State>>, ws: Seq<Seq<char>>) -> Seq<Seq<char>>
    decreases rules.len(),
{
    if rules.len() == 0 {
        ws
    } else {
        filter_spec(rules.last(), apply_rules(rules.drop_last(), ws))
    }
}

/// Monotonic shrinkage: across any sequence of rounds a tracked word list
/// never grows — each observed rule keeps it the same or shrinks it, and
/// after all rounds it is no longer than at the start. In hard mode the
/// allowed-query list is filtered by the same rules, so the same holds of
/// it.
pub proof fn lemma_monotonic_shrinkage(rules: Seq<Seq<State>>, ws: Seq<Seq<char>>)
    ensures
        apply_rules(rules, ws).len() <= ws.len(),
        forall|k: int| 0 <= k < rules.len() ==> #[trigger] apply_rules(rules.take(k + 1), ws).len()
            <= apply_rules(rules.take(k), ws).len(),
    decreases rules.len(),
{
    if rules.len() > 0 {
        let dl = rules.drop_last();
        lemma_monotonic_shrinkage(dl, ws);
        lemma_filter_membership(rules.last(), apply_rules(dl, ws));
        assert forall|k: int|
            0 <= k < rules.len() implies #[trigger] apply_rules(rules.take(k + 1), ws).len()
            <= apply_rules(rules.take(k), ws).len() by {
            if k < rules.len() - 1 {
                assert(rules.take(k + 1) =~= dl.take(k + 1));
                assert(rules.take(k) =~= dl.take(k));
            } else {
                assert(rules.take(k + 1) =~= rules);
                assert(rules.take(k) =~= dl);
                lemma_filter_membership(rules.last(), apply_rules(dl, ws));
            }
        }
    }
}

/// A rule that one listed word fails to satisfy filters the list to
/// strictly fewer words.
proof fn lemma_filter_drops(r: Seq<State>, ws: Seq<Seq<char>>, x: Seq<char>)
    requires
        ws.contains(x),
        !consistent_spec(r, x),
    ensures
        filter_spec(r, ws).len() < ws.len(),
    decreases ws.len(),
{
    reveal(Seq::filter);
    let dl = ws.drop_last();
    lemma_filter_membership(r, dl);
    if ws.last() == x {
    } else {
        let j = choose|j: int| 0 <= j < ws.len() && ws[j] == x;
        assert(dl[j] == x);
        assert(dl.contains(x));
        lemma_filter_drops(r, dl, x);
    }
}

/// The hidden answer always survives a round played against it.
pub proof fn lemma_truth_survives(q: Seq<char>, t: Seq<char>, ws: Seq<Seq<char>>)
    requires
        q.len() == t.len(),
        ws.contains(t),
    ensures
        filter_spec(derive_spec(q, t), ws).contains(t),
        filter_spec(derive_spec(q, t), ws).len() >= 1,
{
    lemma_self_consistency(q, t);
    lemma_filter_membership(derive_spec(q, t), ws);
    let out = filter_spec(derive_spec(q, t), ws);
    assert(out.contains(t));
    let j = choose|j: int| 0 <= j < out.len() && out[j] == t;
}

/// Termination, per round: a guess drawn from the candidate list either
/// wins or is itself eliminated, so each such round strictly shrinks the
/// candidate list. A simulated game whose guesses stay inside the
/// candidate list therefore ends within as many rounds as there are
/// candidates.
pub proof fn lemma_member_guess_shrinks(q: Seq<char>, t: Seq<char>, ws: Seq<Seq<char>>)
    requires
        q.len() == t.len(),
        ws.contains(q),
        !wins_spec(derive_spec(q, t)),
    ensures
        filter_spec(derive_spec(q, t), ws).len() < ws.len(),
{
    let r = derive_spec(q, t);
    let i = choose|i: int| 0 <= i < r.len() && !((#[trigger] r[i]) is Green);
    assert(r[i] == outcome_at(q, t, i));
    assert(q.contains(q[i]));
    assert(!state_ok(r[i], q[i], q));
    assert(!consistent_spec(r, q));
    lemma_filter_drops(r, ws, q);
}


/// The candidate lists of a simulated game: `ws` filtered, guess by guess,
/// by the feedback each guess of `qs` yields against the hidden answer `t`.
pub open spec fn sim_rounds(t: Seq<char>, qs: Seq<Seq<char>>, ws: Seq<Seq<char>>) -> Seq<
    Seq<char>,
>
    decreases qs.len(),
{
    if qs.len() == 0 {
        ws
    } else {
        filter_spec(derive_spec(qs.last(), t), sim_rounds(t, qs.drop_last(), ws))
    }
}

/// Termination, in general: in a simulated game whose every guess is drawn
/// from the then-current candidate list and never wins, each round costs
/// one candidate, so no more rounds can be played than there were
/// candidates at the start. Together with the per-round shrinkage this
/// bounds any such game by the size of its corpus.
pub proof fn lemma_member_rounds_bounded(t: Seq<char>, qs: Seq<Seq<char>>, ws: Seq<Seq<char>>)
    requires
        forall|k: int| 0 <= k < qs.len() ==> (#[trigger] qs[k]).len() == t.len(),
        forall|k: int| 0 <= k < qs.len() ==> sim_rounds(t, qs.take(k), ws).contains(
            #[trigger] qs[k],
        ),
        forall|k: int| 0 <= k < qs.len() ==> !wins_spec(derive_spec(#[trigger] qs[k], t)),
    ensures
        sim_rounds(t, qs, ws).len() + qs.len() <= ws.len(),
    decreases qs.len(),
{
    if qs.len() > 0 {
        let dl = qs.drop_last();
        let q = qs.last();
        assert forall|k: int| 0 <= k < dl.len() implies sim_rounds(t, dl.take(k), ws).contains(
            #[trigger] dl[k],
        ) by {
            assert(dl.take(k) =~= qs.take(k));
            assert(dl[k] == qs[k]);
        }
        lemma_member_rounds_bounded(t, dl, ws);
        let mid = sim_rounds(t, dl, ws);
        assert(qs.take(qs.len() - 1) =~= dl);
        assert(mid.contains(q));
        lemma_member_guess_shrinks(q, t, mid);
    }
}

/// The feedback classes the scorer counts are exactly the classes of equal
/// feedback: two candidates share a class index if and only if the guess
/// yields the same feedback against both.
pub proof fn lemma_classes_are_feedback(q: Seq<char>, w1: Seq<char>, w2: Seq<char>)
    requires
        w1.len() == q.len(),
        w2.len() == q.len(),
    ensures
        mask_id(q, w1) == mask_id(q, w2) <==> derive_spec(q, w1) == derive_spec(q, w2),
{
    if mask_id(q, w1) == mask_id(q, w2) {
        lemma_mask_prefix_injective(q, w1, w2, q.len() as int);
        assert forall|i: int| 0 <= i < q.len() implies outcome_at(q, w1, i) == outcome_at(
            q,
            w2,
            i,
        ) by {
            assert(trit(q, w1, i) == trit(q, w2, i));
        }
        assert(derive_spec(q, w1) =~= derive_spec(q, w2));
    }
    if derive_spec(q, w1) == derive_spec(q, w2) {
        assert forall|i: int| 0 <= i < q.len() implies trit(q, w1, i) == trit(q, w2, i) by {
            assert(derive_spec(q, w1)[i] == derive_spec(q, w2)[i]);
            assert(outcome_at(q, w1, i) == outcome_at(q, w2, i));
        }
        lemma_mask_prefix_congruent(q, w1, w2, q.len() as int);
    }
}

proof fn lemma_mask_prefix_congruent(q: Seq<char>, w1: Seq<char>, w2: Seq<char>, k: int)
    requires
        forall|i: int| 0 <= i < k ==> trit(q, w1, i) == trit(q, w2, i),
    ensures
        mask_id_prefix(q, w1, k) == mask_id_prefix(q, w2, k),
    decreases k,
{
    if k > 0 {
        lemma_mask_prefix_congruent(q, w1, w2, k - 1);
    }
}

proof fn lemma_mask_prefix_injective(q: Seq<char>, w1: Seq<char>, w2: Seq<char>, k: int)
    requires
        mask_id_prefix(q, w1, k) == mask_id_prefix(q, w2, k),
    ensures
        forall|i: int| 0 <= i < k ==> trit(q, w1, i) == trit(q, w2, i),
    decreases k,
{
    if k > 0 {
        let p1 = mask_id_prefix(q, w1, k - 1);
        let p2 = mask_id_prefix(q, w2, k - 1);
        let t1 = trit(q, w1, k - 1);
        let t2 = trit(q, w2, k - 1);
        assert(t1 == t2 && p1 == p2) by (nonlinear_arith)
            requires
                p1 * 3 + t1 == p2 * 3 + t2,
                0 <= t1 < 3,
                0 <= t2 < 3,
        ;
        lemma_mask_prefix_injective(q, w1, w2, k - 1);
    }
}

} // verus!
