//! The frequency-based reference strategy: a baseline comparator with no
//! lookahead.
use vstd::prelude::*;

use crate::model::{all_len, views};
use crate::{Strategy, Word};

verus! {

/// The reference guess-selection policy. It builds a guess column by
/// column: for each position, the letter occurring most often among the
/// possible answers at that position, skipping letters already placed
/// earlier in the same guess so a repeated letter cannot waste a column.
pub struct Baseline;

impl Strategy for Baseline {
    fn select_query(&self, full_word_list: &Vec<Word>, valid_words: &Vec<Word>) -> (r: Word)
        ensures
            r@ == baseline_word(views(valid_words@), valid_words@[0]@.len() as int),
    {
        let _ = full_word_list;
        select_frequency_query(valid_words)
    }
}

/// The lowercase letter with code `c`: code `0` is `'a'`, code `25` is
/// `'z'`.
pub open spec fn letter_at(c: int) -> char {
    ((97 + c) as u8) as char
}

fn letter_code(c: usize) -> (r: char)
    requires
        c < 26,
    ensures
        r == letter_at(c as int),
{
    (97 + c as u8) as char
}

/// The number of words in `ws` whose letter at position `pos` is `c`.
pub open spec fn freq(ws: Seq<Seq<char>>, pos: int, c: char) -> nat
    decreases ws.len(),
{
    if ws.len() == 0 {
        0
    } else {
        freq(ws.drop_last(), pos, c) + if ws.last()[pos] == c {
            1nat
        } else {
            0nat
        }
    }
}

proof fn lemma_freq_take_step(ws: Seq<Seq<char>>, j: int, pos: int, c: char)
    requires
        0 <= j < ws.len(),
    ensures
        freq(ws.take(j + 1), pos, c) == freq(ws.take(j), pos, c) + if ws[j][pos] == c {
            1nat
        } else {
            0nat
        },
{
    assert(ws.take(j + 1).drop_last() =~= ws.take(j));
    assert(ws.take(j + 1).last() == ws[j]);
}

/// The code of the letter chosen for position `pos` among the codes below
/// `k`: the highest-frequency letter not already used in the prefix `pre`,
/// ties resolved in favor of the later code. `-1` when every such letter
/// is already used.
pub open spec fn best_letter(ws: Seq<Seq<char>>, pos: int, pre: Seq<char>, k: int) -> int
    decreases k,
{
    if k <= 0 {
        -1
    } else {
        let b = best_letter(ws, pos, pre, k - 1);
        if !pre.contains(letter_at(k - 1)) && (b == -1 || freq(ws, pos, letter_at(k - 1)) >= freq(
            ws,
            pos,
            letter_at(b),
        )) {
            k - 1
        } else {
            b
        }
    }
}

/// The guess the reference strategy builds over `ws`, up to length `n`:
/// each position takes its best letter given the letters already placed.
/// Should every letter be used up, `'a'` stands in; with word lengths
/// capped below the alphabet size that never happens.
pub open spec fn baseline_word(ws: Seq<Seq<char>>, n: int) -> Seq<char>
    decreases n,
{
    if n <= 0 {
        Seq::empty()
    } else {
        let pre = baseline_word(ws, n - 1);
        let b = best_letter(ws, n - 1, pre, 26);
        pre.push(
            if b == -1 {
                'a'
            } else {
                letter_at(b)
            },
        )
    }
}


proof fn lemma_letter_at_injective(c1: int, c2: int)
    requires
        0 <= c1 < 26,
        0 <= c2 < 26,
        letter_at(c1) == letter_at(c2),
    ensures
        c1 == c2,
{
    assert(letter_at(c1) as u32 == 97 + c1);
    assert(letter_at(c2) as u32 == 97 + c2);
}

/// What the letter choice guarantees: `-1` only when every candidate
/// letter is already used, and otherwise an unused letter's code in range.
proof fn lemma_best_letter_props(ws: Seq<Seq<char>>, pos: int, pre: Seq<char>, k: int)
    ensures
        best_letter(ws, pos, pre, k) == -1 ==> forall|c: int| 0 <= c < k ==> pre.contains(
            #[trigger] letter_at(c),
        ),
        best_letter(ws, pos, pre, k) != -1 ==> 0 <= best_letter(ws, pos, pre, k) < k
            && !pre.contains(letter_at(best_letter(ws, pos, pre, k))),
    decreases k,
{
    if k > 0 {
        lemma_best_letter_props(ws, pos, pre, k - 1);
    }
}

/// With fewer used letters than the alphabet has, some letter is free.
proof fn lemma_letter_available(ws: Seq<Seq<char>>, pos: int, pre: Seq<char>)
    requires
        pre.len() < 26,
    ensures
        best_letter(ws, pos, pre, 26) != -1,
{
    broadcast use vstd::seq_lib::seq_to_set_is_finite;

    if best_letter(ws, pos, pre, 26) == -1 {
        lemma_best_letter_props(ws, pos, pre, 26);
        let letters = Seq::new(26, |c: int| letter_at(c));
        assert(letters.no_duplicates()) by {
            assert forall|i: int, j: int|
                0 <= i < 26 && 0 <= j < 26 && i != j implies letters[i] != letters[j] by {
                if letters[i] == letters[j] {
                    lemma_letter_at_injective(i, j);
                }
            }
        }
        letters.unique_seq_to_set();
        pre.lemma_cardinality_of_set();
        assert(letters.to_set().subset_of(pre.to_set())) by {
            assert forall|x: char| letters.to_set().contains(x) implies pre.to_set().contains(
                x,
            ) by {
                let c = choose|c: int| 0 <= c < 26 && letters[c] == x;
                assert(pre.contains(letter_at(c)));
            }
        }
        vstd::set_lib::lemma_len_subset(letters.to_set(), pre.to_set());
        assert(false);
    }
}

proof fn lemma_baseline_word_len(ws: Seq<Seq<char>>, n: int)
    ensures
        baseline_word(ws, n).len() == if n <= 0 {
            0int
        } else {
            n
        },
    decreases n,
{
    if n > 0 {
        lemma_baseline_word_len(ws, n - 1);
    }
}

/// The reference strategy never repeats a letter: as long as the guess is
/// shorter than the alphabet, its letters are pairwise distinct.
pub proof fn lemma_baseline_distinct(ws: Seq<Seq<char>>, n: int)
    requires
        0 <= n <= 26,
    ensures
        forall|i: int, j: int|
            0 <= i < j < n ==> baseline_word(ws, n)[i] != baseline_word(ws, n)[j],
    decreases n,
{
    if n > 0 {
        lemma_baseline_distinct(ws, n - 1);
        lemma_baseline_word_len(ws, n - 1);
        let pre = baseline_word(ws, n - 1);
        lemma_letter_available(ws, n - 1, pre);
        let b = best_letter(ws, n - 1, pre, 26);
        lemma_best_letter_props(ws, n - 1, pre, 26);
        let bw = baseline_word(ws, n);
        assert forall|i: int, j: int| 0 <= i < j < n implies bw[i] != bw[j] by {
            assert(bw == pre.push(letter_at(b)));
            if j < n - 1 {
                assert(bw[i] == pre[i] && bw[j] == pre[j]);
            } else {
                assert(bw[j] == letter_at(b));
                assert(bw[i] == pre[i]);
                assert(pre.contains(pre[i]));
            }
        }
    }
}

fn vec_has_char(v: &Vec<char>, c: char) -> (r: bool)
    ensures
        r == v@.contains(c),
{
    let mut i: usize = 0;
    while i < v.len()
        invariant
            i <= v@.len(),
            forall|k: int| 0 <= k < i ==> v@[k] != c,
        decreases v@.len() - i,
    {
        if v[i] == c {
            return true;
        }
        i = i + 1;
    }
    false
}

/// Counts the words whose letter at position `pos` is `c`.
fn count_at(words: &Vec<Word>, pos: usize, c: char) -> (r: usize)
    requires
        forall|i: int| 0 <= i < words@.len() ==> pos < (#[trigger] words@[i])@.len(),
    ensures
        r as nat == freq(views(words@), pos as int, c),
{
    let ghost vws = views(words@);
    let mut count: usize = 0;
    let mut j: usize = 0;
    proof {
        assert(vws.take(0).len() == 0);
    }
    while j < words.len()
        invariant
            j <= words@.len(),
            vws == views(words@),
            forall|i: int| 0 <= i < words@.len() ==> pos < (#[trigger] words@[i])@.len(),
            count as nat == freq(vws.take(j as int), pos as int, c),
            count <= j,
        decreases words@.len() - j,
    {
        proof {
            lemma_freq_take_step(vws, j as int, pos as int, c);
            assert(vws[j as int] == words@[j as int]@);
        }
        if words[j].letter(pos) == c {
            count = count + 1;
        }
        j = j + 1;
    }
    proof {
        assert(vws.take(words@.len() as int) =~= vws);
    }
    count
}

/// Builds the reference strategy's guess for the words `ws`: per position
/// the most frequent letter there, letters already placed excluded, ties
/// to the later letter.
pub fn select_frequency_query(words: &Vec<Word>) -> (r: Word)
    requires
        words@.len() >= 1,
        all_len(views(words@), words@[0]@.len()),
    ensures
        r@ == baseline_word(views(words@), words@[0]@.len() as int),
        r@.len() == words@[0]@.len(),
{
    let ghost vws = views(words@);
    proof {
        assert(vws[0] == words@[0]@);
    }
    let l = words[0].0.len();
    let mut query: Vec<char> = Vec::new();
    let mut n: usize = 0;
    while n < l
        invariant
            n <= l,
            l == words@[0]@.len(),
            words@.len() >= 1,
            vws == views(words@),
            all_len(vws, l as nat),
            query@ == baseline_word(vws, n as int),
            query@.len() == n,
        decreases l - n,
    {
        let mut best: usize = 26;
        let mut best_count: usize = 0;
        let mut c: usize = 0;
        while c < 26
            invariant
                c <= 26,
                best <= 26,
                n < l,
                l == words@[0]@.len(),
                words@.len() >= 1,
                vws == views(words@),
                all_len(vws, l as nat),
                query@.len() == n,
                best == 26 <==> best_letter(vws, n as int, query@, c as int) == -1,
                best < 26 ==> best as int == best_letter(vws, n as int, query@, c as int),
                best < 26 ==> best_count as nat == freq(vws, n as int, letter_at(best as int)),
            decreases 26 - c,
        {
            let ch = letter_code(c);
            let used = vec_has_char(&query, ch);
            proof {
                assert forall|i: int| 0 <= i < words@.len() implies n < (#[trigger] words@[i])@.len() by {
                    assert(vws[i] == words@[i]@);
                    assert(vws[i].len() == l);
                }
            }
            if !used {
                let cnt = count_at(words, n, ch);
                if best == 26 || cnt >= best_count {
                    best = c;
                    best_count = cnt;
                }
            }
            c = c + 1;
        }
        let chosen = if best == 26 {
            'a'
        } else {
            letter_code(best)
        };
        query.push(chosen);
        proof {
            assert(query@ =~= baseline_word(vws, n + 1));
        }
        n = n + 1;
    }
    Word(query)
}

} // verus!
