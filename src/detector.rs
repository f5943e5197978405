//! The repetition detector: flags each word whose normalized form comes back
//! within the look-ahead distance, on either side.

use vstd::prelude::*;
use crate::words::{Word, WordView, words_view};

verus! {

/// The stop words as texts.
pub open spec fn stop_view(stops: Seq<String>) -> Seq<Seq<char>> {
    stops.map_values(|s: String| s@)
}

/// The words at indices `a` and `b` have the same normalized form.
pub open spec fn same_word(ws: Seq<WordView>, a: int, b: int) -> bool {
    ws[a].pure == ws[b].pure
}

/// Another word at most `lookahead` positions away from index `k`, before or
/// after it, has the same normalized form.
pub open spec fn recurs_nearby(ws: Seq<WordView>, k: int, lookahead: int) -> bool {
    exists|j: int|
        0 <= j < ws.len() && j != k && k - lookahead <= j <= k + lookahead && #[trigger] same_word(
            ws,
            j,
            k,
        )
}

/// The detector flags the word at index `k`: it is no stop word and recurs nearby.
pub open spec fn flagged(ws: Seq<WordView>, stops: Seq<Seq<char>>, lookahead: int, k: int) -> bool {
    !stops.contains(ws[k].pure) && recurs_nearby(ws, k, lookahead)
}

/// `w` with its flag set to `repeated`.
pub open spec fn with_repeated(w: WordView, repeated: bool) -> WordView {
    WordView {
        pure: w.pure,
        original: w.original,
        repeated,
        position: w.position,
        paragraph: w.paragraph,
    }
}

/// The words after detection: a flagged word becomes repeated, every other
/// word keeps its flag.
pub open spec fn marked_up(ws: Seq<WordView>, stops: Seq<Seq<char>>, lookahead: int) -> Seq<
    WordView,
> {
    Seq::new(
        ws.len(),
        |k: int| with_repeated(ws[k], ws[k].repeated || flagged(ws, stops, lookahead, k)),
    )
}

/// `m` is the first index after `i`, at most `lookahead` further, whose word
/// has the same normalized form as the word at `i`.
pub open spec fn first_match_at(ws: Seq<WordView>, i: int, lookahead: int, m: int) -> bool {
    &&& 0 <= i < m < ws.len()
    &&& m - i <= lookahead
    &&& same_word(ws, m, i)
    &&& forall|t: int| i < t < m ==> !#[trigger] same_word(ws, t, i)
}

/// Between `j` and `k` there is a last occurrence of the word at `k`.
proof fn lemma_closest_earlier(ws: Seq<WordView>, j: int, k: int)
    requires
        0 <= j < k < ws.len(),
        same_word(ws, j, k),
    ensures
        exists|p: int|
            j <= p < k && same_word(ws, p, k) && forall|t: int|
                p < t < k ==> !#[trigger] same_word(ws, t, k),
    decreases k - j,
{
    if exists|t: int| j < t < k && #[trigger] same_word(ws, t, k) {
        let t = choose|t: int| j < t < k && #[trigger] same_word(ws, t, k);
        lemma_closest_earlier(ws, t, k);
    }
}

/// A word recurs within the distance before it exactly when an earlier word
/// that is no stop word has it as its first match.
proof fn lemma_earlier_match(ws: Seq<WordView>, stops: Seq<Seq<char>>, lookahead: int, k: int)
    requires
        0 <= k < ws.len(),
        !stops.contains(ws[k].pure),
    ensures
        (exists|j: int| 0 <= j < k && k - lookahead <= j && #[trigger] same_word(ws, j, k)) <==> (
        exists|p: int|
            0 <= p < k && !stops.contains(ws[p].pure) && #[trigger] first_match_at(
                ws,
                p,
                lookahead,
                k,
            )),
{
    if exists|j: int| 0 <= j < k && k - lookahead <= j && #[trigger] same_word(ws, j, k) {
        let j = choose|j: int| 0 <= j < k && k - lookahead <= j && #[trigger] same_word(ws, j, k);
        lemma_closest_earlier(ws, j, k);
        let p = choose|p: int|
            j <= p < k && same_word(ws, p, k) && forall|t: int|
                p < t < k ==> !#[trigger] same_word(ws, t, k);
        assert forall|t: int| p < t < k implies !#[trigger] same_word(ws, t, p) by {
            assert(!same_word(ws, t, k));
        }
        assert(first_match_at(ws, p, lookahead, k));
    }
    if exists|p: int|
        0 <= p < k && !stops.contains(ws[p].pure) && #[trigger] first_match_at(ws, p, lookahead, k) {
        let p = choose|p: int|
            0 <= p < k && !stops.contains(ws[p].pure) && #[trigger] first_match_at(
                ws,
                p,
                lookahead,
                k,
            );
        assert(same_word(ws, p, k));
    }
}

/// Whether `w` is one of the stop words.
fn is_stop_word(stop_words: &Vec<String>, w: &String) -> (r: bool)
    ensures
        r == stop_view(stop_words@).contains(w@),
{
    let ghost stops = stop_view(stop_words@);
    let mut i: usize = 0;
    while i < stop_words.len()
        invariant
            i <= stop_words.len(),
            stops == stop_view(stop_words@),
            forall|t: int| 0 <= t < i ==> stops[t] != w@,
        decreases stop_words.len() - i,
    {
        if stop_words[i] == *w {
            assert(stops[i as int] == w@);
            return true;
        }
        i = i + 1;
    }
    false
}

/// The first index after `i`, at most `lookahead` further, whose word has
/// the same normalized form as the word at `i`.
fn find_first_match(v: &Vec<Word>, i: usize, lookahead: usize) -> (r: Option<usize>)
    requires
        i < v.len(),
    ensures
        match r {
            Some(m) => first_match_at(words_view(v@), i as int, lookahead as int, m as int),
            None => forall|j: int|
                i < j < v.len() && j - i <= lookahead ==> !#[trigger] same_word(
                    words_view(v@),
                    j,
                    i as int,
                ),
        },
{
    let ghost ws = words_view(v@);
    let n = v.len();
    // the window ends at i + lookahead + 1, or at the end of the words
    let end = if lookahead < n - i - 1 {
        i + lookahead + 1
    } else {
        n
    };
    let mut j = i + 1;
    while j < end
        invariant
            ws == words_view(v@),
            n == v.len(),
            i < j <= end <= n,
            end - i - 1 <= lookahead,
            end < n ==> end - i - 1 == lookahead,
            forall|t: int| i < t < j ==> !#[trigger] same_word(ws, t, i as int),
        decreases end - j,
    {
        if v[j].pure_word == v[i].pure_word {
            return Some(j);
        }
        j = j + 1;
    }
    None
}

/// A copy of `w` with its flag set to `repeated`.
fn flag_copy(w: &Word, repeated: bool) -> (r: Word)
    ensures
        r@ == with_repeated(w@, repeated),
{
    Word {
        pure_word: w.pure_word.clone(),
        original_word: w.original_word.clone(),
        repeated,
        word_position: w.word_position,
        paragraph: w.paragraph,
    }
}

/// Flags repetitions. The words are taken in order; a stop word is passed
/// through as it is. Any other word is flagged when a later word with the
/// same normalized form stands at most `buffer_length` positions further on,
/// and that later word is remembered so that it gets flagged in its turn.
pub fn mark_up(v: Vec<Word>, stop_words: Vec<String>, buffer_length: usize) -> (r: Vec<Word>)
    ensures
        words_view(r@) == marked_up(words_view(v@), stop_view(stop_words@), buffer_length as int),
{
    let ghost ws = words_view(v@);
    let ghost stops = stop_view(stop_words@);
    let ghost la = buffer_length as int;
    let n = v.len();
    // pending[m]: an earlier word has its first match at m
    let mut pending: Vec<bool> = Vec::new();
    while pending.len() < n
        invariant
            forall|m: int| 0 <= m < pending.len() ==> !pending@[m],
            pending.len() <= n,
        decreases n - pending.len(),
    {
        pending.push(false);
    }
    let mut out: Vec<Word> = Vec::new();
    let mut i: usize = 0;
    while i < n
        invariant
            n == v.len(),
            ws == words_view(v@),
            stops == stop_view(stop_words@),
            la == buffer_length as int,
            i <= n,
            pending.len() == n,
            out.len() == i,
            forall|k: int| 0 <= k < i ==> (#[trigger] out@[k])@ == marked_up(ws, stops, la)[k],
            forall|m: int|
                0 <= m < n ==> (#[trigger] pending@[m] <==> exists|p: int|
                    0 <= p < i && !stops.contains(ws[p].pure) && #[trigger] first_match_at(
                        ws,
                        p,
                        la,
                        m,
                    )),
        decreases n - i,
    {
        let w = &v[i];
        if is_stop_word(&stop_words, &w.pure_word) {
            out.push(flag_copy(w, w.repeated));
            proof {
                assert forall|m: int| 0 <= m < n implies (#[trigger] pending@[m] <==> exists|p: int|
                    0 <= p < i + 1 && !stops.contains(ws[p].pure) && #[trigger] first_match_at(
                        ws,
                        p,
                        la,
                        m,
                    )) by {
                    if exists|p: int|
                        0 <= p < i + 1 && !stops.contains(ws[p].pure) && #[trigger] first_match_at(
                            ws,
                            p,
                            la,
                            m,
                        ) {
                        let p = choose|p: int|
                            0 <= p < i + 1 && !stops.contains(ws[p].pure) && #[trigger] first_match_at(
                                ws,
                                p,
                                la,
                                m,
                            );
                        assert(p != i);
                    }
                }
            }
        } else {
            let found = find_first_match(&v, i, buffer_length);
            proof {
                lemma_earlier_match(ws, stops, la, i as int);
            }
            match found {
                Some(m) => {
                    pending.set(m, true);
                    out.push(flag_copy(w, true));
                    proof {
                        assert(same_word(ws, m as int, i as int));
                        assert(recurs_nearby(ws, i as int, la));
                    }
                },
                None => {
                    let rep = w.repeated || pending[i];
                    out.push(flag_copy(w, rep));
                },
            }
        }
        i = i + 1;
    }
    proof {
        assert(words_view(out@) =~= marked_up(ws, stops, la));
    }
    out
}

} // verus!
