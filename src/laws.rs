//! General facts about the tokenizer and the detector.

use vstd::prelude::*;
use crate::text::word_char;
use crate::words::{WordView, tokenization, originals};
use crate::detector::{marked_up, flagged, recurs_nearby, same_word};
use crate::report::{repeated_lines, join_lines, lemma_word_line_single_line};
use crate::stop_words::pieces_of;

verus! {

/// None of the words is flagged yet.
pub open spec fn unflagged(ws: Seq<WordView>) -> bool {
    forall|k: int| 0 <= k < ws.len() ==> !(#[trigger] ws[k]).repeated
}

/// A text that is empty or starts with a word character is given back
/// exactly by joining the texts of its words.
pub proof fn lemma_reconstruction(s: Seq<char>, ws: Seq<WordView>)
    requires
        tokenization(s, ws),
        s.len() == 0 || word_char(s[0]),
    ensures
        originals(ws) == s,
{
    let body = originals(ws);
    if body.len() < s.len() {
        assert(!word_char(s[0]));
    }
    assert(s.subrange(0, s.len() as int) =~= s);
}

/// A stop word is never flagged: after detection on unflagged words it is
/// still unflagged, whatever stands around it.
pub proof fn lemma_stop_words_stay_unflagged(
    ws: Seq<WordView>,
    stops: Seq<Seq<char>>,
    lookahead: int,
    k: int,
)
    requires
        unflagged(ws),
        0 <= k < ws.len(),
        stops.contains(ws[k].pure),
    ensures
        !marked_up(ws, stops, lookahead)[k].repeated,
{
    assert(!ws[k].repeated);
}

/// When the word at `i` is no stop word and the word at `m`, at most
/// `lookahead` positions after it, has the same normalized form, detection
/// flags the word at `i`, and the word at `m` unless it is a stop word.
pub proof fn lemma_propagation(
    ws: Seq<WordView>,
    stops: Seq<Seq<char>>,
    lookahead: int,
    i: int,
    m: int,
)
    requires
        0 <= i < m < ws.len(),
        m - i <= lookahead,
        !stops.contains(ws[i].pure),
        ws[m].pure == ws[i].pure,
    ensures
        marked_up(ws, stops, lookahead)[i].repeated,
        !stops.contains(ws[m].pure) ==> marked_up(ws, stops, lookahead)[m].repeated,
{
    assert(same_word(ws, m, i));
    assert(recurs_nearby(ws, i, lookahead));
    assert(same_word(ws, i, m));
    assert(recurs_nearby(ws, m, lookahead));
}

/// Detection depends on its inputs alone: two runs on the same words, stop
/// words and distance give the same words.
pub proof fn lemma_mark_up_deterministic(
    ws: Seq<WordView>,
    stops: Seq<Seq<char>>,
    lookahead: int,
    first: Seq<WordView>,
    second: Seq<WordView>,
)
    requires
        first == marked_up(ws, stops, lookahead),
        second == marked_up(ws, stops, lookahead),
    ensures
        first == second,
{
}

/// Running detection again on its own result changes nothing.
pub proof fn lemma_mark_up_idempotent(ws: Seq<WordView>, stops: Seq<Seq<char>>, lookahead: int)
    ensures
        marked_up(marked_up(ws, stops, lookahead), stops, lookahead) == marked_up(
            ws,
            stops,
            lookahead,
        ),
{
    let once = marked_up(ws, stops, lookahead);
    let twice = marked_up(once, stops, lookahead);
    assert forall|k: int| 0 <= k < ws.len() implies flagged(once, stops, lookahead, k) == flagged(
        ws,
        stops,
        lookahead,
        k,
    ) by {
        if recurs_nearby(ws, k, lookahead) {
            let j = choose|j: int|
                0 <= j < ws.len() && j != k && k - lookahead <= j <= k + lookahead
                    && #[trigger] same_word(ws, j, k);
            assert(same_word(once, j, k));
        }
        if recurs_nearby(once, k, lookahead) {
            let j = choose|j: int|
                0 <= j < once.len() && j != k && k - lookahead <= j <= k + lookahead
                    && #[trigger] same_word(once, j, k);
            assert(same_word(ws, j, k));
        }
    }
    assert(twice =~= once);
}

/// With a look-ahead of zero no unflagged word gets flagged.
pub proof fn lemma_zero_lookahead(ws: Seq<WordView>, stops: Seq<Seq<char>>)
    requires
        unflagged(ws),
    ensures
        unflagged(marked_up(ws, stops, 0)),
{
    let r = marked_up(ws, stops, 0);
    assert forall|k: int| 0 <= k < r.len() implies !(#[trigger] r[k]).repeated by {
        assert(!ws[k].repeated);
        if recurs_nearby(ws, k, 0) {
            let j = choose|j: int|
                0 <= j < ws.len() && j != k && k - 0 <= j <= k + 0 && #[trigger] same_word(
                    ws,
                    j,
                    k,
                );
        }
    }
}

/// Fewer than two unflagged words stay unflagged, whatever the look-ahead.
pub proof fn lemma_too_few_words(ws: Seq<WordView>, stops: Seq<Seq<char>>, lookahead: int)
    requires
        unflagged(ws),
        ws.len() < 2,
    ensures
        unflagged(marked_up(ws, stops, lookahead)),
{
    let r = marked_up(ws, stops, lookahead);
    assert forall|k: int| 0 <= k < r.len() implies !(#[trigger] r[k]).repeated by {
        assert(!ws[k].repeated);
        if recurs_nearby(ws, k, lookahead) {
            let j = choose|j: int|
                0 <= j < ws.len() && j != k && k - lookahead <= j <= k + lookahead
                    && #[trigger] same_word(ws, j, k);
        }
    }
}

proof fn lemma_repeated_lines_are_lines(ws: Seq<WordView>)
    ensures
        forall|i: int|
            0 <= i < repeated_lines(ws).len() ==> !(#[trigger] repeated_lines(ws)[i]).contains('\n'),
    decreases ws.len(),
{
    if ws.len() > 0 {
        lemma_repeated_lines_are_lines(ws.drop_last());
        lemma_word_line_single_line(ws.last());
        let before = repeated_lines(ws.drop_last());
        assert forall|i: int| 0 <= i < repeated_lines(ws).len() implies !(
        #[trigger] repeated_lines(ws)[i]).contains('\n') by {
            if i < before.len() {
                assert(repeated_lines(ws)[i] == before[i]);
            }
        }
    }
}

/// A report that lists any word has one line per repeated word: cut at its
/// line breaks, it gives the lines of the repeated words, in order.
pub proof fn lemma_report_one_line_per_word(ws: Seq<WordView>)
    requires
        repeated_lines(ws).len() > 0,
    ensures
        pieces_of(join_lines(repeated_lines(ws)), '\n', repeated_lines(ws)),
{
    lemma_repeated_lines_are_lines(ws);
}

} // verus!
