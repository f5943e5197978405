//! Tokens and the tokenizer: a text becomes a sequence of words, each with
//! the exact stretch of text it covers.

use vstd::prelude::*;
use crate::text::{word_char, lower_of, is_word_char, lowercase, push_char, chars_of};

verus! {

/// One word of a text, with the filler that follows it.
#[derive(Debug, PartialEq, Clone)]
pub struct Word {
    /// The word part, lowercased; repetitions are found by comparing these.
    pub pure_word: String,
    /// The exact text covered: the word and its trailing filler.
    pub original_word: String,
    pub repeated: bool,
    /// Index of the word in the text, from 0.
    pub word_position: u32,
    /// Index of the paragraph the word belongs to, from 0.
    pub paragraph: u32,
}

/// What a `Word` stands for.
pub struct WordView {
    pub pure: Seq<char>,
    pub original: Seq<char>,
    pub repeated: bool,
    pub position: nat,
    pub paragraph: nat,
}

impl View for Word {
    type V = WordView;

    open spec fn view(&self) -> WordView {
        WordView {
            pure: self.pure_word@,
            original: self.original_word@,
            repeated: self.repeated,
            position: self.word_position as nat,
            paragraph: self.paragraph as nat,
        }
    }
}

pub open spec fn words_view(ws: Seq<Word>) -> Seq<WordView> {
    ws.map_values(|w: Word| w@)
}

/// A character that may continue a word: a word character or an apostrophe.
pub open spec fn in_word(c: char) -> bool {
    word_char(c) || c == '\''
}

/// `t` is the text of one token whose word part is its first `w` characters:
/// a word character, then word characters or apostrophes as far as they go,
/// then only characters that are not word characters.
pub open spec fn token_shape(t: Seq<char>, w: int) -> bool {
    &&& 0 < w <= t.len()
    &&& word_char(t[0])
    &&& forall|k: int| 0 <= k < w ==> in_word(#[trigger] t[k])
    &&& forall|k: int| w <= k < t.len() ==> !word_char(#[trigger] t[k])
    &&& w < t.len() ==> t[w] != '\''
}

/// The texts of the words, joined in order.
pub open spec fn originals(ws: Seq<WordView>) -> Seq<char>
    decreases ws.len(),
{
    if ws.len() == 0 {
        Seq::empty()
    } else {
        originals(ws.drop_last()) + ws.last().original
    }
}

/// How many of the words end a paragraph: their text holds a line break.
pub open spec fn breaks(ws: Seq<WordView>) -> nat
    decreases ws.len(),
{
    if ws.len() == 0 {
        0
    } else {
        breaks(ws.drop_last()) + if ws.last().original.contains('\n') { 1nat } else { 0nat }
    }
}

/// `body` is `s` without the characters before its first word character.
pub open spec fn after_leading_filler(s: Seq<char>, body: Seq<char>) -> bool {
    &&& body.len() <= s.len()
    &&& body == s.subrange(s.len() - body.len(), s.len() as int)
    &&& forall|k: int| 0 <= k < s.len() - body.len() ==> !word_char(#[trigger] s[k])
    &&& body.len() > 0 ==> word_char(body[0])
}

/// The word at index `i`, with its word part as its first `w` characters,
/// is as a fresh tokenization makes it: unflagged, at position `i`, in the
/// paragraph after as many breaks as the words before it hold.
pub open spec fn token_core(ws: Seq<WordView>, i: int, w: int) -> bool {
    &&& token_shape(ws[i].original, w)
    &&& ws[i].pure == lower_of(ws[i].original.take(w))
    &&& !ws[i].repeated
    &&& ws[i].position == i
    &&& ws[i].paragraph == breaks(ws.take(i))
}

/// As `token_core`, and only the last word may end without filler.
pub open spec fn token_at(ws: Seq<WordView>, i: int, w: int) -> bool {
    &&& token_core(ws, i, w)
    &&& w == ws[i].original.len() ==> i == ws.len() - 1
}

/// The word at index `i` of a fresh tokenization.
pub open spec fn fresh_token(ws: Seq<WordView>, i: int) -> bool {
    exists|w: int| #[trigger] token_at(ws, i, w)
}

/// `ws` is the tokenization of `s`.
pub open spec fn tokenization(s: Seq<char>, ws: Seq<WordView>) -> bool {
    &&& after_leading_filler(s, originals(ws))
    &&& forall|i: int| 0 <= i < ws.len() ==> fresh_token(ws, i)
}

proof fn lemma_take_push(ws: Seq<WordView>, x: WordView, i: int)
    requires
        0 <= i <= ws.len(),
    ensures
        ws.push(x).take(i) == ws.take(i),
{
    assert(ws.push(x).take(i) =~= ws.take(i));
}

/// Splits a text into words. A word starts with a word character and goes
/// on over word characters and apostrophes; the non-word characters after it
/// belong to it as filler. Characters before the first word character are
/// not covered by any word.
#[verifier::loop_isolation(false)]
pub fn split_text_into_words(s: String) -> (r: Vec<Word>)
    requires
        s@.len() <= u32::MAX,
    ensures
        tokenization(s@, words_view(r@)),
{
    let cs = chars_of(s.as_str());
    let n = cs.len();
    let mut i: usize = 0;
    while i < n && !is_word_char(cs[i])
        invariant
            cs@ == s@,
            n == cs.len(),
            i <= n,
            forall|k: int| 0 <= k < i ==> !word_char(#[trigger] cs@[k]),
        decreases n - i,
    {
        i = i + 1;
    }
    let ghost lead = i as int;
    let mut words: Vec<Word> = Vec::new();
    let mut paragraph: u32 = 0;
    let ghost mut cuts: Seq<int> = Seq::empty();
    while i < n
        invariant
            cs@ == s@,
            n == cs.len(),
            n <= u32::MAX,
            lead <= i <= n,
            forall|k: int| 0 <= k < lead ==> !word_char(#[trigger] cs@[k]),
            i < n ==> word_char(cs@[i as int]),
            lead < n ==> word_char(cs@[lead]),
            originals(words_view(words@)) == cs@.subrange(lead, i as int),
            words.len() <= i - lead,
            paragraph == breaks(words_view(words@)),
            paragraph <= words.len(),
            cuts.len() == words.len(),
            forall|j: int| 0 <= j < words.len() ==> token_core(words_view(words@), j, #[trigger] cuts[j]),
            forall|j: int| 0 <= j < words.len() - 1 ==> #[trigger] cuts[j] < words@[j].original_word@.len(),
            words.len() > 0 && i < n ==> cuts.last() < words@.last().original_word@.len(),
        decreases n - i,
    {
        let ghost start = i as int;
        let mut original = String::new();
        let mut word = String::new();
        let mut newline = false;
        while i < n && (is_word_char(cs[i]) || cs[i] == '\'')
            invariant
                n == cs.len(),
                0 <= start <= i <= n,
                start < n,
                original@ == cs@.subrange(start, i as int),
                word@ == cs@.subrange(start, i as int),
                forall|k: int| start <= k < i ==> in_word(#[trigger] cs@[k]),
                newline == (exists|k: int| start <= k < i && cs@[k] == '\n'),
            decreases n - i,
        {
            if cs[i] == '\n' {
                newline = true;
            }
            push_char(&mut original, cs[i]);
            push_char(&mut word, cs[i]);
            proof {
                assert(cs@.subrange(start, i + 1) =~= cs@.subrange(start, i as int).push(cs@[i as int]));
            }
            i = i + 1;
        }
        let ghost w = i - start;
        while i < n && !is_word_char(cs[i])
            invariant
                n == cs.len(),
                0 <= start,
                0 < w,
                start + w <= i <= n,
                original@ == cs@.subrange(start, i as int),
                forall|k: int| start + w <= k < i ==> !word_char(#[trigger] cs@[k]),
                newline == (exists|k: int| start <= k < i && cs@[k] == '\n'),
            decreases n - i,
        {
            if cs[i] == '\n' {
                newline = true;
            }
            push_char(&mut original, cs[i]);
            proof {
                assert(cs@.subrange(start, i + 1) =~= cs@.subrange(start, i as int).push(cs@[i as int]));
            }
            i = i + 1;
        }
        let pure_word = lowercase(word.as_str());
        let ghost old_words = words_view(words@);
        let item = Word {
            pure_word,
            original_word: original,
            repeated: false,
            word_position: words.len() as u32,
            paragraph,
        };
        words.push(item);
        proof {
            cuts = cuts.push(w);
            let ws = words_view(words@);
            assert(ws =~= old_words.push(item@));
            assert(ws.drop_last() =~= old_words);
            assert(cs@.subrange(lead, i as int) =~= cs@.subrange(lead, start) + item@.original);
            assert(item@.original.take(w) =~= word@);
            assert(token_shape(item@.original, w));
            if newline {
                let k = choose|k: int| start <= k < i && cs@[k] == '\n';
                assert(item@.original[k - start] == '\n');
            }
            if item@.original.contains('\n') {
                let k = choose|k: int| 0 <= k < item@.original.len() && item@.original[k] == '\n';
                assert(cs@[start + k] == '\n');
            }
            assert(newline == item@.original.contains('\n'));
            assert(i < n ==> w < item@.original.len());
            assert forall|j: int| 0 <= j < ws.len() implies token_core(ws, j, #[trigger] cuts[j]) by {
                lemma_take_push(old_words, item@, j);
                if j < old_words.len() {
                    assert(ws[j] == old_words[j]);
                } else {
                    assert(ws.take(j) =~= old_words);
                    assert(ws[j].original.take(w) == word@);
                }
            }
        }
        if newline {
            paragraph = paragraph + 1;
        }
    }
    proof {
        let ws = words_view(words@);
        assert forall|j: int| 0 <= j < ws.len() implies fresh_token(ws, j) by {
            assert(token_at(ws, j, cuts[j]));
        }
    }
    words
}

/// The word at `i` has the shape of a token, and ends without filler only
/// when it is the last.
pub open spec fn cut_at(ws: Seq<WordView>, i: int) -> bool {
    exists|w: int|
        #[trigger] token_shape(ws[i].original, w) && (w == ws[i].original.len() ==> i == ws.len()
            - 1)
}

/// Every word has the shape of a token, and only the last may end without
/// filler.
pub open spec fn well_cut(ws: Seq<WordView>) -> bool {
    forall|i: int| 0 <= i < ws.len() ==> #[trigger] cut_at(ws, i)
}

proof fn lemma_shape_unique(t: Seq<char>, w1: int, w2: int)
    requires
        token_shape(t, w1),
        token_shape(t, w2),
    ensures
        w1 == w2,
{
    if w1 < w2 {
        assert(in_word(t[w1]));
    } else if w2 < w1 {
        assert(in_word(t[w2]));
    }
}

proof fn lemma_originals_len(ws: Seq<WordView>)
    requires
        well_cut(ws),
        ws.len() > 0,
    ensures
        originals(ws).len() >= ws.last().original.len() > 0,
{
    assert(cut_at(ws, ws.len() - 1));
}

proof fn lemma_well_cut_drop_last(ws: Seq<WordView>)
    requires
        well_cut(ws),
        ws.len() > 0,
    ensures
        well_cut(ws.drop_last()),
{
    let d = ws.drop_last();
    assert forall|i: int| 0 <= i < d.len() implies #[trigger] cut_at(d, i) by {
        assert(cut_at(ws, i));
        let w = choose|w: int|
            #[trigger] token_shape(ws[i].original, w) && (w == ws[i].original.len() ==> i
                == ws.len() - 1);
        assert(token_shape(d[i].original, w));
    }
}

/// The last word of `a` cannot be shorter than that of `b` when both cut
/// the same text.
proof fn lemma_last_not_shorter(a: Seq<WordView>, b: Seq<WordView>)
    requires
        well_cut(a),
        well_cut(b),
        a.len() > 0,
        b.len() > 0,
        originals(a) == originals(b),
    ensures
        a.last().original.len() >= b.last().original.len(),
{
    let t = originals(a);
    let ta = a.last().original;
    let tb = b.last().original;
    if ta.len() < tb.len() {
        let n = a.len();
        assert(t == originals(a.drop_last()) + ta);
        assert(t == originals(b.drop_last()) + tb);
        assert(cut_at(b, b.len() - 1));
        assert(cut_at(a, a.len() - 1));
        let wb = choose|w: int|
            #[trigger] token_shape(b[b.len() - 1].original, w) && (w == b[b.len()
                - 1].original.len() ==> b.len() - 1 == b.len() - 1);
        let wa = choose|w: int|
            #[trigger] token_shape(a[n - 1].original, w) && (w == a[n - 1].original.len() ==> n
                - 1 == n - 1);
        let p = tb.len() - ta.len();
        let q = t.len() - tb.len();
        // the last word of `a` starts inside the word part of the last word of `b`
        assert(t[q + p] == ta[0]);
        assert(t[q + p] == tb[p]);
        assert(word_char(tb[p]));
        assert(p < wb);
        // so `a` has a word before its last one
        let prefix = originals(a.drop_last());
        assert(prefix.len() == t.len() - ta.len());
        assert(prefix.len() > 0);
        assert(n >= 2) by {
            if n < 2 {
                assert(a.drop_last().len() == 0);
            }
        }
        let d = a.drop_last();
        lemma_well_cut_drop_last(a);
        let u = a[n - 2].original;
        assert(d.last() == a[n - 2]);
        assert(prefix == originals(d.drop_last()) + u);
        assert(cut_at(a, n - 2));
        let wu = choose|w: int|
            #[trigger] token_shape(a[n - 2].original, w) && (w == a[n - 2].original.len() ==> n
                - 2 == n - 1);
        let su = prefix.len() - u.len();
        // the filler of that word starts with a character that cannot continue a word
        assert(t[su + wu] == u[wu]);
        assert(!in_word(u[wu]));
        // which lies before the last word of `b`, whose word part is all word characters
        assert forall|k: int| q <= k < q + p implies in_word(#[trigger] t[k]) by {
            assert(t[k] == tb[k - q]);
        }
        assert(su + wu < q) by {
            if su + wu >= q {
                assert(in_word(t[su + wu]));
            }
        }
        // so the first character of that last word falls in the filler
        assert(t[q] == u[q - su]);
        assert(!word_char(u[q - su]));
        assert(t[q] == tb[0]);
    }
}

proof fn lemma_cuts_unique(a: Seq<WordView>, b: Seq<WordView>)
    requires
        well_cut(a),
        well_cut(b),
        originals(a) == originals(b),
    ensures
        a.len() == b.len(),
        forall|i: int| 0 <= i < a.len() ==> (#[trigger] a[i]).original == b[i].original,
    decreases a.len(),
{
    if a.len() == 0 {
        if b.len() > 0 {
            lemma_originals_len(b);
        }
    } else if b.len() == 0 {
        lemma_originals_len(a);
    } else {
        lemma_last_not_shorter(a, b);
        lemma_last_not_shorter(b, a);
        let t = originals(a);
        let ta = a.last().original;
        let tb = b.last().original;
        assert(t == originals(a.drop_last()) + ta);
        assert(t == originals(b.drop_last()) + tb);
        assert(ta =~= t.subrange(t.len() - ta.len(), t.len() as int));
        assert(tb =~= t.subrange(t.len() - tb.len(), t.len() as int));
        assert(originals(a.drop_last()) =~= t.subrange(0, t.len() - ta.len()));
        assert(originals(b.drop_last()) =~= t.subrange(0, t.len() - tb.len()));
        lemma_well_cut_drop_last(a);
        lemma_well_cut_drop_last(b);
        lemma_cuts_unique(a.drop_last(), b.drop_last());
        assert forall|i: int| 0 <= i < a.len() implies (#[trigger] a[i]).original == b[i].original by {
            if i < a.len() - 1 {
                assert(a.drop_last()[i] == a[i]);
                assert(b.drop_last()[i] == b[i]);
            }
        }
    }
}

proof fn lemma_breaks_same(a: Seq<WordView>, b: Seq<WordView>)
    requires
        a.len() == b.len(),
        forall|i: int| 0 <= i < a.len() ==> (#[trigger] a[i]).original == b[i].original,
    ensures
        breaks(a) == breaks(b),
    decreases a.len(),
{
    if a.len() > 0 {
        assert forall|i: int| 0 <= i < a.len() - 1 implies (#[trigger] a.drop_last()[i]).original
            == b.drop_last()[i].original by {
            assert(a[i].original == b[i].original);
        }
        lemma_breaks_same(a.drop_last(), b.drop_last());
    }
}

/// A text has one tokenization only.
pub proof fn lemma_tokenization_unique(s: Seq<char>, a: Seq<WordView>, b: Seq<WordView>)
    requires
        tokenization(s, a),
        tokenization(s, b),
    ensures
        a == b,
{
    let ba = originals(a);
    let bb = originals(b);
    if ba.len() < bb.len() {
        assert(word_char(bb[0]));
        assert(bb[0] == s[s.len() - bb.len()]);
    } else if bb.len() < ba.len() {
        assert(word_char(ba[0]));
        assert(ba[0] == s[s.len() - ba.len()]);
    }
    assert forall|i: int| 0 <= i < a.len() implies #[trigger] cut_at(a, i) by {
        assert(fresh_token(a, i));
        let w = choose|w: int| #[trigger] token_at(a, i, w);
        assert(token_shape(a[i].original, w));
    }
    assert forall|i: int| 0 <= i < b.len() implies #[trigger] cut_at(b, i) by {
        assert(fresh_token(b, i));
        let w = choose|w: int| #[trigger] token_at(b, i, w);
        assert(token_shape(b[i].original, w));
    }
    lemma_cuts_unique(a, b);
    assert forall|i: int| 0 <= i < a.len() implies a[i] == b[i] by {
        assert(fresh_token(a, i));
        assert(fresh_token(b, i));
        let wa = choose|w: int| #[trigger] token_at(a, i, w);
        let wb = choose|w: int| #[trigger] token_at(b, i, w);
        assert(a[i].original == b[i].original);
        lemma_shape_unique(a[i].original, wa, wb);
        assert forall|j: int| 0 <= j < a.take(i).len() implies (#[trigger] a.take(i)[j]).original
            == b.take(i)[j].original by {
            assert(a[j].original == b[j].original);
        }
        lemma_breaks_same(a.take(i), b.take(i));
    }
    assert(a =~= b);
}

} // verus!
