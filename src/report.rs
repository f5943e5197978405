//! The positional report: one fixed-width line per repeated word.

use vstd::prelude::*;
use vstd::utf8::encode_utf8;
use crate::words::{Word, WordView, words_view};
use crate::text::push_char;

verus! {

/// The digit character for `d` (below ten).
pub open spec fn digit(d: nat) -> char {
    ((48 + d) as u8) as char
}

/// The decimal notation of `n`.
pub open spec fn decimal(n: nat) -> Seq<char>
    decreases n,
{
    if n < 10 {
        seq![digit(n)]
    } else {
        decimal(n / 10).push(digit(n % 10))
    }
}

pub open spec fn pow10(k: nat) -> nat
    decreases k,
{
    if k == 0 {
        1
    } else {
        10 * pow10((k - 1) as nat)
    }
}

/// `k` spaces.
pub open spec fn spaces(k: nat) -> Seq<char> {
    Seq::new(k, |_i: int| ' ')
}

/// A line-break character.
pub open spec fn is_break(c: char) -> bool {
    c == '\n' || c == '\r'
}

/// `t` with each line-break character replaced by a space.
pub open spec fn breaks_as_spaces(t: Seq<char>) -> Seq<char>
    decreases t.len(),
{
    if t.len() == 0 {
        Seq::empty()
    } else if is_break(t.last()) {
        breaks_as_spaces(t.drop_last()).push(' ')
    } else {
        breaks_as_spaces(t.drop_last()).push(t.last())
    }
}

/// The length of `s` in UTF-8 bytes, as `str::len` gives it.
pub open spec fn byte_len(s: Seq<char>) -> nat {
    (encode_utf8(s).len() as usize) as nat
}

/// The spaces after a word's text: 20 less the UTF-8 length of its
/// normalized form, so that words whose fillers have the same length line
/// up; a single space for a normalized form longer than 20.
pub open spec fn word_pad(pure_len: nat) -> nat {
    if pure_len <= 20 {
        (20 - pure_len) as nat
    } else {
        1
    }
}

/// The report line of a word: its text with line breaks shown as spaces,
/// padded by `word_pad` of its normalized form; the paragraph counted from 1,
/// padded to 20 characters; and the position counted from 1.
pub open spec fn word_line(w: WordView) -> Seq<char> {
    let shown = breaks_as_spaces(w.original);
    "Word: "@ + shown + spaces(word_pad(byte_len(w.pure))) + "Paragraph: "@ + decimal(
        w.paragraph + 1,
    ) + spaces((20 - decimal(w.paragraph + 1).len()) as nat) + "Word Position: "@ + decimal(
        w.position + 1,
    )
}

proof fn lemma_breaks_as_spaces_has_none(t: Seq<char>)
    ensures
        forall|k: int| 0 <= k < breaks_as_spaces(t).len() ==> !is_break(#[trigger] breaks_as_spaces(t)[k]),
    decreases t.len(),
{
    if t.len() > 0 {
        lemma_breaks_as_spaces_has_none(t.drop_last());
        let r = breaks_as_spaces(t.drop_last());
        assert forall|k: int| 0 <= k < breaks_as_spaces(t).len() implies !is_break(
            #[trigger] breaks_as_spaces(t)[k],
        ) by {
            if k < r.len() {
                assert(breaks_as_spaces(t)[k] == r[k]);
            }
        }
    }
}

proof fn lemma_decimal_digits(n: nat)
    ensures
        forall|k: int| 0 <= k < decimal(n).len() ==> (#[trigger] decimal(n)[k]) != '\n',
    decreases n,
{
    if n >= 10 {
        lemma_decimal_digits(n / 10);
        let r = decimal(n / 10);
        assert(digit(n % 10) != '\n');
        assert forall|k: int| 0 <= k < decimal(n).len() implies (#[trigger] decimal(n)[k]) != '\n' by {
            if k < r.len() {
                assert(decimal(n)[k] == r[k]);
            }
        }
    } else {
        assert(digit(n) != '\n');
    }
}

/// A report line is a single line: it holds no line break.
pub proof fn lemma_word_line_single_line(w: WordView)
    ensures
        !word_line(w).contains('\n'),
{
    reveal_strlit("Word: ");
    reveal_strlit("Paragraph: ");
    reveal_strlit("Word Position: ");
    let shown = breaks_as_spaces(w.original);
    lemma_breaks_as_spaces_has_none(w.original);
    lemma_decimal_digits(w.paragraph + 1);
    lemma_decimal_digits(w.position + 1);
    let parts = seq![
        "Word: "@,
        shown,
        spaces(word_pad(byte_len(w.pure))),
        "Paragraph: "@,
        decimal(w.paragraph + 1),
        spaces((20 - decimal(w.paragraph + 1).len()) as nat),
        "Word Position: "@,
        decimal(w.position + 1),
    ];
    assert forall|i: int, k: int| 0 <= i < parts.len() && 0 <= k < parts[i].len() implies #[trigger] parts[i][k] != '\n' by {
        if i == 1 {
            assert(!is_break(shown[k]));
        }
    }
    let line = word_line(w);
    if line.contains('\n') {
        let k = choose|k: int| 0 <= k < line.len() && line[k] == '\n';
        let l0 = parts[0].len();
        let l1 = l0 + parts[1].len();
        let l2 = l1 + parts[2].len();
        let l3 = l2 + parts[3].len();
        let l4 = l3 + parts[4].len();
        let l5 = l4 + parts[5].len();
        let l6 = l5 + parts[6].len();
        if k < l0 {
            assert(line[k] == parts[0][k]);
        } else if k < l1 {
            assert(line[k] == parts[1][k - l0]);
        } else if k < l2 {
            assert(line[k] == parts[2][k - l1]);
        } else if k < l3 {
            assert(line[k] == parts[3][k - l2]);
        } else if k < l4 {
            assert(line[k] == parts[4][k - l3]);
        } else if k < l5 {
            assert(line[k] == parts[5][k - l4]);
        } else if k < l6 {
            assert(line[k] == parts[6][k - l5]);
        } else {
            assert(line[k] == parts[7][k - l6]);
        }
    }
}

/// Where the columns start: for a word whose normalized form has at most
/// 20 bytes, "Paragraph: " starts at character 26 plus the length of its
/// shown text less the byte length of its normalized form, and
/// "Word Position: " 31 characters later. So two words whose texts exceed
/// their normalized forms by as much share both columns.
pub proof fn lemma_word_line_columns(w: WordView)
    requires
        byte_len(w.pure) <= 20,
        w.paragraph <= u32::MAX,
    ensures
        ({
            let k = 26 + breaks_as_spaces(w.original).len() - byte_len(w.pure);
            &&& word_line(w).subrange(k, k + 11) == "Paragraph: "@
            &&& word_line(w).subrange(k + 31, k + 46) == "Word Position: "@
        }),
{
    reveal_strlit("Word: ");
    reveal_strlit("Paragraph: ");
    reveal_strlit("Word Position: ");
    reveal_with_fuel(pow10, 11);
    assert(pow10(10) == 10000000000nat);
    lemma_decimal_len(w.paragraph + 1, 10);
    let shown = breaks_as_spaces(w.original);
    let k = 26 + shown.len() - byte_len(w.pure);
    let head = "Word: "@ + shown + spaces(word_pad(byte_len(w.pure)));
    assert(head.len() == k);
    let mid = head + "Paragraph: "@;
    assert(mid.subrange(k, k + 11) =~= "Paragraph: "@);
    let num = decimal(w.paragraph + 1) + spaces((20 - decimal(w.paragraph + 1).len()) as nat);
    assert(num.len() == 20);
    let upto = mid + num;
    let line = upto + "Word Position: "@ + decimal(w.position + 1);
    assert(line == word_line(w));
    assert(line.subrange(k, k + 11) =~= mid.subrange(k, k + 11));
    assert(line.subrange(k + 31, k + 46) =~= "Word Position: "@);
}

/// The lines of the repeated words, in order.
pub open spec fn repeated_lines(ws: Seq<WordView>) -> Seq<Seq<char>>
    decreases ws.len(),
{
    if ws.len() == 0 {
        Seq::empty()
    } else if ws.last().repeated {
        repeated_lines(ws.drop_last()).push(word_line(ws.last()))
    } else {
        repeated_lines(ws.drop_last())
    }
}

/// Texts joined, with `sep` between neighbours.
pub open spec fn join_with(parts: Seq<Seq<char>>, sep: char) -> Seq<char>
    decreases parts.len(),
{
    if parts.len() == 0 {
        Seq::empty()
    } else if parts.len() == 1 {
        parts[0]
    } else {
        join_with(parts.drop_last(), sep) + seq![sep] + parts.last()
    }
}

/// Lines joined by line breaks.
pub open spec fn join_lines(lines: Seq<Seq<char>>) -> Seq<char> {
    join_with(lines, '\n')
}

proof fn lemma_decimal_len(n: nat, k: nat)
    requires
        n < pow10(k),
        k >= 1,
    ensures
        decimal(n).len() <= k,
    decreases n,
{
    if n >= 10 {
        let p = pow10((k - 1) as nat);
        assert(k >= 2) by {
            if k == 1 {
                assert(pow10(0) == 1);
            }
        }
        assert(n / 10 < p) by (nonlinear_arith)
            requires
                n < 10 * p,
        ;
        lemma_decimal_len(n / 10, (k - 1) as nat);
    }
}

/// The decimal notation of `n`.
fn decimal_string(n: u64) -> (r: String)
    ensures
        r@ == decimal(n as nat),
    decreases n,
{
    if n < 10 {
        let mut s = String::new();
        push_char(&mut s, ((48 + n) as u8) as char);
        s
    } else {
        let mut s = decimal_string(n / 10);
        push_char(&mut s, ((48 + n % 10) as u8) as char);
        s
    }
}

/// `k` spaces appended to `s`.
fn push_spaces(s: &mut String, k: usize)
    ensures
        final(s)@ == old(s)@ + spaces(k as nat),
{
    let mut i: usize = 0;
    while i < k
        invariant
            i <= k,
            s@ == old(s)@ + spaces(i as nat),
        decreases k - i,
    {
        push_char(s, ' ');
        proof {
            assert(spaces((i + 1) as nat) =~= spaces(i as nat).push(' '));
        }
        i = i + 1;
    }
}

/// `t` with each line-break character replaced by a space.
fn breaks_to_spaces(t: &str) -> (r: String)
    ensures
        r@ == breaks_as_spaces(t@),
{
    let cs = crate::text::chars_of(t);
    let mut out = String::new();
    let mut i: usize = 0;
    while i < cs.len()
        invariant
            cs@ == t@,
            i <= cs.len(),
            out@ == breaks_as_spaces(cs@.take(i as int)),
        decreases cs.len() - i,
    {
        proof {
            assert(cs@.take(i + 1).drop_last() =~= cs@.take(i as int));
        }
        let c = cs[i];
        if c == '\n' || c == '\r' {
            push_char(&mut out, ' ');
        } else {
            push_char(&mut out, c);
        }
        i = i + 1;
    }
    proof {
        assert(cs@.take(cs.len() as int) =~= cs@);
    }
    out
}

impl Word {
    /// The report line of the word.
    pub fn represent(&self) -> (r: String)
        ensures
            r@ == word_line(self@),
    {
        let shown = breaks_to_spaces(self.original_word.as_str());
        let pure_len = self.pure_word.as_str().len();
        let pad = if pure_len <= 20 {
            20 - pure_len
        } else {
            1
        };
        let paragraph = decimal_string(self.paragraph as u64 + 1);
        proof {
            reveal_with_fuel(pow10, 11);
            assert(pow10(10) == 10000000000nat);
            lemma_decimal_len(self.paragraph as nat + 1, 10);
        }
        let paragraph_pad = 20 - paragraph.as_str().unicode_len();
        let mut s = String::new();
        s.append("Word: ");
        s.append(shown.as_str());
        push_spaces(&mut s, pad);
        s.append("Paragraph: ");
        s.append(paragraph.as_str());
        push_spaces(&mut s, paragraph_pad);
        s.append("Word Position: ");
        let position = decimal_string(self.word_position as u64 + 1);
        s.append(position.as_str());
        proof {
            assert(s@ =~= word_line(self@));
        }
        s
    }
}

/// One line per repeated word, in order, joined by line breaks; empty when
/// no word is repeated.
pub fn report(v: &Vec<Word>) -> (r: String)
    ensures
        r@ == join_lines(repeated_lines(words_view(v@))),
{
    let ghost ws = words_view(v@);
    let mut out = String::new();
    let mut any = false;
    let mut i: usize = 0;
    while i < v.len()
        invariant
            ws == words_view(v@),
            i <= v.len(),
            out@ == join_lines(repeated_lines(ws.take(i as int))),
            any == (repeated_lines(ws.take(i as int)).len() > 0),
        decreases v.len() - i,
    {
        let w = &v[i];
        proof {
            assert(ws.take(i + 1).drop_last() =~= ws.take(i as int));
            assert(ws.take(i + 1).last() == w@);
        }
        if w.repeated {
            let line = w.represent();
            let ghost before = repeated_lines(ws.take(i as int));
            if any {
                push_char(&mut out, '\n');
            }
            out.append(line.as_str());
            any = true;
            proof {
                let after = before.push(line@);
                assert(after.drop_last() =~= before);
                if before.len() == 0 {
                    assert(out@ =~= line@);
                    assert(join_lines(after) == join_with(after, '\n'));
                } else {
                    assert(out@ =~= join_lines(before) + seq!['\n'] + line@);
                }
                assert(out@ == join_lines(repeated_lines(ws.take(i + 1))));
            }
        }
        i = i + 1;
    }
    proof {
        assert(ws.take(v.len() as int) =~= ws);
    }
    out
}

/// The texts joined by line breaks, one per line.
pub fn join_paragraphs(parts: &Vec<String>) -> (r: String)
    ensures
        r@ == join_lines(parts@.map_values(|p: String| p@)),
{
    let ghost ps = parts@.map_values(|p: String| p@);
    let mut out = String::new();
    let mut i: usize = 0;
    while i < parts.len()
        invariant
            ps == parts@.map_values(|p: String| p@),
            i <= parts.len(),
            out@ == join_lines(ps.take(i as int)),
        decreases parts.len() - i,
    {
        if i > 0 {
            push_char(&mut out, '\n');
        }
        out.append(parts[i].as_str());
        proof {
            assert(ps.take(i + 1).drop_last() =~= ps.take(i as int));
            if i == 0 {
                assert(out@ =~= ps.take(1)[0]);
            } else {
                assert(out@ =~= join_lines(ps.take(i as int)) + seq!['\n'] + ps.take(i + 1).last());
            }
        }
        i = i + 1;
    }
    proof {
        assert(ps.take(parts.len() as int) =~= ps);
    }
    out
}

} // verus!
