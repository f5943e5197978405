//! Stop-word lists given as text: one entry per separated piece.

use vstd::prelude::*;
use crate::text::{chars_of, push_char};
use crate::report::join_with;
use vstd::string::{StrSliceExecFns, StringExecFns};

verus! {

/// The pieces of `text` between occurrences of `sep`: joined again by `sep`
/// they give `text`, and none of them holds `sep`.
pub open spec fn pieces_of(text: Seq<char>, sep: char, pieces: Seq<Seq<char>>) -> bool {
    &&& pieces.len() > 0
    &&& join_with(pieces, sep) == text
    &&& forall|i: int| 0 <= i < pieces.len() ==> !(#[trigger] pieces[i]).contains(sep)
}

/// Splits `text` at each `sep`; an empty text gives one empty piece.
pub fn split_on(text: &str, sep: char) -> (r: Vec<String>)
    ensures
        pieces_of(text@, sep, r@.map_values(|p: String| p@)),
{
    let cs = chars_of(text);
    let mut out: Vec<String> = Vec::new();
    let mut cur = String::new();
    let mut i: usize = 0;
    proof {
        let first = out@.map_values(|p: String| p@).push(cur@);
        assert(first.len() == 1 && first[0] == cur@);
        assert(cs@.take(0) =~= cur@);
    }
    while i < cs.len()
        invariant
            cs@ == text@,
            i <= cs.len(),
            pieces_of(
                cs@.take(i as int),
                sep,
                out@.map_values(|p: String| p@).push(cur@),
            ),
        decreases cs.len() - i,
    {
        let ghost before = out@.map_values(|p: String| p@).push(cur@);
        let c = cs[i];
        if c == sep {
            let piece = cur;
            out.push(piece);
            cur = String::new();
            proof {
                let after = out@.map_values(|p: String| p@).push(cur@);
                assert(after.drop_last() =~= before);
                assert(after.last() =~= Seq::<char>::empty());
                assert(join_with(after, sep) =~= join_with(before, sep) + seq![sep]);
                assert(cs@.take(i + 1) =~= cs@.take(i as int) + seq![sep]);
                assert forall|k: int| 0 <= k < after.len() implies !(#[trigger] after[k]).contains(sep) by {
                    if k < before.len() {
                        assert(after[k] == before[k]);
                    }
                }
            }
        } else {
            let ghost old_cur = cur@;
            push_char(&mut cur, c);
            proof {
                let after = out@.map_values(|p: String| p@).push(cur@);
                assert(after.drop_last() =~= before.drop_last());
                if before.len() == 1 {
                    assert(join_with(after, sep) == after[0]);
                    assert(join_with(before, sep) == before[0]);
                } else {
                    assert(join_with(after, sep) == join_with(before.drop_last(), sep) + seq![sep] + cur@);
                }
                assert(cs@.take(i + 1) =~= cs@.take(i as int).push(c));
                assert(join_with(after, sep) =~= join_with(before, sep).push(c));
                assert forall|k: int| 0 <= k < after.len() implies !(#[trigger] after[k]).contains(sep) by {
                    if k < before.len() - 1 {
                        assert(after[k] == before[k]);
                    } else {
                        assert(!before[k].contains(sep));
                        if cur@.contains(sep) {
                            let j = choose|j: int| 0 <= j < cur@.len() && cur@[j] == sep;
                            assert(j < old_cur.len());
                            assert(old_cur[j] == sep);
                        }
                    }
                }
            }
        }
        i = i + 1;
    }
    let ghost last = out@.map_values(|p: String| p@).push(cur@);
    out.push(cur);
    proof {
        assert(out@.map_values(|p: String| p@) =~= last);
        assert(cs@.take(cs.len() as int) =~= cs@);
    }
    out
}

/// `t` without a carriage return at its end.
pub open spec fn strip_cr(t: Seq<char>) -> Seq<char> {
    if t.len() > 0 && t.last() == '\r' {
        t.drop_last()
    } else {
        t
    }
}

/// The lines that the pieces between line feeds make: a last piece that is
/// empty is no line, and a piece followed by a line feed loses a carriage
/// return at its end.
pub open spec fn lines_from_pieces(p: Seq<Seq<char>>) -> Seq<Seq<char>> {
    let kept = if p.last().len() == 0 {
        p.drop_last()
    } else {
        p
    };
    Seq::new(
        kept.len(),
        |i: int|
            if i < p.len() - 1 {
                strip_cr(kept[i])
            } else {
                kept[i]
            },
    )
}

/// `t` without a carriage return at its end.
fn without_final_cr(t: &str) -> (r: String)
    ensures
        r@ == strip_cr(t@),
{
    let l = t.unicode_len();
    if l > 0 && t.get_char(l - 1) == '\r' {
        String::from_str(t.substring_char(0, l - 1))
    } else {
        String::from_str(t)
    }
}

/// The lines of `text`: it is cut at each line feed, a line feed at the
/// very end ends the last line rather than opening an empty one, and a
/// carriage return before a line feed is dropped.
pub fn lines_of(text: &str) -> (r: Vec<String>)
    ensures
        exists|p: Seq<Seq<char>>|
            pieces_of(text@, '\n', p) && #[trigger] lines_from_pieces(p) == r@.map_values(
                |l: String| l@,
            ),
{
    let pieces = split_on(text, '\n');
    let ghost p = pieces@.map_values(|l: String| l@);
    let n = pieces.len();
    let kept = if pieces[n - 1].as_str().unicode_len() == 0 {
        n - 1
    } else {
        n
    };
    let mut out: Vec<String> = Vec::new();
    let mut i: usize = 0;
    while i < kept
        invariant
            p == pieces@.map_values(|l: String| l@),
            n == pieces.len(),
            n > 0,
            kept <= n,
            kept == lines_from_pieces(p).len(),
            i <= kept,
            out@.map_values(|l: String| l@) == lines_from_pieces(p).take(i as int),
        decreases kept - i,
    {
        let line = if i < n - 1 {
            without_final_cr(pieces[i].as_str())
        } else {
            String::from_str(pieces[i].as_str())
        };
        let ghost before = out@.map_values(|l: String| l@);
        out.push(line);
        proof {
            assert(out@.map_values(|l: String| l@) =~= before.push(line@));
            assert(lines_from_pieces(p).take(i + 1) =~= lines_from_pieces(p).take(i as int).push(
                lines_from_pieces(p)[i as int],
            ));
        }
        i = i + 1;
    }
    proof {
        assert(lines_from_pieces(p).take(kept as int) =~= lines_from_pieces(p));
    }
    out
}

} // verus!
