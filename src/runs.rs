//! Runs: the text cut into maximal stretches of words that share the
//! repeated flag.

use vstd::prelude::*;
use crate::words::{Word, WordView, words_view, originals};

verus! {

/// A stretch of the original text whose words all have the same flag.
#[derive(Debug, PartialEq, Clone)]
pub struct Run {
    pub text: String,
    pub repeated: bool,
}

/// What a `Run` stands for.
pub struct RunView {
    pub text: Seq<char>,
    pub repeated: bool,
}

impl View for Run {
    type V = RunView;

    open spec fn view(&self) -> RunView {
        RunView { text: self.text@, repeated: self.repeated }
    }
}

pub open spec fn runs_view(rs: Seq<Run>) -> Seq<RunView> {
    rs.map_values(|r: Run| r@)
}

/// The runs of a word sequence: each word joins the last run when the flags
/// agree, and opens a new run otherwise.
pub open spec fn runs_of(ws: Seq<WordView>) -> Seq<RunView>
    decreases ws.len(),
{
    if ws.len() == 0 {
        Seq::empty()
    } else {
        let rs = runs_of(ws.drop_last());
        let w = ws.last();
        if rs.len() > 0 && rs.last().repeated == w.repeated {
            rs.update(
                rs.len() - 1,
                RunView { text: rs.last().text + w.original, repeated: w.repeated },
            )
        } else {
            rs.push(RunView { text: w.original, repeated: w.repeated })
        }
    }
}

/// The texts of the runs, joined in order.
pub open spec fn run_texts(rs: Seq<RunView>) -> Seq<char>
    decreases rs.len(),
{
    if rs.len() == 0 {
        Seq::empty()
    } else {
        run_texts(rs.drop_last()) + rs.last().text
    }
}

/// Neighbouring runs differ in their flag.
pub open spec fn maximal_runs(rs: Seq<RunView>) -> bool {
    forall|i: int| 0 <= i < rs.len() - 1 ==> #[trigger] rs[i].repeated != rs[i + 1].repeated
}

/// The text with a `#` before each repeated word.
pub open spec fn marked_text(ws: Seq<WordView>) -> Seq<char>
    decreases ws.len(),
{
    if ws.len() == 0 {
        Seq::empty()
    } else {
        marked_text(ws.drop_last()) + (if ws.last().repeated {
            seq!['#']
        } else {
            Seq::empty()
        }) + ws.last().original
    }
}

proof fn lemma_run_texts_update(rs: Seq<RunView>, x: RunView)
    requires
        rs.len() > 0,
    ensures
        run_texts(rs.update(rs.len() - 1, x)) == run_texts(rs.drop_last()) + x.text,
{
    assert(rs.update(rs.len() - 1, x).drop_last() =~= rs.drop_last());
}

/// Joining the runs gives back the joined texts of the words, and the runs
/// are maximal.
pub proof fn lemma_runs_rebuild_text(ws: Seq<WordView>)
    ensures
        run_texts(runs_of(ws)) == originals(ws),
        maximal_runs(runs_of(ws)),
        ws.len() > 0 ==> runs_of(ws).len() > 0,
    decreases ws.len(),
{
    if ws.len() > 0 {
        let rs = runs_of(ws.drop_last());
        lemma_runs_rebuild_text(ws.drop_last());
        let w = ws.last();
        if rs.len() > 0 && rs.last().repeated == w.repeated {
            let x = RunView { text: rs.last().text + w.original, repeated: w.repeated };
            lemma_run_texts_update(rs, x);
            assert(run_texts(rs) == run_texts(rs.drop_last()) + rs.last().text);
            assert(run_texts(rs.drop_last()) + (rs.last().text + w.original) =~= (run_texts(
                rs.drop_last(),
            ) + rs.last().text) + w.original);
            let rs2 = rs.update(rs.len() - 1, x);
            assert forall|i: int| 0 <= i < rs2.len() - 1 implies #[trigger] rs2[i].repeated
                != rs2[i + 1].repeated by {
                assert(rs[i].repeated != rs[i + 1].repeated);
            }
        } else {
            let rs2 = rs.push(RunView { text: w.original, repeated: w.repeated });
            assert(rs2.drop_last() =~= rs);
            assert forall|i: int| 0 <= i < rs2.len() - 1 implies #[trigger] rs2[i].repeated
                != rs2[i + 1].repeated by {
                if i < rs.len() - 1 {
                    assert(rs[i].repeated != rs[i + 1].repeated);
                }
            }
        }
    }
}

/// Cuts the words into runs: a word whose flag equals that of the run
/// before it extends that run, any other word opens a new one.
pub fn rebuild_run(v: Vec<Word>) -> (r: Vec<Run>)
    ensures
        runs_view(r@) == runs_of(words_view(v@)),
        run_texts(runs_view(r@)) == originals(words_view(v@)),
        maximal_runs(runs_view(r@)),
{
    let ghost ws = words_view(v@);
    let mut out: Vec<Run> = Vec::new();
    let mut cur_text = String::new();
    let mut cur_flag = false;
    let mut i: usize = 0;
    while i < v.len()
        invariant
            ws == words_view(v@),
            i <= v.len(),
            i == 0 ==> out.len() == 0,
            i > 0 ==> runs_of(ws.take(i as int)) == runs_view(out@).push(
                RunView { text: cur_text@, repeated: cur_flag },
            ),
        decreases v.len() - i,
    {
        let w = &v[i];
        let ghost prefix = ws.take(i as int);
        proof {
            assert(ws.take(i + 1).drop_last() =~= prefix);
            assert(ws.take(i + 1).last() == w@);
        }
        if i > 0 && w.repeated == cur_flag {
            cur_text.append(w.original_word.as_str());
        } else {
            if i > 0 {
                let run = Run { text: cur_text, repeated: cur_flag };
                out.push(run);
                proof {
                    assert(runs_view(out@) =~= runs_of(prefix));
                }
            } else {
                proof {
                    assert(runs_view(out@) =~= runs_of(prefix));
                }
            }
            cur_text = w.original_word.clone();
            cur_flag = w.repeated;
        }
        proof {
            assert(runs_of(ws.take(i + 1)) =~= runs_view(out@).push(
                RunView { text: cur_text@, repeated: cur_flag },
            ));
        }
        i = i + 1;
    }
    if i > 0 {
        out.push(Run { text: cur_text, repeated: cur_flag });
    }
    proof {
        assert(ws.take(v.len() as int) =~= ws);
        assert(runs_view(out@) =~= runs_of(ws));
        lemma_runs_rebuild_text(ws);
    }
    out
}

/// The text with a `#` before each repeated word.
pub fn rebuild(v: Vec<Word>, _colorize: bool) -> (r: String)
    ensures
        r@ == marked_text(words_view(v@)),
{
    let ghost ws = words_view(v@);
    let mut out = String::new();
    let mut i: usize = 0;
    while i < v.len()
        invariant
            ws == words_view(v@),
            i <= v.len(),
            out@ == marked_text(ws.take(i as int)),
        decreases v.len() - i,
    {
        let w = &v[i];
        proof {
            assert(ws.take(i + 1).drop_last() =~= ws.take(i as int));
            assert(ws.take(i + 1).last() == w@);
        }
        if w.repeated {
            crate::text::push_char(&mut out, '#');
        }
        out.append(w.original_word.as_str());
        proof {
            assert(out@ =~= marked_text(ws.take(i + 1)));
        }
        i = i + 1;
    }
    proof {
        assert(ws.take(v.len() as int) =~= ws);
    }
    out
}

} // verus!
