use vstd::prelude::*;
use vstd::string::{StrSliceExecFns, StringExecFns};

use crate::session::{LogLine, SessionState};

verus! {

/// One rendered transcript line: the label, a separator, the text.
pub open spec fn line_of(e: LogLine) -> Seq<char> {
    e.label + ": "@ + e.text
}

/// The newline-joined transcript of the whole message log.
pub open spec fn transcript_of(log: Seq<LogLine>) -> Seq<char>
    decreases log.len(),
{
    if log.len() == 0 {
        Seq::<char>::empty()
    } else if log.len() == 1 {
        line_of(log[0])
    } else {
        line_of(log[0]) + "\n"@ + transcript_of(log.drop_first())
    }
}

proof fn lemma_transcript_snoc(log: Seq<LogLine>, e: LogLine)
    ensures
        transcript_of(log.push(e)) == if log.len() == 0 {
            line_of(e)
        } else {
            transcript_of(log) + "\n"@ + line_of(e)
        },
    decreases log.len(),
{
    if log.len() == 0 {
        assert(log.push(e)[0] == e);
    } else {
        assert(log.push(e)[0] == log[0]);
        assert(log.push(e).drop_first() =~= log.drop_first().push(e));
        lemma_transcript_snoc(log.drop_first(), e);
        if log.len() == 1 {
            assert(transcript_of(log.push(e)) == line_of(log[0]) + "\n"@ + transcript_of(
                log.drop_first().push(e),
            ));
            assert(transcript_of(log.drop_first().push(e)) == line_of(e));
        } else {
            assert(transcript_of(log.push(e)) == line_of(log[0]) + "\n"@ + (transcript_of(
                log.drop_first(),
            ) + "\n"@ + line_of(e)));
            assert(line_of(log[0]) + "\n"@ + (transcript_of(log.drop_first()) + "\n"@ + line_of(
                e,
            )) =~= (line_of(log[0]) + "\n"@ + transcript_of(log.drop_first())) + "\n"@ + line_of(
                e,
            ));
        }
    }
}

/// What the terminal collaborator is asked to draw: the transcript, the
/// input line, the scroll offset into the transcript, and the column at
/// which the cursor sits (one past the last input character).
pub struct ScreenText {
    pub transcript: String,
    pub input_line: String,
    pub scroll: u16,
    pub cursor_col: usize,
}

/// Projects the session state into renderable text. Pure: reads the state
/// and nothing else, and keeps no state of its own.
pub fn render(state: &SessionState) -> (r: ScreenText)
    ensures
        r.transcript@ == transcript_of(state@.log),
        r.input_line@ == state@.input,
        r.scroll == state@.scroll,
        r.cursor_col as int == if state@.input.len() + 1 <= usize::MAX {
            state@.input.len() + 1 as int
        } else {
            usize::MAX as int
        },
{
    let mut transcript = String::new();
    let mut i: usize = 0;
    while i < state.log.len()
        invariant
            i <= state.log@.len(),
            transcript@ == transcript_of(state@.log.subrange(0, i as int)),
        decreases state.log@.len() - i,
    {
        if i > 0 {
            transcript.append("\n");
        }
        transcript.append(state.log[i].label.as_str());
        transcript.append(": ");
        transcript.append(state.log[i].text.as_str());
        proof {
            let pre = state@.log.subrange(0, i as int);
            let line = state@.log[i as int];
            assert(state@.log.subrange(0, i + 1) =~= pre.push(line));
            lemma_transcript_snoc(pre, line);
            if i == 0 {
                assert(transcript@ =~= line_of(line));
            } else {
                assert(transcript@ =~= transcript_of(pre) + "\n"@ + line_of(line));
            }
            assert(transcript@ =~= transcript_of(state@.log.subrange(0, i + 1)));
        }
        i += 1;
    }
    proof {
        assert(state@.log.subrange(0, state.log@.len() as int) =~= state@.log);
    }
    let input_line = self_input_copy(state);
    let chars = state.input.as_str().unicode_len();
    let cursor_col: usize = if chars < usize::MAX {
        chars + 1
    } else {
        chars
    };
    ScreenText { transcript, input_line, scroll: state.scroll, cursor_col }
}

/// An owned copy of the input line.
fn self_input_copy(state: &SessionState) -> (r: String)
    ensures
        r@ == state@.input,
{
    state.input.clone()
}

} // verus!
