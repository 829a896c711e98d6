//! Converts a line-oriented `key: "value"` text notation (in the style of a
//! protocol-buffer text format) into a pretty-printed JSON string.
//!
//! Every value becomes a string; a repeated top-level key collapses into an
//! array; a `key { ... }` span becomes a one-level nested object; malformed
//! lines are silently skipped. The conversion never fails.
use vstd::prelude::*;

pub mod doc;
pub mod jsonout;
pub mod laws;
pub mod model;
pub mod parse;

use crate::jsonout::{empty_doc, json_pretty_of, render};
use crate::model::{doc_of, init_state, lemma_run_snoc, lines_of, run_lines};
use crate::parse::{chars_of, split_lines_exec, step_line, BlockState, conv_view, conv_wf, Converter};

verus! {

/// Convert a line-oriented `key: "value"` text into a pretty-printed JSON
/// string. The conversion never fails: malformed lines are skipped, and an
/// input without a single well-formed line yields `{}`.
pub fn convert_pb_to_json(pb_string: &str) -> (r: String)
    ensures
        r@ == json_pretty_of(doc_of(pb_string@)),
        doc_of(pb_string@) == empty_doc() ==> r@ == "{}"@,
{
    let chars = chars_of(pb_string);
    let lines = split_lines_exec(&chars);
    let ghost ls = lines_of(pb_string@);
    let mut st = Converter { root: Vec::new(), block: BlockState::Idle };
    proof {
        assert(ls.take(0) =~= Seq::<Seq<char>>::empty());
        assert(conv_view(st) == init_state());
    }
    let mut i: usize = 0;
    while i < lines.len()
        invariant
            i <= lines@.len(),
            lines@.len() == ls.len(),
            forall|j: int| 0 <= j < lines@.len() ==> #[trigger] lines@[j]@ == ls[j],
            conv_wf(st),
            conv_view(st) == run_lines(init_state(), ls.take(i as int)),
        decreases lines@.len() - i,
    {
        proof {
            lemma_run_snoc(init_state(), ls.take(i + 1));
            assert(ls.take(i + 1).drop_last() =~= ls.take(i as int));
            assert(ls.take(i + 1).last() == ls[i as int]);
        }
        st = step_line(st, &lines[i]);
        i = i + 1;
    }
    proof {
        assert(ls.take(ls.len() as int) =~= ls);
    }
    let Converter { root, block: _ } = st;
    render(root)
}

} // verus!
