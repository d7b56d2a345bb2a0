use vstd::prelude::*;
use vstd::string::StringExecFns;

verus! {

/// The words joined into one text, each word followed by a line break.
pub open spec fn joined_lines(ws: Seq<Seq<char>>) -> Seq<char>
    decreases ws.len(),
{
    if ws.len() == 0 {
        Seq::empty()
    } else {
        joined_lines(ws.drop_last()) + ws.last() + seq!['\n']
    }
}

/// Render the result list as the text to hand to the output sink: one word
/// per line, in the order given.
pub fn render_output(words: &Vec<String>) -> (out: String)
    ensures
        out@ == joined_lines(words.deep_view()),
{
    let ghost dv = words.deep_view();
    let mut out = String::new();
    let mut idx: usize = 0;
    proof {
        assert(out@ =~= joined_lines(dv.take(0)));
    }
    while idx < words.len()
        invariant
            idx <= words.len(),
            dv == words.deep_view(),
            dv.len() == words.len(),
            out@ == joined_lines(dv.take(idx as int)),
        decreases words.len() - idx,
    {
        proof {
            assert(dv[idx as int] == words@[idx as int]@);
            assert(dv.take(idx as int + 1).drop_last() =~= dv.take(idx as int));
            assert(dv.take(idx as int + 1).last() == dv[idx as int]);
        }
        out.append(words[idx].as_str());
        out.append("\n");
        proof {
            reveal_strlit("\n");
            assert("\n"@ =~= seq!['\n']);
        }
        idx += 1;
    }
    proof {
        assert(dv.take(words.len() as int) =~= dv);
    }
    out
}

} // verus!
