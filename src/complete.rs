//! Turning one chunk of a streamed chat completion into text.
use vstd::prelude::*;
use vstd::string::StringExecFns;

verus! {

/// The contents that are present, laid end to end.
pub open spec fn present_text(contents: Seq<Option<String>>) -> Seq<char>
    decreases contents.len(),
{
    if contents.len() == 0 {
        Seq::empty()
    } else {
        present_text(contents.drop_last()) + match contents.last() {
            Some(s) => s@,
            None => Seq::empty(),
        }
    }
}

/// The text of one streamed chunk: the content of each choice's delta, in
/// order, where the delta has one.
pub fn parse_chat_completion_response(contents: Vec<Option<String>>) -> (r: String)
    ensures
        r@ == present_text(contents@),
{
    let mut response_string = String::new();
    let mut i: usize = 0;
    while i < contents.len()
        invariant
            i <= contents.len(),
            response_string@ == present_text(contents@.take(i as int)),
        decreases contents.len() - i,
    {
        assert(contents@.take(i + 1).drop_last() =~= contents@.take(i as int));
        if let Some(content) = &contents[i] {
            response_string.append(content.as_str());
        } else {
            assert(response_string@ + Seq::<char>::empty() =~= response_string@);
        }
        i = i + 1;
    }
    assert(contents@.take(i as int) =~= contents@);
    response_string
}

} // verus!
