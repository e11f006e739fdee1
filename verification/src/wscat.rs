//! The screen of the websocket reader.

use vstd::prelude::*;
use crate::text::{push_str, string_of, string_views};

verus! {

/// The messages `ms`, one per line.
pub open spec fn spec_join_lines(ms: Seq<Seq<char>>) -> Seq<char>
    decreases ms.len(),
{
    if ms.len() == 0 {
        Seq::empty()
    } else if ms.len() == 1 {
        ms[0]
    } else {
        spec_join_lines(ms.drop_last()) + "\n"@ + ms.last()
    }
}

/// The text shown for the messages received so far: one per line, in the
/// order received.
pub fn message_screen(messages: &Vec<String>) -> (screen: String)
    ensures
        screen@ == spec_join_lines(string_views(messages@)),
{
    let mut out: Vec<char> = Vec::new();
    let mut i: usize = 0;
    let ghost ms = string_views(messages@);
    assert(ms.take(0) =~= Seq::<Seq<char>>::empty());
    while i < messages.len()
        invariant
            i <= messages@.len(),
            ms == string_views(messages@),
            out@ == spec_join_lines(ms.take(i as int)),
        decreases messages@.len() - i,
    {
        let ghost before = out@;
        if i > 0 {
            push_str(&mut out, "\n");
        }
        push_str(&mut out, messages[i].as_str());
        assert(ms.take(i + 1).drop_last() =~= ms.take(i as int));
        assert(ms.take(i + 1).last() == messages@[i as int]@);
        if i == 0 {
            assert(before =~= Seq::<char>::empty());
            assert(ms.take(1) =~= seq![messages@[0]@]);
        }
        assert(out@ =~= spec_join_lines(ms.take(i + 1)));
        i = i + 1;
    }
    assert(ms.take(messages@.len() as int) =~= ms);
    string_of(out.as_slice())
}

/// The screen shows each message on a line of its own, in the order
/// received: one message is shown as it is, and a further message adds a line
/// break and itself to the screen.
pub proof fn law_screen_adds_a_line_per_message(ms: Seq<Seq<char>>, m: Seq<char>)
    ensures
        spec_join_lines(seq![m]) == m,
        ms.len() > 0 ==> spec_join_lines(ms.push(m)) == spec_join_lines(ms) + "\n"@ + m,
{
    assert(ms.push(m).drop_last() =~= ms);
}

} // verus!
