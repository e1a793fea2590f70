use vstd::prelude::*;

use crate::geo::{bbox_spec, BoundingBox};

verus! {

/// What a session asks of the gateway.
#[derive(Debug)]
pub enum ClientCommand {
    SubscribeToId(String),
    UnsubscribeFromId(String),
    SetBoundingBox(BoundingBox),
}

/// Whether `t` starts with `p`.
pub open spec fn starts_with(t: Seq<char>, p: Seq<char>) -> bool {
    t.len() >= p.len() && t.take(p.len() as int) == p
}

/// The command that a text frame holds: `+id|<id>`, `-id|<id>`, or
/// `bbox|<left>|<bottom>|<right>|<top>` with a valid box; any other frame holds none.
pub open spec fn command_spec(t: Seq<char>, r: Option<ClientCommand>) -> bool {
    if starts_with(t, seq!['+', 'i', 'd', '|']) {
        r matches Some(ClientCommand::SubscribeToId(id)) && id@ == t.skip(4)
    } else if starts_with(t, seq!['-', 'i', 'd', '|']) {
        r matches Some(ClientCommand::UnsubscribeFromId(id)) && id@ == t.skip(4)
    } else if starts_with(t, seq!['b', 'b', 'o', 'x', '|']) {
        match bbox_spec(t.skip(5)) {
            Some(b) => r matches Some(ClientCommand::SetBoundingBox(c)) && c == b,
            None => r is None,
        }
    } else {
        r is None
    }
}

/// A buffer after one more message: messages are joined by line breaks.
pub open spec fn joined(buffer: Seq<char>, message: Seq<char>) -> Seq<char> {
    if buffer.len() == 0 {
        message
    } else {
        buffer + seq!['\n'] + message
    }
}

/// Text for the fast lane of a session.
pub struct SendTextFast(pub String);

/// Text for the slow lane of a session.
pub struct SendTextSlow(pub String);

/// The state of one live session: the text waiting in each of its two lanes.
pub struct WSClient {
    pub fast_buffer: String,
    pub slow_buffer: String,
}

fn has_prefix(t: &str, n: usize, p: &str, m: usize) -> (r: bool)
    requires
        n == t@.len(),
        m == p@.len(),
    ensures
        r == starts_with(t@, p@),
{
    if n < m {
        return false;
    }
    let mut i: usize = 0;
    while i < m
        invariant
            m <= n,
            n == t@.len(),
            m == p@.len(),
            0 <= i <= m,
            forall|k: int| 0 <= k < i ==> t@[k] == p@[k],
        decreases m - i,
    {
        if t.get_char(i) != p.get_char(i) {
            assert(t@.take(m as int)[i as int] != p@[i as int]);
            return false;
        }
        i = i + 1;
    }
    assert(t@.take(m as int) =~= p@);
    true
}

impl WSClient {
    /// A session with both lanes empty.
    pub fn new() -> (r: WSClient)
        ensures
            r.fast_buffer@ == Seq::<char>::empty(),
            r.slow_buffer@ == Seq::<char>::empty(),
    {
        WSClient { fast_buffer: String::new(), slow_buffer: String::new() }
    }

    /// The command that a text frame from the client holds, if any.
    pub fn handle_message(text: &str) -> (r: Option<ClientCommand>)
        ensures
            command_spec(text@, r),
    {
        let n = text.unicode_len();
        proof {
            reveal_strlit("+id|");
            reveal_strlit("-id|");
            reveal_strlit("bbox|");
            assert("+id|"@ =~= seq!['+', 'i', 'd', '|']);
            assert("-id|"@ =~= seq!['-', 'i', 'd', '|']);
            assert("bbox|"@ =~= seq!['b', 'b', 'o', 'x', '|']);
        }
        if has_prefix(text, n, "+id|", 4) {
            let id = text.substring_char(4, n).to_owned();
            assert(text@.subrange(4, n as int) =~= text@.skip(4));
            Some(ClientCommand::SubscribeToId(id))
        } else if has_prefix(text, n, "-id|", 4) {
            let id = text.substring_char(4, n).to_owned();
            assert(text@.subrange(4, n as int) =~= text@.skip(4));
            Some(ClientCommand::UnsubscribeFromId(id))
        } else if has_prefix(text, n, "bbox|", 5) {
            let rest = text.substring_char(5, n);
            assert(rest@ =~= text@.skip(5));
            match BoundingBox::try_parse(rest) {
                Some(b) => Some(ClientCommand::SetBoundingBox(b)),
                None => None,
            }
        } else {
            None
        }
    }

    /// Queues text in the fast lane.
    pub fn send_text_fast(&mut self, message: SendTextFast)
        ensures
            final(self).fast_buffer@ == joined(old(self).fast_buffer@, message.0@),
            final(self).slow_buffer == old(self).slow_buffer,
    {
        append_line(&mut self.fast_buffer, &message.0);
    }

    /// Queues text in the slow lane.
    pub fn send_text_slow(&mut self, message: SendTextSlow)
        ensures
            final(self).slow_buffer@ == joined(old(self).slow_buffer@, message.0@),
            final(self).fast_buffer == old(self).fast_buffer,
    {
        append_line(&mut self.slow_buffer, &message.0);
    }

    /// The frame to send from the fast lane, if it holds text; the lane is then empty.
    pub fn flush_fast(&mut self) -> (r: Option<String>)
        ensures
            old(self).fast_buffer@.len() == 0 ==> r is None,
            old(self).fast_buffer@.len() > 0 ==> (r matches Some(f) && f@ == old(self).fast_buffer@),
            final(self).fast_buffer@ == Seq::<char>::empty(),
            final(self).slow_buffer == old(self).slow_buffer,
    {
        take_frame(&mut self.fast_buffer)
    }

    /// The frame to send from the slow lane, if it holds text; the lane is then empty.
    pub fn flush_slow(&mut self) -> (r: Option<String>)
        ensures
            old(self).slow_buffer@.len() == 0 ==> r is None,
            old(self).slow_buffer@.len() > 0 ==> (r matches Some(f) && f@ == old(self).slow_buffer@),
            final(self).slow_buffer@ == Seq::<char>::empty(),
            final(self).fast_buffer == old(self).fast_buffer,
    {
        take_frame(&mut self.slow_buffer)
    }
}

fn append_line(buffer: &mut String, message: &String)
    ensures
        final(buffer)@ == joined(old(buffer)@, message@),
{
    if buffer.as_str().unicode_len() > 0 {
        crate::text::push_char(buffer, '\n');
    }
    crate::text::push_str(buffer, message.as_str());
}

fn take_frame(buffer: &mut String) -> (r: Option<String>)
    ensures
        old(buffer)@.len() == 0 ==> r is None,
        old(buffer)@.len() > 0 ==> (r matches Some(f) && f@ == old(buffer)@),
        final(buffer)@ == Seq::<char>::empty(),
{
    if buffer.as_str().unicode_len() == 0 {
        return None;
    }
    let frame = buffer.clone();
    *buffer = String::new();
    Some(frame)
}

} // verus!
