use vstd::prelude::*;

verus! {

use crate::message::Error;
use crate::message::Message;
use crate::codec::msg_matches_raw;
use crate::wire::first_crlf;
use crate::wire::first_crlf_props;
use crate::wire::scan_message;

/// How a stream that stopped yielding bytes is classified: a clean end when
/// every buffered byte had been consumed, a reset when the peer closed in
/// the middle of a frame.
#[derive(Debug, PartialEq, Eq)]
pub enum Termination {
    CleanEnd,
    Reset,
}

/// An incremental framer: owns the single growable receive buffer that
/// bytes from the stream accumulate in, and extracts complete frames from
/// its front as they become available.
pub struct Framer {
    pub buffer: Vec<u8>,
}

impl Framer {
    pub fn new() -> (f: Framer)
        ensures
            f.buffer@ == Seq::<u8>::empty(),
    {
        Framer { buffer: Vec::new() }
    }

    /// Appends bytes read from the stream to the receive buffer.
    pub fn feed(&mut self, chunk: &[u8])
        ensures
            final(self).buffer@ == old(self).buffer@ + chunk@,
    {
        self.buffer.extend_from_slice(chunk);
    }

    /// Attempts to extract one complete message from the front of the
    /// buffer. On success the buffer advances past the consumed frame; in
    /// every other case, incomplete data included, the buffer is untouched,
    /// so bytes keep accumulating until a frame completes.
    pub fn poll_message(&mut self) -> (r: Result<Option<Message>, Error>)
        ensures
            ({
                let s = old(self).buffer@;
                let fc = first_crlf(s, 0);
                if fc >= s.len() {
                    &&& r matches Ok(None)
                    &&& final(self).buffer@ == s
                } else if fc > 510 {
                    &&& r == Err::<Option<Message>, Error>(Error::MessageTooLong)
                    &&& final(self).buffer@ == s
                } else {
                    match scan_message(s.subrange(0, fc)) {
                        None => {
                            &&& r == Err::<Option<Message>, Error>(Error::Parsing)
                            &&& final(self).buffer@ == s
                        },
                        Some(rm) => {
                            &&& r matches Ok(Some(m)) && msg_matches_raw(m, rm)
                            &&& final(self).buffer@ == s.subrange(fc + 2, s.len() as int)
                        },
                    }
                }
            }),
    {
        proof {
            first_crlf_props(self.buffer@, 0);
        }
        let res = Message::parse(self.buffer.as_slice());
        match res {
            Ok(Some((m, consumed))) => {
                let tail = self.buffer.split_off(consumed);
                self.buffer = tail;
                Ok(Some(m))
            },
            Ok(None) => Ok(None),
            Err(e) => Err(e),
        }
    }

    /// Classifies the end of the stream: clean when the buffer is empty, a
    /// connection reset when it still holds an unfinished frame.
    pub fn on_close(&self) -> (t: Termination)
        ensures
            t == (if self.buffer@.len() == 0 {
                Termination::CleanEnd
            } else {
                Termination::Reset
            }),
    {
        if self.buffer.len() == 0 {
            Termination::CleanEnd
        } else {
            Termination::Reset
        }
    }
}

} // verus!
