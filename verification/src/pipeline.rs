//! Decision logic of the two transfer pipelines: what the device-writer loop
//! does with each chunk read from the input source, and how a write pump
//! reacts to the outcome of one write.

use vstd::prelude::*;

verus! {

/// What the device-writer pipeline does after one read from the input
/// source.
#[derive(Debug, Clone, Copy, PartialEq, Eq, Structural)]
pub enum WriterStep {
    /// End the pipeline successfully: the input ended and the exit switch is
    /// set.
    Quit,
    /// Read again: the input ended but the exit switch is not set.
    AwaitMore,
    /// Forward the whole chunk to the device, then flush.
    Forward,
}

/// The device-writer decision for one chunk of `chunk_len` bytes read from
/// the input source: end-of-input (an empty chunk) ends the pipeline exactly
/// when the "exit on input end" switch is set, and otherwise leaves it
/// waiting for more input; a non-empty chunk is always forwarded.
pub fn writer_step(escape_quit: bool, chunk_len: usize) -> (r: WriterStep)
    ensures
        r == (if chunk_len == 0 {
            if escape_quit {
                WriterStep::Quit
            } else {
                WriterStep::AwaitMore
            }
        } else {
            WriterStep::Forward
        }),
{
    if chunk_len == 0 {
        if escape_quit {
            WriterStep::Quit
        } else {
            WriterStep::AwaitMore
        }
    } else {
        WriterStep::Forward
    }
}

/// How a write pump reacts to the outcome of one write.
#[derive(Debug, Clone, Copy, PartialEq, Eq, Structural)]
pub enum ForwardStep {
    /// A zero-length write while data remained: the sink is gone and the
    /// pipeline fails.
    SinkGone,
    /// Everything requested has been written.
    Done,
    /// Some bytes were written; keep writing the rest.
    Continue,
}

/// The write-pump decision after one write reported `written` bytes out of
/// `remaining` still to be written: a zero-length write is fatal, writing
/// everything finishes the pump, and anything else continues it.
pub fn forward_step(written: usize, remaining: usize) -> (r: ForwardStep)
    requires
        0 < remaining,
        written <= remaining,
    ensures
        r == (if written == 0 {
            ForwardStep::SinkGone
        } else if written == remaining {
            ForwardStep::Done
        } else {
            ForwardStep::Continue
        }),
{
    if written == 0 {
        ForwardStep::SinkGone
    } else if written == remaining {
        ForwardStep::Done
    } else {
        ForwardStep::Continue
    }
}

} // verus!
