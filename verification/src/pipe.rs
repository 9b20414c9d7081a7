//! The loop that pumps a stream through a rewriter, as a state machine: the
//! caller does the reading and writing and reports what came of it, and the
//! machine says what to do next.
use vstd::prelude::*;

use crate::grammar::{emitted, held, rewritten};
use crate::rewriter::PathRewriter;

verus! {

/// What came of the last read or write.
#[derive(Debug, Clone, Copy)]
pub enum PipeEvent<'a> {
    /// A read returned these bytes. None at all is the end of the input.
    Read(&'a [u8]),
    /// A read was interrupted before it returned anything.
    ReadInterrupted,
    /// A read failed.
    ReadFailed,
    /// All the bytes were written and flushed.
    Written,
    /// The bytes could not be written or flushed.
    WriteFailed,
}

/// What to do next.
#[derive(Debug)]
pub enum PipeAction {
    /// Read from the input.
    Read,
    /// Write all these bytes to the output and flush it, also when there are
    /// none.
    Write(Vec<u8>),
    /// Stop: the whole input, of this many bytes, has been rewritten.
    Finish(u64),
    /// Stop with the error that was just met.
    Fail,
}

/// A pipe: a rewriter, the number of bytes read, and whether the input has
/// ended.
#[derive(Debug)]
pub struct Pipe {
    rewriter: PathRewriter,
    total: u64,
    ended: bool,
}

/// What a pipe holds.
pub struct PipeView {
    /// The bytes that the rewriter holds back.
    pub held: Seq<u8>,
    /// The bytes read so far.
    pub total: int,
    /// The input has ended.
    pub ended: bool,
}

/// A [`PipeEvent`] with its bytes.
pub enum EventView {
    Read(Seq<u8>),
    ReadInterrupted,
    ReadFailed,
    Written,
    WriteFailed,
}

/// A [`PipeAction`] with its bytes.
pub enum ActionView {
    Read,
    Write(Seq<u8>),
    Finish(int),
    Fail,
}

impl View for Pipe {
    type V = PipeView;

    closed spec fn view(&self) -> PipeView {
        PipeView { held: self.rewriter@, total: self.total as int, ended: self.ended }
    }
}

impl<'a> View for PipeEvent<'a> {
    type V = EventView;

    open spec fn view(&self) -> EventView {
        match *self {
            PipeEvent::Read(chunk) => EventView::Read(chunk@),
            PipeEvent::ReadInterrupted => EventView::ReadInterrupted,
            PipeEvent::ReadFailed => EventView::ReadFailed,
            PipeEvent::Written => EventView::Written,
            PipeEvent::WriteFailed => EventView::WriteFailed,
        }
    }
}

impl View for PipeAction {
    type V = ActionView;

    open spec fn view(&self) -> ActionView {
        match *self {
            PipeAction::Read => ActionView::Read,
            PipeAction::Write(bytes) => ActionView::Write(bytes@),
            PipeAction::Finish(total) => ActionView::Finish(total as int),
            PipeAction::Fail => ActionView::Fail,
        }
    }
}

/// A pipe through which nothing has gone yet.
pub open spec fn fresh_pipe() -> PipeView {
    PipeView { held: Seq::empty(), total: 0, ended: false }
}

/// What an event makes of a pipe: only a read changes it.
pub open spec fn pipe_after(pipe: PipeView, event: EventView) -> PipeView {
    match event {
        EventView::Read(chunk) => if chunk.len() > 0 {
            PipeView { held: held(pipe.held + chunk), total: pipe.total + chunk.len(), ..pipe }
        } else {
            PipeView { held: Seq::empty(), ended: true, ..pipe }
        },
        _ => pipe,
    }
}

/// What is to be done after an event.
pub open spec fn pipe_action(pipe: PipeView, event: EventView) -> ActionView {
    match event {
        EventView::Read(chunk) => if chunk.len() > 0 {
            ActionView::Write(emitted(pipe.held + chunk))
        } else if rewritten(pipe.held).len() > 0 {
            ActionView::Write(rewritten(pipe.held))
        } else {
            ActionView::Finish(pipe.total)
        },
        EventView::ReadInterrupted => ActionView::Read,
        EventView::ReadFailed => ActionView::Fail,
        EventView::Written => if pipe.ended {
            ActionView::Finish(pipe.total)
        } else {
            ActionView::Read
        },
        EventView::WriteFailed => ActionView::Fail,
    }
}

impl Pipe {
    /// The rewriter inside is well formed.
    pub closed spec fn wf(&self) -> bool {
        self.rewriter.wf()
    }

    /// A pipe through which nothing has gone yet. Its first action is to read.
    pub fn new() -> (r: Self)
        ensures
            r.wf(),
            r@ == fresh_pipe(),
    {
        Pipe { rewriter: PathRewriter::new(), total: 0, ended: false }
    }

    /// How many bytes have been read.
    pub fn total(&self) -> (n: u64)
        ensures
            n == self@.total,
    {
        self.total
    }
}

/// Takes what came of the last read or write, and says what to do next.
///
/// The count of bytes read must stay within a `u64`.
pub fn pipe_through(pipe: &mut Pipe, event: PipeEvent<'_>) -> (action: PipeAction)
    requires
        old(pipe).wf(),
        event matches PipeEvent::Read(chunk) ==> old(pipe)@.total + chunk@.len() <= u64::MAX,
    ensures
        final(pipe).wf(),
        final(pipe)@ == pipe_after(old(pipe)@, event@),
        action@ == pipe_action(old(pipe)@, event@),
        event matches PipeEvent::Read(chunk) ==> if chunk@.len() > 0 {
            &&& action matches PipeAction::Write(bytes)
            &&& bytes@ == emitted(old(pipe)@.held + chunk@)
            &&& final(pipe)@.held == held(old(pipe)@.held + chunk@)
            &&& final(pipe)@.total == old(pipe)@.total + chunk@.len()
            &&& final(pipe)@.ended == old(pipe)@.ended
        } else {
            &&& if rewritten(old(pipe)@.held).len() > 0 {
                action matches PipeAction::Write(bytes) && bytes@ == rewritten(old(pipe)@.held)
            } else {
                action matches PipeAction::Finish(total) && total == old(pipe)@.total
            }
            &&& final(pipe)@.held.len() == 0
            &&& final(pipe)@.total == old(pipe)@.total
            &&& final(pipe)@.ended
        },
        !(event is Read) ==> final(pipe)@ == old(pipe)@,
        event is ReadInterrupted ==> action is Read,
        event is ReadFailed ==> action is Fail,
        event is Written ==> if old(pipe)@.ended {
            action matches PipeAction::Finish(total) && total == old(pipe)@.total
        } else {
            action is Read
        },
        event is WriteFailed ==> action is Fail,
{
    match event {
        PipeEvent::Read(chunk) => {
            let mut output: Vec<u8> = Vec::new();
            if chunk.len() > 0 {
                pipe.rewriter.process(chunk, &mut output);
                pipe.total = pipe.total + chunk.len() as u64;
                assert(output@ =~= emitted(old(pipe)@.held + chunk@));
                PipeAction::Write(output)
            } else {
                pipe.rewriter.flush(&mut output);
                pipe.ended = true;
                assert(output@ =~= rewritten(old(pipe)@.held));
                if output.len() > 0 {
                    PipeAction::Write(output)
                } else {
                    PipeAction::Finish(pipe.total)
                }
            }
        },
        PipeEvent::ReadInterrupted => PipeAction::Read,
        PipeEvent::ReadFailed => PipeAction::Fail,
        PipeEvent::Written => if pipe.ended {
            PipeAction::Finish(pipe.total)
        } else {
            PipeAction::Read
        },
        PipeEvent::WriteFailed => PipeAction::Fail,
    }
}

} // verus!
