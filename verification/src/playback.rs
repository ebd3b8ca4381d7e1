//! The playback state machine.
//!
//! Playback walks the emitted token stream one frame at a time. Each
//! iteration the caller asks for the next frame (`next_frame`), renders it,
//! polls for cancellation, and reports the poll's outcome back
//! (`finish_frame`). Cancellation takes effect at once: the session enters
//! `Cancelled` and never yields another frame, so no further render or
//! sleep can follow. An exhausted stream ends the session in `Finished`.

use vstd::prelude::*;

use crate::segment::Token;

verus! {

/// The session state. `Running` is the initial state; `Cancelled` and
/// `Finished` are terminal and never left again.
#[derive(Clone, Copy, Debug, PartialEq, Eq, Structural)]
pub enum PlaybackState {
    Running,
    Cancelled,
    Finished,
}

/// What one iteration shows: the page number, the token text, and the
/// token's word count (from which the caller computes the duration).
pub struct Frame {
    pub page: u32,
    pub text: String,
    pub word_count: usize,
}

/// The playback session: the token stream in document order, the cursor
/// into it, and the session state.
pub struct App {
    pub items: Vec<(u32, Token)>,
    pub position: usize,
    pub state: PlaybackState,
}

/// The cursor never runs past the end of the stream.
pub open spec fn app_wf(a: App) -> bool {
    a.position <= a.items@.len()
}

/// Whether the session will show another frame: it is still running and
/// the stream is not exhausted.
pub open spec fn yields_frame(a: App) -> bool {
    a.state == PlaybackState::Running && a.position < a.items@.len()
}

impl App {
    /// A fresh session over an emitted token stream, ready to run from the
    /// first token.
    pub fn new(items: Vec<(u32, Token)>) -> (a: App)
        ensures
            a.items@ == items@,
            a.position == 0,
            a.state == PlaybackState::Running,
            app_wf(a),
    {
        App { items, position: 0, state: PlaybackState::Running }
    }

    /// Begin one iteration: the next frame to render, or `None` when the
    /// session is over. A running session whose stream is exhausted
    /// transitions to `Finished`; a cancelled or finished session stays as
    /// it is and yields nothing.
    pub fn next_frame(&mut self) -> (r: Option<Frame>)
        requires
            app_wf(*old(self)),
        ensures
            app_wf(*final(self)),
            final(self).items@ == old(self).items@,
            final(self).position == old(self).position,
            r is Some <==> yields_frame(*old(self)),
            old(self).state != PlaybackState::Running ==> final(self).state == old(self).state,
            old(self).state == PlaybackState::Running && old(self).position
                == old(self).items@.len() ==> final(self).state == PlaybackState::Finished,
            yields_frame(*old(self)) ==> final(self).state == PlaybackState::Running,
            r matches Some(f) ==> {
                &&& f.page == old(self).items@[old(self).position as int].0
                &&& f.text@ == old(self).items@[old(self).position as int].1.text@
                &&& f.word_count == old(self).items@[old(self).position as int].1.word_count
            },
    {
        match self.state {
            PlaybackState::Running => {
                if self.position < self.items.len() {
                    let it = &self.items[self.position];
                    Some(Frame { page: it.0, text: it.1.text.clone(), word_count: it.1.word_count })
                } else {
                    self.state = PlaybackState::Finished;
                    None
                }
            },
            PlaybackState::Cancelled => None,
            PlaybackState::Finished => None,
        }
    }

    /// End the iteration begun by a successful `next_frame`, reporting
    /// whether the poll saw a cancel request. A cancel moves the session
    /// to `Cancelled` at once and the cursor does not advance; otherwise
    /// the cursor moves to the next token and the session keeps running.
    pub fn finish_frame(&mut self, cancel: bool)
        requires
            app_wf(*old(self)),
            yields_frame(*old(self)),
        ensures
            app_wf(*final(self)),
            final(self).items@ == old(self).items@,
            cancel ==> final(self).state == PlaybackState::Cancelled && final(self).position
                == old(self).position,
            !cancel ==> final(self).state == PlaybackState::Running && final(self).position
                == old(self).position + 1,
    {
        if cancel {
            self.state = PlaybackState::Cancelled;
        } else {
            let n = self.items.len();
            assert(self.position < n);
            self.position = self.position + 1;
        }
    }
}

/// Whether a key event is the cancel request: a press of the `q` key.
pub fn is_cancel_key(is_press: bool, key: char) -> (r: bool)
    ensures
        r == (is_press && key == 'q'),
{
    is_press && key == 'q'
}

/// Cancellation immediacy: a cancelled session never yields another frame,
/// so once `finish_frame` records a cancel, no later iteration renders or
/// sleeps again — `Cancelled` is terminal.
pub proof fn lemma_cancellation_immediate(a: App)
    requires
        a.state == PlaybackState::Cancelled,
    ensures
        !yields_frame(a),
{
}

} // verus!
