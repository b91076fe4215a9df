//! The scancode queue between the keyboard interrupt and the shell.
//!
//! The interrupt handler pushes raw scancodes; the shell's input task pops
//! them in arrival order. The queue is bounded: when it is full a new
//! scancode is dropped rather than displacing older input.

use vstd::prelude::*;

verus! {

/// How many scancodes the queue holds before it drops input.
pub const SCANCODE_QUEUE_CAPACITY: usize = 100;

/// A bounded first-in-first-out queue of raw keyboard scancodes.
pub struct ScancodeStream {
    queue: Vec<u8>,
}

impl View for ScancodeStream {
    type V = Seq<u8>;

    closed spec fn view(&self) -> Seq<u8> {
        self.queue@
    }
}

impl ScancodeStream {
    /// The queue never outgrows its capacity.
    pub open spec fn wf(&self) -> bool {
        self@.len() <= SCANCODE_QUEUE_CAPACITY
    }

    /// An empty queue.
    pub fn new() -> (s: ScancodeStream)
        ensures
            s@ == Seq::<u8>::empty(),
            s.wf(),
    {
        ScancodeStream { queue: Vec::new() }
    }

    /// How many scancodes wait in the queue.
    pub fn len(&self) -> (n: usize)
        ensures
            n == self@.len(),
    {
        self.queue.len()
    }

    /// Pops the oldest scancode, or nothing when the queue is empty.
    pub fn next_scancode(&mut self) -> (r: Option<u8>)
        ensures
            old(self)@.len() == 0 ==> r is None && final (self)@ == old(self)@,
            old(self)@.len() > 0 ==> r == Some(old(self)@[0]) && final (self)@ == old(
                self,
            )@.drop_first(),
            old(self).wf() ==> final (self).wf(),
    {
        if self.queue.len() == 0 {
            return None;
        }
        let code = self.queue.remove(0);
        proof {
            assert(self@ =~= old(self)@.drop_first());
        }
        Some(code)
    }
}

/// Hands one scancode from the interrupt handler to the queue: appended in
/// arrival order, or dropped when the queue is already full.
pub fn add_scancode(stream: &mut ScancodeStream, scancode: u8)
    requires
        old(stream).wf(),
    ensures
        final (stream).wf(),
        old(stream)@.len() < SCANCODE_QUEUE_CAPACITY ==> final (stream)@ == old(stream)@.push(
            scancode,
        ),
        old(stream)@.len() >= SCANCODE_QUEUE_CAPACITY ==> final (stream)@ == old(stream)@,
{
    if stream.queue.len() < SCANCODE_QUEUE_CAPACITY {
        stream.queue.push(scancode);
    }
}

} // verus!
