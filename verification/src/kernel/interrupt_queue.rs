//! The queue through which interrupt handlers hand their messages to the
//! main loop.

use crate::ring_buffer::RingBuffer;
use vstd::prelude::*;

verus! {

/// What an interrupt handler reports.
#[derive(Debug, Clone, Copy, PartialEq, Eq, Structural)]
pub enum InterruptMessage {
    Timer(),
    Keyboard(u8),
}

/// The number of messages that the queue holds.
pub const BUFFER_SIZE: usize = 4096;

/// The queue of interrupt messages.
pub type MessageQueue = RingBuffer<InterruptMessage, 4096>;

/// An empty queue of interrupt messages.
pub fn intmsg_queue() -> (queue: MessageQueue)
    ensures
        queue.wf(),
        queue@ == Seq::<InterruptMessage>::empty(),
{
    RingBuffer::new_with(InterruptMessage::Timer())
}

/// Appends `msg` to the queue; a full queue drops the message.
pub fn intmsg_push(queue: &mut MessageQueue, msg: InterruptMessage)
    requires
        old(queue).wf(),
    ensures
        final(queue).wf(),
        final(queue)@ == if old(queue)@.len() < BUFFER_SIZE {
            old(queue)@.push(msg)
        } else {
            old(queue)@
        },
{
    if queue.len() < BUFFER_SIZE {
        let _ = queue.try_push(msg);
    }
}

/// Takes the oldest message out of the queue, if there is one.
pub fn intmsg_pop(queue: &mut MessageQueue) -> (r: Option<InterruptMessage>)
    requires
        old(queue).wf(),
    ensures
        final(queue).wf(),
        match r {
            Some(msg) => {
                &&& old(queue)@.len() > 0
                &&& msg == old(queue)@[0]
                &&& final(queue)@ == old(queue)@.drop_first()
            },
            None => old(queue)@.len() == 0 && final(queue)@ == old(queue)@,
        },
{
    queue.try_pop()
}

} // verus!
