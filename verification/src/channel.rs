//! The bounded command queue between the input side and the render side.
//! Enqueue never blocks: when the queue is full, the oldest entry is
//! dropped and the newest kept, biasing toward the most recent musical
//! intent.

use vstd::prelude::*;
use crate::command::Command;

verus! {

/// What one enqueue leaves in a queue of capacity `cap`: the command is
/// appended; if the queue was full, the oldest entry goes first.
pub open spec fn enqueue_model(s: Seq<Command>, cap: int, c: Command) -> Seq<Command> {
    if s.len() < cap {
        s.push(c)
    } else {
        s.subrange(1, s.len() as int).push(c)
    }
}

/// What enqueueing every command of `cs`, in order, leaves in the queue.
pub open spec fn enqueue_all_model(s: Seq<Command>, cap: int, cs: Seq<Command>) -> Seq<Command>
    decreases cs.len(),
{
    if cs.len() == 0 {
        s
    } else {
        enqueue_model(enqueue_all_model(s, cap, cs.drop_last()), cap, cs.last())
    }
}

/// Bounded queue of commands, drained oldest-first.
pub struct CommandChannel {
    buf: Vec<Command>,
    cap: usize,
}

impl CommandChannel {
    /// The queued commands, oldest first.
    pub closed spec fn contents(self) -> Seq<Command> {
        self.buf@
    }

    /// The fixed bound on how many commands can wait.
    pub closed spec fn capacity_spec(self) -> int {
        self.cap as int
    }

    /// At least one slot, never more entries than the bound, and every
    /// queued command carries 7-bit data bytes.
    pub open spec fn well_formed(self) -> bool {
        &&& 1 <= self.capacity_spec()
        &&& self.contents().len() <= self.capacity_spec()
        &&& forall|i: int| 0 <= i < self.contents().len() ==> self.contents()[i].well_formed()
    }

    /// An empty queue with room for `capacity` commands.
    pub fn new(capacity: usize) -> (r: CommandChannel)
        requires
            capacity >= 1,
        ensures
            r.well_formed(),
            r.capacity_spec() == capacity,
            r.contents() == Seq::<Command>::empty(),
    {
        CommandChannel { buf: Vec::new(), cap: capacity }
    }

    /// How many commands wait.
    pub fn len(&self) -> (n: usize)
        ensures
            n == self.contents().len(),
    {
        self.buf.len()
    }

    /// The fixed capacity.
    pub fn capacity(&self) -> (n: usize)
        ensures
            n == self.capacity_spec(),
    {
        self.cap
    }

    /// Enqueues `c` without ever blocking or failing: on a full queue the
    /// oldest waiting command is dropped to make room.
    pub fn send(&mut self, c: Command)
        requires
            old(self).well_formed(),
            c.well_formed(),
        ensures
            final(self).well_formed(),
            final(self).capacity_spec() == old(self).capacity_spec(),
            final(self).contents() == enqueue_model(
                old(self).contents(), old(self).capacity_spec(), c),
    {
        if self.buf.len() == self.cap {
            self.buf.remove(0);
        }
        self.buf.push(c);
    }

    /// Takes the oldest waiting command, if any; never blocks.
    pub fn recv(&mut self) -> (r: Option<Command>)
        requires
            old(self).well_formed(),
        ensures
            final(self).well_formed(),
            final(self).capacity_spec() == old(self).capacity_spec(),
            old(self).contents().len() == 0 ==> r is None
                && final(self).contents() == old(self).contents(),
            old(self).contents().len() > 0 ==> r == Some(old(self).contents()[0])
                && final(self).contents() == old(self).contents().subrange(
                    1, old(self).contents().len() as int),
    {
        if self.buf.len() == 0 {
            None
        } else {
            Some(self.buf.remove(0))
        }
    }

    /// The drop-oldest law: whatever already waits (at most `cap` entries),
    /// after enqueueing the commands `cs` the queue holds the newest
    /// `cap` commands of the combined history, in order — so when `cs`
    /// alone has at least `cap` commands, exactly its most recent `cap`
    /// survive and everything older is gone.
    pub proof fn lemma_drop_oldest(s: Seq<Command>, cap: int, cs: Seq<Command>)
        requires
            cap >= 1,
            s.len() <= cap,
        ensures
            enqueue_all_model(s, cap, cs) == (s + cs).skip(
                if s.len() + cs.len() <= cap { 0 } else { s.len() + cs.len() - cap }),
        decreases cs.len(),
    {
        let total = s + cs;
        if cs.len() == 0 {
            assert(s + cs =~= s);
            assert(total.skip(0) =~= total);
        } else {
            let head = cs.drop_last();
            Self::lemma_drop_oldest(s, cap, head);
            let before = enqueue_all_model(s, cap, head);
            let prev = s + head;
            assert(before == prev.skip(
                if prev.len() <= cap { 0 } else { prev.len() as int - cap }));
            assert(enqueue_all_model(s, cap, cs) == enqueue_model(before, cap, cs.last()));
            if prev.len() <= cap {
                if prev.len() < cap {
                    assert(enqueue_model(before, cap, cs.last()) =~= total.skip(0));
                } else {
                    assert(enqueue_model(before, cap, cs.last()) =~= total.skip(
                        total.len() as int - cap));
                }
            } else {
                assert(enqueue_model(before, cap, cs.last()) =~= total.skip(
                    total.len() as int - cap));
            }
        }
    }

    /// Overflow, stated for the history alone: enqueueing at least `cap`
    /// commands into any queue leaves exactly the most recent `cap` of
    /// them, in order.
    pub proof fn lemma_overflow_keeps_newest(s: Seq<Command>, cap: int, cs: Seq<Command>)
        requires
            cap >= 1,
            s.len() <= cap,
            cs.len() >= cap,
        ensures
            enqueue_all_model(s, cap, cs) == cs.skip(cs.len() - cap),
    {
        Self::lemma_drop_oldest(s, cap, cs);
        assert((s + cs).skip(s.len() + cs.len() - cap) =~= cs.skip(cs.len() - cap));
    }
}

} // verus!
