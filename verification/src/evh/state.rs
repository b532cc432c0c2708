use vstd::prelude::*;
use crate::base::error::Error;

verus! {

/// Event-loop counters.
#[derive(Clone, Copy, Debug)]
pub struct EvhStats {
    pub accepts: usize,
    pub closes: usize,
    pub reads: usize,
    pub delay_writes: usize,
    pub event_loops: usize,
}

impl EvhStats {
    /// All counters at zero.
    pub fn new() -> (r: Self)
        ensures
            r.accepts == 0 && r.closes == 0 && r.reads == 0 && r.delay_writes == 0 && r.event_loops == 0,
    {
        EvhStats { accepts: 0, closes: 0, reads: 0, delay_writes: 0, event_loops: 0 }
    }

    /// Sets all counters to zero.
    pub fn reset(&mut self)
        ensures
            final(self).accepts == 0 && final(self).closes == 0 && final(self).reads == 0
                && final(self).delay_writes == 0 && final(self).event_loops == 0,
    {
        self.accepts = 0;
        self.closes = 0;
        self.reads = 0;
        self.delay_writes = 0;
        self.event_loops = 0;
    }

    /// Adds `stats` counter by counter.
    pub fn incr_stats(&mut self, stats: &EvhStats)
        requires
            old(self).accepts + stats.accepts <= usize::MAX,
            old(self).closes + stats.closes <= usize::MAX,
            old(self).reads + stats.reads <= usize::MAX,
            old(self).delay_writes + stats.delay_writes <= usize::MAX,
            old(self).event_loops + stats.event_loops <= usize::MAX,
        ensures
            final(self).accepts == old(self).accepts + stats.accepts,
            final(self).closes == old(self).closes + stats.closes,
            final(self).reads == old(self).reads + stats.reads,
            final(self).delay_writes == old(self).delay_writes + stats.delay_writes,
            final(self).event_loops == old(self).event_loops + stats.event_loops,
    {
        self.accepts += stats.accepts;
        self.closes += stats.closes;
        self.reads += stats.reads;
        self.delay_writes += stats.delay_writes;
        self.event_loops += stats.event_loops;
    }
}

/// The counters of all event-loop threads, and how many threads have reported since the last
/// notification.
pub struct GlobalStats {
    pub stats: EvhStats,
    pub update_counter: usize,
}

impl GlobalStats {
    /// Adds a thread's counters, which are then reset, and counts the report: once `threads`
    /// threads have reported, the count restarts and `true` says that whoever waits for the
    /// totals is to be notified.
    pub fn update_stats(&mut self, thread_stats: &mut EvhStats, threads: usize) -> (r: bool)
        requires
            old(self).update_counter < usize::MAX,
            old(self).stats.accepts + old(thread_stats).accepts <= usize::MAX,
            old(self).stats.closes + old(thread_stats).closes <= usize::MAX,
            old(self).stats.reads + old(thread_stats).reads <= usize::MAX,
            old(self).stats.delay_writes + old(thread_stats).delay_writes <= usize::MAX,
            old(self).stats.event_loops + old(thread_stats).event_loops <= usize::MAX,
        ensures
            final(self).stats.accepts == old(self).stats.accepts + old(thread_stats).accepts,
            final(self).stats.closes == old(self).stats.closes + old(thread_stats).closes,
            final(self).stats.reads == old(self).stats.reads + old(thread_stats).reads,
            final(self).stats.delay_writes == old(self).stats.delay_writes + old(thread_stats).delay_writes,
            final(self).stats.event_loops == old(self).stats.event_loops + old(thread_stats).event_loops,
            r == (old(self).update_counter + 1 >= threads),
            r ==> final(self).update_counter == 0,
            !r ==> final(self).update_counter == old(self).update_counter + 1,
            final(thread_stats).accepts == 0 && final(thread_stats).closes == 0 && final(thread_stats).reads
                == 0 && final(thread_stats).delay_writes == 0 && final(thread_stats).event_loops == 0,
    {
        self.stats.incr_stats(thread_stats);
        self.update_counter += 1;
        let notify = self.update_counter >= threads;
        if notify {
            self.update_counter = 0;
        }
        thread_stats.reset();
        notify
    }
}

/// Whether a blocked event loop must be woken: a wake-up has been asked for (`requested`) and
/// the loop is about to block or blocking (`needed`).
pub struct WakeupState {
    pub requested: bool,
    pub needed: bool,
}

impl WakeupState {
    /// Neither asked for nor needed.
    pub fn new() -> (r: Self)
        ensures
            !r.requested && !r.needed,
    {
        WakeupState { requested: false, needed: false }
    }

    /// Asks for a wake-up; `true` when a byte must be written to the loop's wake-up pipe (the
    /// loop is blocking and no wake-up was asked for yet).
    pub fn wakeup(&mut self) -> (r: bool)
        ensures
            r == (old(self).needed && !old(self).requested),
            final(self).requested,
            final(self).needed == old(self).needed,
    {
        let need = self.needed && !self.requested;
        self.requested = true;
        need
    }

    /// Before blocking: the loop needs waking from now on; gives whether a wake-up was already
    /// asked for (then it should not block).
    pub fn pre_block(&mut self) -> (r: bool)
        ensures
            r == old(self).requested,
            final(self).needed,
            final(self).requested == old(self).requested,
    {
        self.needed = true;
        self.requested
    }

    /// After blocking: clears both.
    pub fn post_block(&mut self)
        ensures
            !final(self).requested && !final(self).needed,
    {
        self.requested = false;
        self.needed = false;
    }
}

/// Data is queued for writing.
pub const WRITE_STATE_FLAG_PENDING: u8 = 0x1;
/// The connection is to be closed.
pub const WRITE_STATE_FLAG_CLOSE: u8 = 0x2;
/// A read callback is to be triggered.
pub const WRITE_STATE_FLAG_TRIGGER_ON_READ: u8 = 0x4;

/// What a write on a connection does first.
#[derive(Clone, Copy, Debug, PartialEq, Eq, Structural)]
pub enum WriteStart {
    /// The connection is closed: the write is refused.
    Refused,
    /// Earlier data is still queued: everything is queued behind it.
    Queue,
    /// Nothing is queued: the data is written to the socket directly.
    Direct,
}

/// A connection's write side: its flags and the bytes queued for writing.
pub struct WriteState {
    flags: u8,
    write_buffer: Vec<u8>,
}

impl WriteState {
    /// The flags.
    pub closed spec fn spec_flags(&self) -> u8 {
        self.flags
    }

    /// The queued bytes.
    pub closed spec fn queued(&self) -> Seq<u8> {
        self.write_buffer@
    }

    /// No flags, nothing queued.
    pub fn new() -> (r: Self)
        ensures
            r.spec_flags() == 0,
            r.queued() == Seq::<u8>::empty(),
    {
        WriteState { flags: 0, write_buffer: Vec::new() }
    }

    /// Sets `flag`.
    pub fn set_flag(&mut self, flag: u8)
        ensures
            final(self).spec_flags() == old(self).spec_flags() | flag,
            final(self).queued() == old(self).queued(),
    {
        self.flags = self.flags | flag;
    }

    /// Clears `flag`.
    pub fn unset_flag(&mut self, flag: u8)
        ensures
            final(self).spec_flags() == old(self).spec_flags() & !flag,
            final(self).queued() == old(self).queued(),
    {
        self.flags = self.flags & !flag;
    }

    /// Whether any bit of `flag` is set.
    pub fn is_set(&self, flag: u8) -> (r: bool)
        ensures
            r == (self.spec_flags() & flag != 0),
    {
        self.flags & flag != 0
    }

    /// How a write starts (see `WriteStart`).
    pub fn write_start(&self) -> (r: WriteStart)
        ensures
            self.spec_flags() & WRITE_STATE_FLAG_CLOSE != 0 ==> r == WriteStart::Refused,
            self.spec_flags() & WRITE_STATE_FLAG_CLOSE == 0 && self.spec_flags() & WRITE_STATE_FLAG_PENDING
                != 0 ==> r == WriteStart::Queue,
            self.spec_flags() & WRITE_STATE_FLAG_CLOSE == 0 && self.spec_flags() & WRITE_STATE_FLAG_PENDING
                == 0 ==> r == WriteStart::Direct,
    {
        if self.is_set(WRITE_STATE_FLAG_CLOSE) {
            WriteStart::Refused
        } else if self.is_set(WRITE_STATE_FLAG_PENDING) {
            WriteStart::Queue
        } else {
            WriteStart::Direct
        }
    }

    /// Queues what a write did not put on the socket: the bytes of `data` after the first
    /// `written` ones, if any, are queued and the pending flag set.
    pub fn finish_write(&mut self, data: &[u8], written: usize)
        requires
            written <= data@.len(),
        ensures
            written < data@.len() ==> final(self).queued() == old(self).queued() + data@.skip(written as int)
                && final(self).spec_flags() == old(self).spec_flags() | WRITE_STATE_FLAG_PENDING,
            written == data@.len() ==> *final(self) == *old(self),
    {
        if written < data.len() {
            let rest = &data[written..data.len()];
            assert(rest@ =~= data@.skip(written as int));
            self.queue_data(rest);
        }
    }

    /// Queues `data` and sets the pending flag.
    pub fn queue_data(&mut self, data: &[u8])
        ensures
            final(self).queued() == old(self).queued() + data@,
            final(self).spec_flags() == old(self).spec_flags() | WRITE_STATE_FLAG_PENDING,
    {
        self.set_flag(WRITE_STATE_FLAG_PENDING);
        let mut i: usize = 0;
        let ghost q0 = self.write_buffer@;
        while i < data.len()
            invariant
                i <= data@.len(),
                self.write_buffer@ == q0 + data@.take(i as int),
                self.flags == old(self).flags | WRITE_STATE_FLAG_PENDING,
                q0 == old(self).write_buffer@,
            decreases data@.len() - i,
        {
            self.write_buffer.push(data[i]);
            i += 1;
            assert(self.write_buffer@ =~= q0 + data@.take(i as int));
        }
        assert(data@.take(data@.len() as int) =~= data@);
    }

    /// Marks the connection to be closed; `IllegalState` when it already is.
    pub fn close(&mut self) -> (r: Result<(), Error>)
        ensures
            old(self).spec_flags() & WRITE_STATE_FLAG_CLOSE != 0 ==> r == Err::<(), Error>(
                Error::IllegalState) && *final(self) == *old(self),
            old(self).spec_flags() & WRITE_STATE_FLAG_CLOSE == 0 ==> r is Ok && final(self).spec_flags()
                == old(self).spec_flags() | WRITE_STATE_FLAG_CLOSE && final(self).queued() == old(self).queued(),
    {
        if self.is_set(WRITE_STATE_FLAG_CLOSE) {
            return Err(Error::IllegalState);
        }
        self.set_flag(WRITE_STATE_FLAG_CLOSE);
        Ok(())
    }

    /// Asks for a read callback; `IllegalState` on a closed connection.
    pub fn trigger_on_read(&mut self) -> (r: Result<(), Error>)
        ensures
            old(self).spec_flags() & WRITE_STATE_FLAG_CLOSE != 0 ==> r == Err::<(), Error>(
                Error::IllegalState) && *final(self) == *old(self),
            old(self).spec_flags() & WRITE_STATE_FLAG_CLOSE == 0 ==> r is Ok && final(self).spec_flags()
                == old(self).spec_flags() | WRITE_STATE_FLAG_TRIGGER_ON_READ && final(self).queued() == old(
                self).queued(),
    {
        if self.is_set(WRITE_STATE_FLAG_CLOSE) {
            return Err(Error::IllegalState);
        }
        self.set_flag(WRITE_STATE_FLAG_TRIGGER_ON_READ);
        Ok(())
    }

    /// The queued bytes, to be written to the socket.
    pub fn pending(&self) -> (r: &[u8])
        ensures
            r@ == self.queued(),
    {
        self.write_buffer.as_slice()
    }

    /// Drops the first `written` queued bytes (those the socket took); once nothing is
    /// queued the pending flag is cleared. Gives whether bytes remain.
    pub fn consume(&mut self, written: usize) -> (r: bool)
        requires
            written <= old(self).queued().len(),
        ensures
            final(self).queued() == old(self).queued().skip(written as int),
            r == (final(self).queued().len() > 0),
            r ==> final(self).spec_flags() == old(self).spec_flags(),
            !r ==> final(self).spec_flags() == old(self).spec_flags() & !WRITE_STATE_FLAG_PENDING,
    {
        let mut rest: Vec<u8> = Vec::new();
        let mut i: usize = written;
        while i < self.write_buffer.len()
            invariant
                written <= i <= self.write_buffer@.len(),
                self.write_buffer@ == old(self).write_buffer@,
                self.flags == old(self).flags,
                rest@ == old(self).write_buffer@.subrange(written as int, i as int),
            decreases self.write_buffer@.len() - i,
        {
            rest.push(self.write_buffer[i]);
            i += 1;
            assert(rest@ =~= old(self).write_buffer@.subrange(written as int, i as int));
        }
        self.write_buffer = rest;
        assert(self.write_buffer@ =~= old(self).write_buffer@.skip(written as int));
        if self.write_buffer.len() == 0 {
            self.unset_flag(WRITE_STATE_FLAG_PENDING);
            false
        } else {
            true
        }
    }
}

/// The kind of a ready event.
#[derive(Clone, Copy, Debug, PartialEq, Eq, Structural)]
pub enum EventType {
    Read,
    Write,
    ReadWrite,
}

/// What a ready event asks of its connection: (read, write).
pub fn event_work(t: EventType) -> (r: (bool, bool))
    ensures
        r.0 == (t == EventType::Read || t == EventType::ReadWrite),
        r.1 == (t == EventType::Write || t == EventType::ReadWrite),
{
    match t {
        EventType::Read => (true, false),
        EventType::Write => (false, true),
        EventType::ReadWrite => (true, true),
    }
}

/// A step of a worker's pass over one batch of events.
#[derive(Clone, Copy, Debug, PartialEq, Eq, Structural)]
pub enum LoopStep {
    /// The triggered read at this index of the trigger list.
    TriggeredRead(usize),
    /// The ready event at this index.
    ReadyEvent(usize),
    /// The batch is done.
    Done,
}

/// The step a worker takes with its two cursors: the triggered reads come first, then the
/// ready events, then the batch is done. After a panic this is also the step that was under
/// way, whose connection recovery closes before the cursor moves past it.
pub fn next_step(trigger_itt: usize, trigger_count: usize, ret_event_itt: usize, ret_event_count: usize)
    -> (r: LoopStep)
    requires
        trigger_itt <= trigger_count,
        ret_event_itt <= ret_event_count,
    ensures
        trigger_itt < trigger_count ==> r == LoopStep::TriggeredRead(trigger_itt),
        trigger_itt == trigger_count && ret_event_itt < ret_event_count ==> r == LoopStep::ReadyEvent(
            ret_event_itt),
        trigger_itt == trigger_count && ret_event_itt == ret_event_count ==> r == LoopStep::Done,
{
    if trigger_itt < trigger_count {
        LoopStep::TriggeredRead(trigger_itt)
    } else if ret_event_itt < ret_event_count {
        LoopStep::ReadyEvent(ret_event_itt)
    } else {
        LoopStep::Done
    }
}

} // verus!
