//! A simple event channel: `send` accumulates, `drain` takes everything at once.
use vstd::prelude::*;

verus! {

pub struct Events<T> {
    queue: Vec<T>,
}

impl<T> View for Events<T> {
    type V = Seq<T>;

    closed spec fn view(&self) -> Seq<T> {
        self.queue@
    }
}

impl<T> Events<T> {
    pub fn new() -> (e: Self)
        ensures
            e@ == Seq::<T>::empty(),
    {
        Events { queue: Vec::new() }
    }

    pub fn send(&mut self, t: T)
        ensures
            final(self)@ == old(self)@.push(t),
    {
        self.queue.push(t);
    }

    /// Takes every pending event, oldest first, and leaves the channel empty.
    pub fn drain(&mut self) -> (out: Vec<T>)
        ensures
            out@ == old(self)@,
            final(self)@ == Seq::<T>::empty(),
    {
        let mut out: Vec<T> = Vec::new();
        std::mem::swap(&mut out, &mut self.queue);
        out
    }

    pub fn is_empty(&self) -> (b: bool)
        ensures
            b == (self@.len() == 0),
    {
        self.queue.len() == 0
    }
}

impl<T> Default for Events<T> {
    fn default() -> (e: Self)
        ensures
            e@ == Seq::<T>::empty(),
    {
        Events::new()
    }
}

/// The pending events of a channel holding `v` after `send` of each of `sent`, in order
/// (what a series of `send`s leaves, by `send`'s contract).
pub open spec fn after_sends<T>(v: Seq<T>, sent: Seq<T>) -> Seq<T>
    decreases sent.len(),
{
    if sent.len() == 0 {
        v
    } else {
        after_sends(v, sent.drop_last()).push(sent.last())
    }
}

/// The drain law: on a channel with nothing pending, a series of `send`s followed by
/// `drain` hands back every event sent, exactly once and in the order sent (`drain`
/// answers the pending events and leaves none, so a second drain hands back nothing).
pub proof fn law_drain_returns_sent<T>(e: Events<T>, sent: Seq<T>)
    requires
        e@.len() == 0,
    ensures
        after_sends(e@, sent) == sent,
    decreases sent.len(),
{
    if sent.len() > 0 {
        law_drain_returns_sent(e, sent.drop_last());
        assert(sent.drop_last().push(sent.last()) =~= sent);
    } else {
        assert(e@ =~= sent);
    }
}

} // verus!
