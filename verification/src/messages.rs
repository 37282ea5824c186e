//! The bounded message log: a fixed-capacity ring that evicts the oldest
//! entry once full, read out in chronological order.

use vstd::prelude::*;

verus! {

/// A timestamped text line appended by a producer. The timestamp is a
/// caller-supplied tick count; the core does not read clocks itself.
pub struct Message {
    /// When the message was pushed, in the caller's time unit.
    pub time: u64,
    /// The message line.
    pub text: String,
}

/// The mathematical value of a [`Message`].
pub ghost struct MessageV {
    /// When the message was pushed.
    pub time: u64,
    /// The characters of the message line.
    pub text: Seq<char>,
}

impl View for Message {
    type V = MessageV;

    open spec fn view(&self) -> MessageV {
        MessageV { time: self.time, text: self.text@ }
    }
}

/// What one push does to the chronological contents of a ring with
/// capacity `cap`: append, evicting the oldest entry when the ring is
/// full; a ring of capacity zero stays empty.
pub open spec fn ring_push(s: Seq<MessageV>, cap: nat, m: MessageV) -> Seq<MessageV> {
    if cap == 0 {
        s
    } else if s.len() < cap {
        s.push(m)
    } else {
        s.drop_first().push(m)
    }
}

/// The chronological contents after pushing each of `ms` in order.
pub open spec fn ring_push_all(s: Seq<MessageV>, cap: nat, ms: Seq<MessageV>) -> Seq<MessageV>
    decreases ms.len(),
{
    if ms.len() == 0 {
        s
    } else {
        ring_push_all(ring_push(s, cap, ms[0]), cap, ms.drop_first())
    }
}

/// The values of a sequence of messages, in the same order.
pub open spec fn msgs_view(s: Seq<Message>) -> Seq<MessageV> {
    s.map_values(|m: Message| m@)
}

/// A fixed-capacity ring of messages, kept in chronological order.
pub struct MessageRing {
    buf: Vec<Message>,
    cap: usize,
}

impl MessageRing {
    /// The chronological contents, oldest first.
    pub closed spec fn contents(&self) -> Seq<MessageV> {
        msgs_view(self.buf@)
    }

    /// The configured capacity.
    pub closed spec fn spec_capacity(&self) -> nat {
        self.cap as nat
    }

    /// The ring never holds more messages than its capacity.
    pub closed spec fn wf(&self) -> bool {
        self.buf@.len() <= self.cap
    }

    /// An empty ring that will hold at most `capacity` messages.
    pub fn new(capacity: usize) -> (r: MessageRing)
        ensures
            r.wf(),
            r.contents() == Seq::<MessageV>::empty(),
            r.spec_capacity() == capacity,
    {
        let r = MessageRing { buf: Vec::new(), cap: capacity };
        proof {
            assert(r.contents() =~= Seq::<MessageV>::empty());
        }
        r
    }

    /// The configured capacity, a cheap size hint for preallocation.
    pub fn capacity(&self) -> (n: usize)
        ensures
            n == self.spec_capacity(),
    {
        self.cap
    }

    /// How many messages the ring currently holds.
    pub fn len(&self) -> (n: usize)
        ensures
            n == self.contents().len(),
    {
        self.buf.len()
    }

    /// Append a message; once the ring is full the oldest entry is
    /// evicted, so the ring never exceeds its capacity.
    pub fn push(&mut self, m: Message)
        requires
            old(self).wf(),
        ensures
            final(self).wf(),
            final(self).spec_capacity() == old(self).spec_capacity(),
            final(self).contents() == ring_push(
                old(self).contents(),
                old(self).spec_capacity(),
                m@,
            ),
            final(self).contents().len() <= final(self).spec_capacity(),
    {
        if self.cap == 0 {
            return;
        }
        if self.buf.len() == self.cap {
            self.buf.remove(0);
            proof {
                assert(msgs_view(self.buf@) =~= old(self).contents().drop_first());
            }
        }
        let ghost before = msgs_view(self.buf@);
        self.buf.push(m);
        proof {
            assert(msgs_view(self.buf@) =~= before.push(m@));
        }
    }

    /// Clear `out` and refill it with the current contents in
    /// chronological order, reusing its allocation.
    pub fn copy_messages(&self, out: &mut Vec<Message>)
        ensures
            msgs_view(final(out)@) == self.contents(),
    {
        out.clear();
        let mut i: usize = 0;
        while i < self.buf.len()
            invariant
                i <= self.buf.len(),
                out@.len() == i,
                msgs_view(out@) =~= msgs_view(self.buf@).take(i as int),
            decreases self.buf.len() - i,
        {
            let ghost prev = out@;
            let src = &self.buf[i];
            out.push(Message { time: src.time, text: src.text.clone() });
            proof {
                assert(out@ == prev.push(out@[i as int]));
                assert(out@[i as int]@ == self.buf@[i as int]@);
                assert(msgs_view(out@) =~= msgs_view(self.buf@).take(i + 1));
            }
            i += 1;
        }
        proof {
            assert(msgs_view(out@) =~= self.contents());
        }
    }
}

/// Pushing onto a ring with enough room left simply appends.
proof fn lemma_ring_fill(s: Seq<MessageV>, cap: nat, ms: Seq<MessageV>)
    requires
        s.len() + ms.len() <= cap,
    ensures
        ring_push_all(s, cap, ms) == s + ms,
    decreases ms.len(),
{
    if ms.len() == 0 {
        assert(ring_push_all(s, cap, ms) =~= s + ms);
    } else {
        assert(ring_push(s, cap, ms[0]) == s.push(ms[0]));
        lemma_ring_fill(s.push(ms[0]), cap, ms.drop_first());
        assert(s.push(ms[0]) + ms.drop_first() =~= s + ms);
    }
}

/// After `capacity + 1` pushes into an initially empty ring, the oldest
/// message is the one absent and the remaining `capacity` messages keep
/// their order: the contents are exactly the pushes with the first one
/// dropped.
pub proof fn lemma_ring_eviction(cap: nat, ms: Seq<MessageV>)
    requires
        cap > 0,
        ms.len() == cap + 1,
    ensures
        ring_push_all(Seq::<MessageV>::empty(), cap, ms) == ms.drop_first(),
{
    lemma_ring_push_all_split(Seq::<MessageV>::empty(), cap, ms.take(cap as int), ms.skip(cap as int));
    assert(ms.take(cap as int) + ms.skip(cap as int) =~= ms);
    lemma_ring_fill(Seq::<MessageV>::empty(), cap, ms.take(cap as int));
    let full = Seq::<MessageV>::empty() + ms.take(cap as int);
    assert(full =~= ms.take(cap as int));
    let last = ms.skip(cap as int);
    assert(last.len() == 1);
    let x = ring_push(full, cap, last[0]);
    assert(ring_push_all(x, cap, last.drop_first()) == x);
    assert(ring_push_all(full, cap, last) == x);
    assert(last[0] == ms[cap as int]);
    assert(full.drop_first().push(ms[cap as int]) =~= ms.drop_first());
}

/// Pushing a concatenation is pushing the parts one after the other.
proof fn lemma_ring_push_all_split(s: Seq<MessageV>, cap: nat, ms1: Seq<MessageV>, ms2: Seq<MessageV>)
    ensures
        ring_push_all(s, cap, ms1 + ms2) == ring_push_all(ring_push_all(s, cap, ms1), cap, ms2),
    decreases ms1.len(),
{
    if ms1.len() == 0 {
        assert(ms1 + ms2 =~= ms2);
    } else {
        assert((ms1 + ms2)[0] == ms1[0]);
        assert((ms1 + ms2).drop_first() =~= ms1.drop_first() + ms2);
        lemma_ring_push_all_split(ring_push(s, cap, ms1[0]), cap, ms1.drop_first(), ms2);
    }
}

} // verus!
