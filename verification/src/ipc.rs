//! An in-memory transport, for driving a datapath without a socket.

use vstd::prelude::*;

verus! {

/// Why a transport operation failed.
pub struct Error(pub String);

/// A transport that keeps everything sent over it and never forgets.
///
/// Sending appends to one buffer; receiving reads that buffer from its start
/// and leaves it as it is.
pub struct FakeIpc(Vec<u8>);

impl View for FakeIpc {
    type V = Seq<u8>;

    /// Every byte sent so far, oldest first.
    closed spec fn view(&self) -> Seq<u8> {
        self.0@
    }
}

/// How many bytes one receive hands over: as many as the caller has room for and
/// the transport holds.
pub open spec fn received_len(held: nat, room: nat) -> nat {
    if room <= held {
        room
    } else {
        held
    }
}

/// What one receive hands over.
pub open spec fn received(held: Seq<u8>, room: nat) -> Seq<u8> {
    held.take(received_len(held.len(), room) as int)
}

impl FakeIpc {
    /// A transport over which nothing has been sent.
    pub fn new() -> (ipc: Self)
        ensures
            ipc@ == Seq::<u8>::empty(),
    {
        FakeIpc(Vec::new())
    }

    /// Appends `msg` to what the transport holds. The address is ignored.
    pub fn send(&mut self, _addr: Option<u16>, msg: &[u8]) -> (res: Result<(), Error>)
        ensures
            res == Ok::<(), Error>(()),
            final(self)@ == old(self)@ + msg@,
    {
        self.0.extend_from_slice(msg);
        Ok(())
    }

    /// Copies the oldest bytes held into the front of `msg` and returns them; the
    /// length of the returned slice is the number of bytes read. The rest of `msg`
    /// is untouched.
    pub fn recv<'a>(&self, msg: &'a mut [u8]) -> (res: Result<&'a [u8], Error>)
        ensures
            res is Ok,
            res->Ok_0@ == received(self@, old(msg)@.len()),
            final(msg)@ == res->Ok_0@ + old(msg)@.skip(res->Ok_0@.len() as int),
    {
        let held: usize = self.0.len();
        let room: usize = msg.len();
        let w: usize = if room <= held { room } else { held };
        let ghost before = msg@;
        let mut i: usize = 0;
        while i < w
            invariant
                i <= w,
                w <= self.0@.len(),
                w <= before.len(),
                msg@ =~= self.0@.take(i as int) + before.skip(i as int),
            decreases w - i,
        {
            msg[i] = self.0[i];
            i += 1;
        }
        let filled: &'a [u8] = msg;
        Ok(vstd::slice::slice_subrange(filled, 0, w))
    }

    /// Closing the transport has no effect on what it holds.
    pub fn close(&self) -> (res: Result<(), Error>)
        ensures
            res == Ok::<(), Error>(()),
    {
        Ok(())
    }
}

/// With room for all of it, a receive hands over everything sent, in the order sent.
pub proof fn law_receive_everything_sent(first: Seq<u8>, second: Seq<u8>, room: nat)
    requires
        first.len() + second.len() <= room,
    ensures
        received(Seq::<u8>::empty() + first + second, room) == first + second,
{
    assert(Seq::<u8>::empty() + first + second =~= first + second);
    assert((first + second).take((first + second).len() as int) =~= first + second);
}

/// Sending more does not change what was there to receive: a receive hands over the same
/// bytes as before, and more only where there is room left.
pub proof fn law_later_sends_follow(held: Seq<u8>, msg: Seq<u8>, room: nat)
    ensures
        received(held, room).is_prefix_of(received(held + msg, room)),
        room <= held.len() ==> received(held + msg, room) == received(held, room),
{
    let before = received(held, room);
    let after = received(held + msg, room);
    assert(before =~= after.subrange(0, before.len() as int));
    if room <= held.len() {
        assert(before =~= after);
    }
}

} // verus!
