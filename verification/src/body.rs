//! Reading of request bodies.
use crate::buf::{
    advance, allocatable, chunk, contents, extend_from_slice, len, make_room, split_to, tells_room,
    topped_up, MIN_ROOM,
};
use bytes::BytesMut;
use vstd::prelude::*;
use vstd::slice::slice_subrange;

verus! {

/// A body that is being read: the bytes received and not yet read, which those of the next
/// requests may follow, the length of the body and how much of it was read.
pub struct BodyModel {
    pub received: Seq<u8>,
    pub limit: nat,
    pub read: nat,
}

impl BodyModel {
    pub open spec fn valid(self) -> bool {
        self.read <= self.limit
    }

    /// How much of the body was not read yet.
    pub open spec fn remaining(self) -> int {
        self.limit - self.read
    }

    /// How much of the body was received and not read yet.
    pub open spec fn available(self) -> int {
        if self.received.len() < self.remaining() {
            self.received.len() as int
        } else {
            self.remaining()
        }
    }

    /// The bytes received that come after the body.
    pub open spec fn beyond(self) -> Seq<u8> {
        self.received.skip(self.available())
    }

    /// How much of the body a reader gets that has room for `room` bytes.
    pub open spec fn share(self, room: int) -> int {
        if room < self.available() {
            room
        } else {
            self.available()
        }
    }

    /// How much is to be received at most into a buffer with room for `room` bytes.
    pub open spec fn wanted(self, room: int) -> int {
        if room < self.remaining() {
            room
        } else {
            self.remaining()
        }
    }

    /// The next `n` bytes read.
    pub open spec fn after_reading(self, n: int) -> BodyModel {
        BodyModel {
            received: self.received.skip(n),
            limit: self.limit,
            read: (self.read + n) as nat,
        }
    }

    /// More bytes received.
    pub open spec fn after_receiving(self, data: Seq<u8>) -> BodyModel {
        BodyModel { received: self.received + data, limit: self.limit, read: self.read }
    }
}

/// What a reader is to do next.
#[derive(Debug)]
pub enum ReadStep {
    /// The body was read to its end.
    End,
    /// These bytes of the body were read.
    Data(BytesMut),
    /// Bytes are to be received first, at most this many.
    Receive(usize),
}

/// What a buffered reader is to do next.
#[derive(Clone, Copy, Debug, PartialEq, Eq, Structural)]
pub enum FillStep {
    /// The body was read to its end.
    End,
    /// Bytes of the body are at hand.
    Ready,
    /// Bytes are to be received first, at most this many.
    Receive(usize),
}

/// A reader of the body of a request. The buffer holds what was received after the head of the
/// request: the body, or its first part, and what follows it.
pub struct BodyReader<'buf> {
    pub req_buf: &'buf mut BytesMut,
    pub body_limit: usize,
    pub total_read: usize,
}

fn least(a: usize, b: usize) -> (r: usize)
    ensures
        r == if a < b {
            a
        } else {
            b
        },
{
    if a < b {
        a
    } else {
        b
    }
}

impl<'buf> BodyReader<'buf> {
    pub open spec fn model(&self) -> BodyModel {
        BodyModel {
            received: contents(*self.req_buf),
            limit: self.body_limit as nat,
            read: self.total_read as nat,
        }
    }

    /// A read into a buffer with room for `room` bytes. Received bytes are handed out first; only
    /// without any are more asked for, as many as the body has left or the buffer of the reader has
    /// room for, whichever is less.
    pub fn poll_read(&mut self, room: usize) -> (step: ReadStep)
        requires
            old(self).model().valid(),
        ensures
            final(self).model().valid(),
            *final(final(self).req_buf) == *final(old(self).req_buf),
            final(self).body_limit == old(self).body_limit,
            step is End <==> old(self).body_limit == old(self).total_read,
            step is Data <==> old(self).body_limit != old(self).total_read && contents(
                *old(self).req_buf,
            ).len() > 0,
            final(self).total_read == old(self).total_read + (if let ReadStep::Data(data) = step {
                contents(data).len()
            } else {
                0
            }),
            contents(*old(self).req_buf) == (if let ReadStep::Data(data) = step {
                contents(data)
            } else {
                Seq::empty()
            }) + contents(*final(self).req_buf),
            match step {
                ReadStep::End => {
                    &&& old(self).model().remaining() == 0
                    &&& final(self).model() == old(self).model()
                },
                ReadStep::Data(data) => {
                    let n = old(self).model().share(room as int);
                    &&& old(self).model().available() > 0
                    &&& contents(data) == old(self).model().received.take(n)
                    &&& final(self).model() == old(self).model().after_reading(n)
                    &&& contents(data).len() <= room
                    &&& contents(data).len() <= old(self).body_limit - old(self).total_read
                    &&& contents(data).len() == room || contents(data).len()
                        == old(self).body_limit - old(self).total_read || contents(
                        *final(self).req_buf,
                    ).len() == 0
                },
                ReadStep::Receive(most) => {
                    &&& old(self).model().remaining() > 0
                    &&& old(self).model().received.len() == 0
                    &&& 0 < most <= old(self).model().remaining()
                    &&& final(self).model() == old(self).model()
                    &&& topped_up(*old(self).req_buf, *final(self).req_buf)
                    &&& exists|free: int| #[trigger]
                        tells_room(*final(self).req_buf, free) && free >= MIN_ROOM && most
                            == old(self).model().wanted(free)
                },
            },
    {
        let remaining: usize = self.body_limit - self.total_read;
        if remaining == 0 {
            return ReadStep::End;
        }
        let buffered: usize = len(self.req_buf);
        if buffered > 0 {
            let to_copy: usize = least(least(remaining, room), buffered);
            let data = split_to(self.req_buf, to_copy);
            self.total_read = self.total_read + to_copy;
            return ReadStep::Data(data);
        }
        let most: usize = least(make_room(self.req_buf), remaining);
        ReadStep::Receive(most)
    }

    /// Goes on with a read into a buffer with room for `room` bytes when `data` was received.
    pub fn read_received(&mut self, data: &[u8], room: usize) -> (front: BytesMut)
        requires
            old(self).model().valid(),
            old(self).model().received.len() == 0,
            data@.len() <= old(self).model().remaining(),
            allocatable(data@.len()),
        ensures
            ({
                let grown = old(self).model().after_receiving(data@);
                let n = grown.share(room as int);
                &&& contents(front) == grown.received.take(n)
                &&& final(self).model() == grown.after_reading(n)
            }),
            final(self).model().valid(),
            *final(final(self).req_buf) == *final(old(self).req_buf),
            final(self).body_limit == old(self).body_limit,
            final(self).total_read == old(self).total_read + contents(front).len(),
            data@ == contents(front) + contents(*final(self).req_buf),
            contents(front).len() <= room,
            contents(front).len() == room || contents(*final(self).req_buf).len() == 0,
    {
        let remaining: usize = self.body_limit - self.total_read;
        extend_from_slice(self.req_buf, data);
        let to_copy: usize = least(least(remaining, room), data.len());
        let front = split_to(self.req_buf, to_copy);
        self.total_read = self.total_read + to_copy;
        front
    }

    /// Asks for bytes to be at hand. Received bytes will do; only without any are more asked for,
    /// as many as the body has left or the buffer has room for, whichever is less.
    pub fn poll_fill_buf(&mut self) -> (step: FillStep)
        requires
            old(self).model().valid(),
        ensures
            final(self).model() == old(self).model(),
            *final(final(self).req_buf) == *final(old(self).req_buf),
            contents(*final(self).req_buf) == contents(*old(self).req_buf),
            final(self).body_limit == old(self).body_limit,
            final(self).total_read == old(self).total_read,
            step is End <==> old(self).body_limit == old(self).total_read,
            step is Ready <==> old(self).body_limit != old(self).total_read && contents(
                *old(self).req_buf,
            ).len() > 0,
            match step {
                FillStep::End => old(self).model().remaining() == 0,
                FillStep::Ready => old(self).model().available() > 0,
                FillStep::Receive(most) => {
                    &&& old(self).model().remaining() > 0
                    &&& old(self).model().received.len() == 0
                    &&& 0 < most <= old(self).model().remaining()
                    &&& topped_up(*old(self).req_buf, *final(self).req_buf)
                    &&& exists|free: int| #[trigger]
                        tells_room(*final(self).req_buf, free) && free >= MIN_ROOM && most
                            == old(self).model().wanted(free)
                },
            },
    {
        let remaining: usize = self.body_limit - self.total_read;
        if remaining == 0 {
            return FillStep::End;
        }
        if len(self.req_buf) > 0 {
            return FillStep::Ready;
        }
        let most: usize = least(make_room(self.req_buf), remaining);
        FillStep::Receive(most)
    }

    /// Takes in bytes that were received for [`BodyReader::poll_fill_buf`].
    pub fn fill_received(&mut self, data: &[u8])
        requires
            old(self).model().valid(),
            old(self).model().received.len() == 0,
            data@.len() <= old(self).model().remaining(),
            allocatable(data@.len()),
        ensures
            final(self).model() == old(self).model().after_receiving(data@),
            *final(final(self).req_buf) == *final(old(self).req_buf),
            contents(*final(self).req_buf) == contents(*old(self).req_buf) + data@,
            final(self).body_limit == old(self).body_limit,
            final(self).total_read == old(self).total_read,
    {
        extend_from_slice(self.req_buf, data);
    }

    /// The bytes of the body that are at hand.
    pub fn fill_buf(&self) -> (bytes: &[u8])
        requires
            self.model().valid(),
        ensures
            bytes@ == self.model().received.take(self.model().available()),
            bytes@.is_prefix_of(contents(*old(self.req_buf))),
            bytes@.len() <= self.body_limit - self.total_read,
            bytes@.len() == self.body_limit - self.total_read || bytes@ == contents(
                *old(self.req_buf),
            ),
    {
        let remaining: usize = self.body_limit - self.total_read;
        let available: usize = least(len(self.req_buf), remaining);
        slice_subrange(chunk(self.req_buf), 0, available)
    }

    /// Marks `amt` of the bytes at hand as read.
    pub fn consume(&mut self, amt: usize)
        requires
            old(self).model().valid(),
            amt <= old(self).model().available(),
        ensures
            final(self).model() == old(self).model().after_reading(amt as int),
            final(self).model().valid(),
            *final(final(self).req_buf) == *final(old(self).req_buf),
            final(self).body_limit == old(self).body_limit,
            final(self).total_read == old(self).total_read + amt,
            contents(*final(self).req_buf) == contents(*old(self).req_buf).skip(amt as int),
    {
        self.total_read = self.total_read + amt;
        advance(self.req_buf, amt);
    }

    /// Ends the reading: what was received of the body and not read is dropped.
    pub fn finish(self)
        requires
            self.model().valid(),
        ensures
            contents(*final(self.req_buf)) == self.model().beyond(),
            contents(*final(self.req_buf)) == contents(*old(self.req_buf)).skip(
                if self.body_limit - self.total_read < contents(*old(self.req_buf)).len() {
                    self.body_limit - self.total_read
                } else {
                    contents(*old(self.req_buf)).len() as int
                },
            ),
    {
        let mut reader = self;
        let rest: usize = least(reader.body_limit - reader.total_read, len(reader.req_buf));
        reader.consume(rest);
    }
}

/// A step in the life of a body.
pub enum BodyOp {
    /// Bytes are received, which happens only when none are at hand.
    Receive(Seq<u8>),
    /// The next bytes at hand are read.
    Read(nat),
}

impl BodyOp {
    /// Whether a reader takes this step in the state `m`.
    pub open spec fn allowed(self, m: BodyModel) -> bool {
        match self {
            BodyOp::Receive(data) => m.received.len() == 0 && data.len() <= m.remaining(),
            BodyOp::Read(n) => n <= m.available(),
        }
    }

    pub open spec fn result(self, m: BodyModel) -> BodyModel {
        match self {
            BodyOp::Receive(data) => m.after_receiving(data),
            BodyOp::Read(n) => m.after_reading(n as int),
        }
    }

    /// The bytes that the step takes in.
    pub open spec fn input(self) -> Seq<u8> {
        match self {
            BodyOp::Receive(data) => data,
            BodyOp::Read(n) => Seq::empty(),
        }
    }

    /// The bytes that the step hands out.
    pub open spec fn output(self, m: BodyModel) -> Seq<u8> {
        match self {
            BodyOp::Receive(data) => Seq::empty(),
            BodyOp::Read(n) => m.received.take(n as int),
        }
    }
}

/// The state after some steps.
pub open spec fn run(m: BodyModel, ops: Seq<BodyOp>) -> BodyModel
    decreases ops.len(),
{
    if ops.len() == 0 {
        m
    } else {
        ops.last().result(run(m, ops.drop_last()))
    }
}

/// Whether a reader can take some steps one after the other.
pub open spec fn all_allowed(m: BodyModel, ops: Seq<BodyOp>) -> bool
    decreases ops.len(),
{
    ops.len() == 0 || (all_allowed(m, ops.drop_last()) && ops.last().allowed(
        run(m, ops.drop_last()),
    ))
}

/// All bytes that some steps take in.
pub open spec fn inputs(ops: Seq<BodyOp>) -> Seq<u8>
    decreases ops.len(),
{
    if ops.len() == 0 {
        Seq::empty()
    } else {
        inputs(ops.drop_last()) + ops.last().input()
    }
}

/// All bytes that some steps hand out.
pub open spec fn outputs(m: BodyModel, ops: Seq<BodyOp>) -> Seq<u8>
    decreases ops.len(),
{
    if ops.len() == 0 {
        Seq::empty()
    } else {
        outputs(m, ops.drop_last()) + ops.last().output(run(m, ops.drop_last()))
    }
}

/// However a body is read, no byte is lost, made up, repeated or put elsewhere: what was handed
/// out and what is still at hand are together what was at hand and what was received. As much was
/// counted as read as was handed out, and never more than the body is long.
pub proof fn reading_keeps_bytes_in_order(m: BodyModel, ops: Seq<BodyOp>)
    requires
        m.valid(),
        all_allowed(m, ops),
    ensures
        outputs(m, ops) + run(m, ops).received == m.received + inputs(ops),
        run(m, ops).limit == m.limit,
        run(m, ops).read == m.read + outputs(m, ops).len(),
        run(m, ops).valid(),
    decreases ops.len(),
{
    if ops.len() > 0 {
        reading_keeps_bytes_in_order(m, ops.drop_last());
    }
}

/// However a body is read, what was received of the requests after it stays where it is, and
/// nothing more of them is received.
pub proof fn reading_leaves_what_follows(m: BodyModel, ops: Seq<BodyOp>)
    requires
        m.valid(),
        all_allowed(m, ops),
    ensures
        run(m, ops).beyond() == m.beyond(),
    decreases ops.len(),
{
    if ops.len() > 0 {
        reading_keeps_bytes_in_order(m, ops.drop_last());
        reading_leaves_what_follows(m, ops.drop_last());
    }
}

/// A body that was read to its end was handed out as the bytes that came first, as many as it is
/// long, and what is at hand then is what follows it.
pub proof fn whole_body_is_read(m: BodyModel, ops: Seq<BodyOp>)
    requires
        m.valid(),
        all_allowed(m, ops),
        run(m, ops).remaining() == 0,
    ensures
        outputs(m, ops) == (m.received + inputs(ops)).take(m.remaining()),
        run(m, ops).received == m.beyond(),
{
    reading_keeps_bytes_in_order(m, ops);
    reading_leaves_what_follows(m, ops);
}

} // verus!
