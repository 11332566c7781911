//! The byte buffers of a connection.
use bytes::{Buf, BufMut, BytesMut};
use vstd::prelude::*;

verus! {

/// The size that a buffer starts with, and to which its free room is brought up again.
pub const BUF_LEN: usize = 4096 * 8;

/// A buffer with less free room than this is given more.
pub const MIN_ROOM: usize = 1024;

#[verifier::external_type_specification]
#[verifier::external_body]
pub struct ExBytesMut(BytesMut);

/// The bytes that a buffer holds.
pub uninterp spec fn contents(buf: BytesMut) -> Seq<u8>;

/// Whether `n` bytes fit into one allocation.
pub open spec fn allocatable(n: nat) -> bool {
    n <= isize::MAX
}

/// `BytesMut::with_capacity`: a buffer without bytes and with room for at least `capacity`.
#[verifier::external_body]
pub(crate) fn with_capacity(capacity: usize) -> (buf: BytesMut)
    requires
        allocatable(capacity as nat),
    ensures
        contents(buf) == Seq::<u8>::empty(),
        has_room(buf, capacity as int),
{
    BytesMut::with_capacity(capacity)
}

/// `BytesMut::len`: how many bytes the buffer holds.
#[verifier::external_body]
pub(crate) fn len(buf: &BytesMut) -> (n: usize)
    ensures
        n == contents(*buf).len(),
{
    buf.len()
}

/// `BytesMut::capacity`: how many bytes the buffer can hold without a new allocation, those that
/// it holds among them. What the allocator gave beyond these is left open.
#[verifier::external_body]
pub(crate) fn capacity(buf: &BytesMut) -> (n: usize)
    ensures
        n >= contents(*buf).len(),
{
    buf.capacity()
}

/// Whether `n` is a capacity that a call of [`capacity`] may tell of the buffer.
pub closed spec fn tells_capacity(buf: BytesMut, n: usize) -> bool {
    call_ensures(capacity, (&buf,), n)
}

/// Whether `room` is the free room of the buffer by a capacity that may be told of it.
pub open spec fn tells_room(buf: BytesMut, room: int) -> bool {
    exists|n: usize| #[trigger] tells_capacity(buf, n) && room == n - contents(buf).len()
}

/// Whether the buffer has room for `room` more bytes, whatever its capacity turns out to be.
pub open spec fn has_room(buf: BytesMut, room: int) -> bool {
    forall|n: usize| #[trigger] tells_capacity(buf, n) ==> n - contents(buf).len() >= room
}

/// `BytesMut::reserve`: makes room for at least `additional` more bytes and keeps the bytes. How
/// much more room there is afterwards depends on the allocator.
#[verifier::external_body]
pub(crate) fn reserve(buf: &mut BytesMut, additional: usize)
    requires
        allocatable(contents(*old(buf)).len() + additional as nat),
    ensures
        contents(*final(buf)) == contents(*old(buf)),
        has_room(*final(buf), additional as int),
{
    buf.reserve(additional)
}

/// `BytesMut::chunk_mut`: the length of the free room after the bytes, which is what the capacity
/// leaves. A full buffer is given room for at least 64 bytes first, and any other one stays as it
/// is. The bytes stay.
#[verifier::external_body]
pub(crate) fn chunk_mut_len(buf: &mut BytesMut) -> (n: usize)
    requires
        allocatable(contents(*old(buf)).len() + 64),
    ensures
        n > 0,
        contents(*final(buf)) == contents(*old(buf)),
        tells_room(*final(buf), n as int),
        exists|room: int| #[trigger] tells_room(*old(buf), room),
        forall|room: int| #[trigger]
            tells_room(*old(buf), room) ==> if room > 0 {
                n == room && *final(buf) == *old(buf)
            } else {
                n >= 64
            },
{
    buf.chunk_mut().len()
}

/// `BytesMut::chunk`: the bytes of the buffer in one slice.
#[verifier::external_body]
pub(crate) fn chunk(buf: &BytesMut) -> (bytes: &[u8])
    ensures
        bytes@ == contents(*buf),
{
    buf.chunk()
}

/// `BytesMut::advance`: drops the first `n` bytes.
#[verifier::external_body]
pub(crate) fn advance(buf: &mut BytesMut, n: usize)
    requires
        n <= contents(*old(buf)).len(),
    ensures
        contents(*final(buf)) == contents(*old(buf)).skip(n as int),
{
    buf.advance(n)
}

/// `BytesMut::split_to`: takes the first `n` bytes out of the buffer.
#[verifier::external_body]
pub(crate) fn split_to(buf: &mut BytesMut, n: usize) -> (front: BytesMut)
    requires
        n <= contents(*old(buf)).len(),
    ensures
        contents(front) == contents(*old(buf)).take(n as int),
        contents(*final(buf)) == contents(*old(buf)).skip(n as int),
{
    buf.split_to(n)
}

/// Whether bytes were added at the end of a buffer: where there was room for them, no more room
/// was made.
pub open spec fn extended(before: BytesMut, after: BytesMut, bytes: Seq<u8>) -> bool {
    &&& contents(after) == contents(before) + bytes
    &&& forall|room: int, left: int| #[trigger]
        tells_room(before, room) && room >= bytes.len() && #[trigger] tells_room(after, left)
            ==> left == room - bytes.len()
}

/// `BytesMut::extend_from_slice`: adds bytes at the end. It makes room only where there is too
/// little, and else the capacity stays.
#[verifier::external_body]
pub(crate) fn extend_from_slice(buf: &mut BytesMut, bytes: &[u8])
    requires
        allocatable(contents(*old(buf)).len() + bytes@.len()),
    ensures
        extended(*old(buf), *final(buf), bytes@),
{
    buf.extend_from_slice(bytes)
}

/// How many bytes of room a buffer asks for that can hold `capacity` bytes and holds `len`: none
/// while at least [`MIN_ROOM`] are free, else what is missing to [`BUF_LEN`].
pub fn missing_room(capacity: usize, len: usize) -> (missing: Option<usize>)
    requires
        len <= capacity,
    ensures
        missing is Some <==> capacity - len < MIN_ROOM,
        missing is Some <==> capacity - len < 1024,
        missing matches Some(n) ==> n == BUF_LEN - (capacity - len),
        missing matches Some(n) ==> n + (capacity - len) == 32768,
{
    let rem: usize = capacity - len;
    if rem < MIN_ROOM {
        Some(BUF_LEN - rem)
    } else {
        None
    }
}

/// Whether a buffer was given room as it needs: with less than [`MIN_ROOM`] bytes free, what was
/// missing to [`BUF_LEN`] at least, and else it was left as it is. The bytes stay.
pub open spec fn topped_up(before: BytesMut, after: BytesMut) -> bool {
    &&& contents(after) == contents(before)
    &&& exists|room: int| #[trigger]
        tells_room(before, room) && if room < MIN_ROOM {
            has_room(after, BUF_LEN - room)
        } else {
            after == before
        }
}

/// Gives a buffer that has less than [`MIN_ROOM`] bytes of room the room that [`missing_room`]
/// tells, and leaves any other buffer as it is. The bytes stay.
///
/// How much room the buffer has before is up to the allocator.
pub fn reserve_buf(buf: &mut BytesMut)
    requires
        allocatable(contents(*old(buf)).len() + BUF_LEN as nat),
    ensures
        topped_up(*old(buf), *final(buf)),
        contents(*final(buf)) == contents(*old(buf)),
        exists|n: usize| #[trigger]
            tells_capacity(*old(buf), n) && {
                let room = n - contents(*old(buf)).len();
                if room < 1024 {
                    forall|m: usize| #[trigger]
                        tells_capacity(*final(buf), m) ==> m - contents(*final(buf)).len() + room
                            >= 32768
                } else {
                    *final(buf) == *old(buf)
                }
            },
{
    let cap: usize = capacity(buf);
    assert(tells_capacity(*buf, cap));
    assert(tells_room(*buf, cap - contents(*buf).len()));
    if let Some(missing) = missing_room(cap, len(buf)) {
        reserve(buf, missing);
    }
}

/// Brings the free room of a buffer up with [`reserve_buf`], and tells how much there is then.
pub(crate) fn make_room(buf: &mut BytesMut) -> (room: usize)
    requires
        allocatable(contents(*old(buf)).len() + BUF_LEN as nat),
    ensures
        topped_up(*old(buf), *final(buf)),
        tells_room(*final(buf), room as int),
        room >= MIN_ROOM,
{
    reserve_buf(buf);
    chunk_mut_len(buf)
}

} // verus!
