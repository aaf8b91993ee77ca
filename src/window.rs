//! A bounded window over the most recent bytes of a stream, kept in an
//! outside ring buffer.
use slice_ring_buffer::SliceRingBuffer;
use vstd::prelude::*;

verus! {

#[verifier::external_type_specification]
#[verifier::external_body]
#[verifier::reject_recursive_types(T)]
pub struct ExSliceRingBuffer<T>(SliceRingBuffer<T>);

/// The bytes a ring buffer holds, front first.
pub uninterp spec fn ring_contents(b: SliceRingBuffer<u8>) -> Seq<u8>;

/// Relies on `SliceRingBuffer::with_capacity`: a new, empty buffer. It doubles
/// `n` for its mirrored allocation, so `n` stays within half the address range.
#[verifier::external_body]
fn ring_with_capacity(n: usize) -> (r: SliceRingBuffer<u8>)
    requires
        n <= usize::MAX / 2,
    ensures
        ring_contents(r) == Seq::<u8>::empty(),
{
    SliceRingBuffer::with_capacity(n)
}

/// Relies on `SliceRingBuffer::len`: the number of bytes held.
#[verifier::external_body]
fn ring_len(b: &SliceRingBuffer<u8>) -> (r: usize)
    ensures
        r == ring_contents(*b).len(),
{
    b.len()
}

/// Relies on `SliceRingBuffer::as_slice`: the bytes held, front first.
#[verifier::external_body]
fn ring_get(b: &SliceRingBuffer<u8>, i: usize) -> (r: u8)
    requires
        i < ring_contents(*b).len(),
    ensures
        r == ring_contents(*b)[i as int],
{
    b.as_slice()[i]
}

/// Relies on `SliceRingBuffer::push_back`: appends at the back.
#[verifier::external_body]
fn ring_push_back(b: &mut SliceRingBuffer<u8>, x: u8)
    ensures
        ring_contents(*final(b)) == ring_contents(*old(b)).push(x),
{
    b.push_back(x)
}

/// Relies on `SliceRingBuffer::pop_front`: removes and returns the front byte.
#[verifier::external_body]
fn ring_pop_front(b: &mut SliceRingBuffer<u8>) -> (r: Option<u8>)
    ensures
        ring_contents(*old(b)).len() == 0 ==> r is None && ring_contents(*final(b)) == ring_contents(*old(b)),
        ring_contents(*old(b)).len() > 0 ==> r == Some(ring_contents(*old(b))[0])
            && ring_contents(*final(b)) == ring_contents(*old(b)).drop_first(),
{
    b.pop_front()
}

/// The last `capacity` bytes of a stream (all of it while it is shorter), and
/// how many bytes the stream has had.
pub struct SlidingWindow {
    buffer: SliceRingBuffer<u8>,
    capacity: usize,
    end: usize,
    stream: Ghost<Seq<u8>>,
}

impl SlidingWindow {
    /// Every byte read so far.
    pub closed spec fn stream(&self) -> Seq<u8> {
        self.stream@
    }

    /// The bytes retained, oldest first.
    pub closed spec fn contents(&self) -> Seq<u8> {
        ring_contents(self.buffer)
    }

    pub closed spec fn capacity(&self) -> int {
        self.capacity as int
    }

    /// Offset in the stream of the first retained byte.
    pub open spec fn start(&self) -> int {
        self.stream().len() - self.contents().len()
    }

    pub closed spec fn end(&self) -> int {
        self.end as int
    }

    pub open spec fn wf(&self) -> bool {
        &&& self.end() == self.stream().len()
        &&& self.stream().len() <= usize::MAX
        &&& self.contents().len() == if self.stream().len() < self.capacity() {
            self.stream().len() as int
        } else {
            self.capacity()
        }
        &&& self.contents() == self.stream().subrange(self.start(), self.stream().len() as int)
    }

    /// How many bytes the stream has had.
    pub fn consumed(&self) -> (r: usize)
        requires
            self.wf(),
        ensures
            r == self.stream().len(),
    {
        self.end
    }

    pub fn len(&self) -> (r: usize)
        ensures
            r == self.contents().len(),
    {
        ring_len(&self.buffer)
    }

    /// The retained byte at position `i` of the window.
    pub fn get(&self, i: usize) -> (r: u8)
        requires
            i < self.contents().len(),
        ensures
            r == self.contents()[i as int],
    {
        ring_get(&self.buffer, i)
    }

    /// Appends a byte read from the stream, first evicting the oldest one when
    /// the window is full.
    pub fn push(&mut self, x: u8)
        requires
            old(self).wf(),
            old(self).stream().len() < usize::MAX,
        ensures
            final(self).wf(),
            final(self).capacity() == old(self).capacity(),
            final(self).stream() == old(self).stream().push(x),
    {
        let ghost s = self.stream@.push(x);
        if self.capacity > 0 {
            if ring_len(&self.buffer) == self.capacity {
                ring_pop_front(&mut self.buffer);
            }
            ring_push_back(&mut self.buffer, x);
        }
        self.end = self.end + 1;
        self.stream = Ghost(s);
        assert(self.contents() =~= s.subrange(self.start(), s.len() as int));
    }

    pub fn new(capacity: usize) -> (r: SlidingWindow)
        requires
            capacity <= usize::MAX / 2,
        ensures
            r.wf(),
            r.capacity() == capacity,
            r.stream() == Seq::<u8>::empty(),
    {
        let r = SlidingWindow {
            buffer: ring_with_capacity(capacity),
            capacity,
            end: 0,
            stream: Ghost(Seq::empty()),
        };
        assert(r.contents() =~= r.stream().subrange(0, 0));
        r
    }
}

} // verus!
