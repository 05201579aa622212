//! The payloads that a writer hands out.

use vstd::prelude::*;
use vstd::slice::slice_subrange;

verus! {

/// The four bytes of `n`, least significant first.
pub open spec fn le_bytes(n: nat) -> Seq<u8> {
    seq![
        (n % 256) as u8,
        (n / 256 % 256) as u8,
        (n / 65536 % 256) as u8,
        (n / 16777216 % 256) as u8,
    ]
}

/// A payload as it is handed out: after its length, if lengths are prefixed.
pub open spec fn framed(body: Seq<u8>, with_length_prefix: bool) -> Seq<u8> {
    if with_length_prefix {
        le_bytes(body.len()) + body
    } else {
        body
    }
}

/// Where the payload that ends at `offsets[i]` starts.
pub open spec fn payload_start(offsets: Seq<usize>, i: int) -> int {
    if i == 0 {
        0
    } else {
        offsets[i - 1] as int
    }
}

/// Whether `offsets` are the ends of consecutive payloads within `len` bytes.
pub open spec fn offsets_ordered(offsets: Seq<usize>, len: nat) -> bool {
    &&& forall|i: int, j: int| 0 <= i < j < offsets.len() ==> offsets[i] <= offsets[j]
    &&& forall|i: int| 0 <= i < offsets.len() ==> #[trigger] offsets[i] <= len
}

/// The payloads written by a `PayloadWriter`, in the order in which they were written.
///
/// The bytes are moved out of the writer when this value is made, so the writer is ready for new
/// metrics from then on.
pub struct Payloads {
    buf: Vec<u8>,
    start: usize,
    offsets: Vec<usize>,
    next: usize,
}

impl View for Payloads {
    type V = Seq<Seq<u8>>;

    /// The payloads that have not been handed out yet.
    closed spec fn view(&self) -> Seq<Seq<u8>> {
        Seq::new(
            (self.offsets@.len() - self.next) as nat,
            |i: int|
                self.buf@.subrange(
                    payload_start(self.offsets@, self.next + i),
                    self.offsets@[self.next + i] as int,
                ),
        )
    }
}

impl Payloads {
    /// Whether the offsets cut the buffer into payloads.
    pub closed spec fn wf(&self) -> bool {
        &&& offsets_ordered(self.offsets@, self.buf@.len())
        &&& self.next <= self.offsets@.len()
        &&& self.start == payload_start(self.offsets@, self.next as int)
    }

    /// Moves the payloads out of `payload_buf` and `offsets`.
    ///
    /// The bytes after the last offset, such as the room kept for a length prefix, belong to the
    /// next payload and stay in `payload_buf`.
    pub(crate) fn new(payload_buf: &mut Vec<u8>, offsets: &mut Vec<usize>) -> (payloads: Self)
        requires
            offsets_ordered(old(offsets)@, old(payload_buf)@.len()),
        ensures
            payloads.wf(),
            payloads@ == Seq::new(
                old(offsets)@.len(),
                |i: int|
                    old(payload_buf)@.subrange(
                        payload_start(old(offsets)@, i),
                        old(offsets)@[i] as int,
                    ),
            ),
            final(offsets)@ == Seq::<usize>::empty(),
            final(payload_buf)@ == old(payload_buf)@.skip(
                payload_start(old(offsets)@, old(offsets)@.len() as int),
            ),
    {
        let drain_size: usize = if offsets.len() == 0 {
            0
        } else {
            offsets[offsets.len() - 1]
        };
        let mut buf = payload_buf.split_off(drain_size);
        std::mem::swap(payload_buf, &mut buf);
        let mut ends: Vec<usize> = Vec::new();
        std::mem::swap(offsets, &mut ends);
        let payloads = Payloads { buf, start: 0, offsets: ends, next: 0 };
        proof {
            assert(ends@ == old(offsets)@);
            assert(buf@ == old(payload_buf)@.take(drain_size as int));
            assert forall|i: int| 0 <= i < ends@.len() implies #[trigger] ends@[i]
                <= drain_size by {
                if i < ends@.len() - 1 {
                    assert(ends@[i] <= ends@[ends@.len() - 1]);
                }
            }
            assert forall|i: int| 0 <= i < ends@.len() implies #[trigger] payloads@[i]
                == old(payload_buf)@.subrange(payload_start(old(offsets)@, i), ends@[i] as int) by {
                assert(ends@[i] <= drain_size);
                if i > 0 {
                    assert(ends@[i - 1] <= ends@[i]);
                }
                assert(payloads@[i] =~= old(payload_buf)@.subrange(
                    payload_start(old(offsets)@, i),
                    ends@[i] as int,
                ));
            }
        }
        payloads
    }

    /// Returns the number of remaining payloads.
    pub fn len(&self) -> (count: usize)
        requires
            self.wf(),
        ensures
            count == self@.len(),
    {
        self.offsets.len() - self.next
    }

    /// Returns the next payload, or `None` if there are no more payloads.
    pub fn next_payload(&mut self) -> (payload: Option<&[u8]>)
        requires
            old(self).wf(),
        ensures
            final(self).wf(),
            match payload {
                Some(bytes) => {
                    &&& old(self)@.len() > 0
                    &&& bytes@ == old(self)@[0]
                    &&& final(self)@ == old(self)@.drop_first()
                },
                None => {
                    &&& old(self)@.len() == 0
                    &&& final(self)@ == old(self)@
                },
            },
    {
        if self.next == self.offsets.len() {
            return None;
        }
        let offset: usize = self.offsets[self.next];
        proof {
            if self.next > 0 {
                assert(self.offsets@[self.next - 1] <= self.offsets@[self.next as int]);
            }
        }
        let bytes = slice_subrange(self.buf.as_slice(), self.start, offset);
        self.start = offset;
        self.next += 1;
        assert(self@ =~= old(self)@.drop_first());
        Some(bytes)
    }
}

} // verus!
