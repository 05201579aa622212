//! The buffer in which payloads are laid out, one after the other.

use vstd::prelude::*;

use crate::payloads::{Payloads, framed, offsets_ordered, payload_start};
use crate::queue::Queue;
use crate::utf8::append;

verus! {

/// The payloads in `payloads_buf`, each of which but the last ends at one of `offsets`.
pub(crate) struct PayloadBuffer {
    payloads_buf: Vec<u8>,
    offsets: Vec<usize>,
    with_length_prefix: bool,
}

impl View for PayloadBuffer {
    type V = Queue;

    closed spec fn view(&self) -> Queue {
        Queue {
            closed: Seq::new(self.offsets@.len(), |i: int| self.body(i)),
            open: self.payloads_buf@.skip(
                self.start(self.offsets@.len() as int) + self.prefix_len(),
            ),
        }
    }
}

impl PayloadBuffer {
    /// The number of bytes that precede a payload.
    spec fn prefix_len(&self) -> int {
        if self.with_length_prefix {
            4
        } else {
            0
        }
    }

    /// Where the payload with the index `i` starts, its length prefix included.
    spec fn start(&self, i: int) -> int {
        payload_start(self.offsets@, i)
    }

    /// The complete payload with the index `i`, without its length prefix.
    spec fn body(&self, i: int) -> Seq<u8> {
        self.payloads_buf@.subrange(self.start(i) + self.prefix_len(), self.offsets@[i] as int)
    }

    /// Whether the payload with the index `i` holds its length prefix.
    spec fn frame_ok(&self, i: int) -> bool {
        &&& self.start(i) + self.prefix_len() <= self.offsets@[i]
        &&& self.payloads_buf@.subrange(self.start(i), self.offsets@[i] as int) == framed(
            self.body(i),
            self.with_length_prefix,
        )
    }

    /// Whether payloads are prefixed with their length.
    pub closed spec fn prefixed(&self) -> bool {
        self.with_length_prefix
    }

    /// Whether the buffer is laid out as its offsets say.
    pub closed spec fn inv(&self) -> bool {
        &&& offsets_ordered(self.offsets@, self.payloads_buf@.len())
        &&& forall|i: int| 0 <= i < self.offsets@.len() ==> #[trigger] self.frame_ok(i)
        &&& self.start(self.offsets@.len() as int) + self.prefix_len() <= self.payloads_buf@.len()
    }

    /// Creates an empty buffer.
    pub(crate) fn new(with_length_prefix: bool) -> (buffer: Self)
        ensures
            buffer.inv(),
            buffer.prefixed() == with_length_prefix,
            buffer@ == Queue::nothing(),
    {
        let mut buffer = PayloadBuffer {
            payloads_buf: Vec::new(),
            offsets: Vec::new(),
            with_length_prefix,
        };
        buffer.prepare_for_write();
        assert(buffer@ =~= Queue::nothing());
        buffer
    }

    /// Returns the offset at which the current payload starts.
    fn last_offset(&self) -> (offset: usize)
        ensures
            offset == self.start(self.offsets@.len() as int),
    {
        if self.offsets.len() == 0 {
            0
        } else {
            self.offsets[self.offsets.len() - 1]
        }
    }

    /// Returns the number of bytes in the current payload.
    pub(crate) fn current_payload_len(&self) -> (len: usize)
        requires
            self.inv(),
        ensures
            len == self@.open.len(),
    {
        let last_offset = self.last_offset();
        let maybe_length_prefix_len: usize = if self.with_length_prefix {
            4
        } else {
            0
        };
        self.payloads_buf.len() - last_offset - maybe_length_prefix_len
    }

    /// Leaves room for the length of the next payload, if lengths are prefixed. The length is
    /// filled in when the payload is complete.
    fn prepare_for_write(&mut self)
        ensures
            final(self).offsets == old(self).offsets,
            final(self).with_length_prefix == old(self).with_length_prefix,
            final(self).payloads_buf@.len() == old(self).payloads_buf@.len() + old(
                self,
            ).prefix_len(),
            final(self).payloads_buf@.take(old(self).payloads_buf@.len() as int) == old(
                self,
            ).payloads_buf@,
    {
        if self.with_length_prefix {
            append(&mut self.payloads_buf, [0, 0, 0, 0].as_slice());
        }
        assert(self.payloads_buf@.take(old(self).payloads_buf@.len() as int) =~= old(
            self,
        ).payloads_buf@);
    }

    /// Finalizes the current payload and starts a new one.
    ///
    /// This handles writing the length prefix if we're using them, and preparing the buffer for the
    /// next payload. If the current payload is empty, this method does nothing.
    pub(crate) fn finalize_current_payload(&mut self)
        requires
            old(self).inv(),
            old(self)@.open.len() <= u32::MAX,
        ensures
            final(self).inv(),
            final(self).prefixed() == old(self).prefixed(),
            final(self)@ == old(self)@.finalized(),
    {
        let current_payload_len = self.current_payload_len();
        if current_payload_len == 0 {
            return;
        }
        let ghost count = self.offsets@.len() as int;
        let ghost begin = self.start(count);
        let ghost body = self@.open;
        if self.with_length_prefix {
            let offset = self.last_offset();
            assert(offset + 4 <= self.payloads_buf.len());
            self.payloads_buf[offset] = (current_payload_len % 256) as u8;
            self.payloads_buf[offset + 1] = (current_payload_len / 256 % 256) as u8;
            self.payloads_buf[offset + 2] = (current_payload_len / 65536 % 256) as u8;
            self.payloads_buf[offset + 3] = (current_payload_len / 16777216 % 256) as u8;
        }
        let ghost filled = self.payloads_buf@;
        let end: usize = self.payloads_buf.len();
        assert(filled.subrange(begin, end as int) =~= framed(body, self.with_length_prefix));
        self.offsets.push(end);
        self.prepare_for_write();
        proof {
            let ends = self.offsets@;
            assert forall|j: int|
                0 <= j < begin || begin + self.prefix_len() <= j < end implies (
            #[trigger] self.payloads_buf@[j]) == old(self).payloads_buf@[j] by {
                assert(self.payloads_buf@.take(end as int)[j] == filled[j]);
            }
            assert(self.payloads_buf@.take(end as int) == filled);
            assert forall|i: int|
                #![trigger self.frame_ok(i)]
                #![trigger self.body(i)]
                0 <= i <= count implies self.frame_ok(i) && self.body(i) == (if i < count {
                old(self).body(i)
            } else {
                body
            }) by {
                let stop = ends[i] as int;
                let first = self.start(i);
                if i < count {
                    assert(old(self).frame_ok(i));
                    assert(old(self).offsets@[i] <= begin) by {
                        if i < count - 1 {
                            assert(old(self).offsets@[i] <= old(self).offsets@[count - 1]);
                        }
                    }
                    assert(first == old(self).start(i));
                    if i > 0 {
                        assert(old(self).offsets@[i - 1] <= old(self).offsets@[i]);
                    }
                    assert(self.body(i) =~= old(self).body(i));
                    assert(self.payloads_buf@.subrange(first, stop) =~= old(
                        self,
                    ).payloads_buf@.subrange(first, stop));
                } else {
                    assert(self.body(i) =~= body);
                    assert(self.payloads_buf@.subrange(first, stop) =~= filled.subrange(
                        begin,
                        end as int,
                    ));
                }
            }
            assert(self@.closed =~= old(self)@.finalized().closed);
            assert(self@.open =~= Seq::<u8>::empty());
        }
    }

    /// Appends `bytes` to the current payload.
    pub(crate) fn extend(&mut self, bytes: &[u8])
        requires
            old(self).inv(),
        ensures
            final(self).inv(),
            final(self).prefixed() == old(self).prefixed(),
            final(self)@ == (Queue { open: old(self)@.open + bytes@, ..old(self)@ }),
    {
        append(&mut self.payloads_buf, bytes);
        proof {
            assert forall|i: int|
                #![trigger self.frame_ok(i)]
                #![trigger self.body(i)]
                0 <= i < self.offsets@.len() implies self.frame_ok(i) && self.body(i) == old(
                self,
            ).body(i) by {
                assert(old(self).frame_ok(i));
                if i > 0 {
                    assert(self.offsets@[i - 1] <= self.offsets@[i]);
                }
                assert(self.body(i) =~= old(self).body(i));
                assert(self.payloads_buf@.subrange(self.start(i), self.offsets@[i] as int) =~= old(
                    self,
                ).payloads_buf@.subrange(self.start(i), self.offsets@[i] as int));
            }
            assert(self@.closed =~= old(self)@.closed);
            assert(self@.open =~= old(self)@.open + bytes@);
        }
    }

    /// Moves the complete payloads out of the buffer.
    pub(crate) fn take_payloads(&mut self) -> (payloads: Payloads)
        requires
            old(self).inv(),
        ensures
            final(self).inv(),
            final(self).prefixed() == old(self).prefixed(),
            final(self)@ == (Queue { closed: Seq::empty(), ..old(self)@ }),
            payloads.wf(),
            payloads@ == old(self)@.closed.map_values(
                |body: Seq<u8>| framed(body, old(self).prefixed()),
            ),
    {
        let payloads = Payloads::new(&mut self.payloads_buf, &mut self.offsets);
        proof {
            assert forall|i: int| 0 <= i < old(self).offsets@.len() implies #[trigger] payloads@[i]
                == framed(old(self)@.closed[i], old(self).prefixed()) by {
                assert(old(self).frame_ok(i));
            }
            assert(payloads@ =~= old(self)@.closed.map_values(
                |body: Seq<u8>| framed(body, old(self).prefixed()),
            ));
            assert(self@.closed =~= Seq::<Seq<u8>>::empty());
            assert(self@.open =~= old(self)@.open);
        }
        payloads
    }
}

} // verus!
