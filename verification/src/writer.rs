//! Writing metrics into payloads.

use vstd::prelude::*;
use vstd::utf8::*;

use crate::buffer::PayloadBuffer;
use crate::line::{
    MetricWrite, full_name, rate_of, text_of, trailer, write_full_name, write_rate_section,
    write_time_section,
};
use crate::metric::{
    FloatText, Key, Label, LabelView, MetricType, MetricValue, MetricValueFormatter, copy_labels,
    decimal, label_views, number_texts,
};
use crate::outcome::{Tally, WriteResult};
use crate::packing::{
    Metric, groups, lemma_groups_fit, lemma_groups_none, lemma_groups_one, misfits,
    values_text,
};
use crate::payloads::{Payloads, framed};
use crate::queue::Queue;
use crate::tags::{joined, render_tags, tag_list, write_all_tags};
use crate::utf8::append;

verus! {

/// The length of `a:0|c` and its newline, the smallest payload that holds a metric.
pub const SMALLEST_VALID_PAYLOAD_LEN: usize = 6;

/// The settings of a [`PayloadWriter`] and the payloads that it holds.
#[verifier::ext_equal]
pub struct WriterView {
    pub max_payload_len: nat,
    pub with_length_prefix: bool,
    pub global_labels: Seq<LabelView>,
    pub sanitize: bool,
    pub queue: Queue,
}

impl WriterView {
    /// Whether the maximum payload length is in range and every payload is within it.
    pub open spec fn valid(self) -> bool {
        &&& SMALLEST_VALID_PAYLOAD_LEN <= self.max_payload_len <= u32::MAX
        &&& self.queue.within(self.max_payload_len)
    }

    /// What `write` is rendered to.
    pub open spec fn metric(self, write: MetricWrite) -> Metric {
        write.metric(self.global_labels, self.sanitize)
    }

    /// The lines that are written for `write`.
    pub open spec fn lines(self, write: MetricWrite) -> Seq<Seq<u8>> {
        self.metric(write).lines(self.max_payload_len)
    }

    /// The outcome of `write`.
    pub open spec fn tally(self, write: MetricWrite) -> Tally {
        self.metric(write).tally(self.max_payload_len)
    }

    /// The writer after `write`.
    pub open spec fn after(self, write: MetricWrite) -> WriterView {
        WriterView {
            queue: self.queue.added_all(self.lines(write), self.max_payload_len),
            ..self
        }
    }

    /// The payloads that are handed out next.
    pub open spec fn payloads(self) -> Seq<Seq<u8>> {
        self.queue.finalized().closed.map_values(
            |body: Seq<u8>| framed(body, self.with_length_prefix),
        )
    }

    /// The writer after its payloads are handed out.
    pub open spec fn drained(self) -> WriterView {
        WriterView { queue: Queue::nothing(), ..self }
    }
}

/// Writes payloads into larger buffers for more efficient network I/O.
///
/// DogStatsD metrics are always newline delimited, which means that multiple metrics can be sent in
/// a single "payload", and then trivially split apart by the remote server. This helps save on the
/// number of system calls required to send the metrics over the network, ultimately making writes
/// more efficient.
///
/// A maximum payload length must be specified, which configures the writer's behavior around how it
/// emits the payloads. Each payload is a slice that contains one or more complete metrics while not
/// exceeding the maximum payload length.
pub struct PayloadWriter {
    max_payload_len: usize,
    buffer: PayloadBuffer,
    header_buf: Vec<u8>,
    values_buf: Vec<u8>,
    trailer_buf: Vec<u8>,
    global_labels: Vec<Label>,
    global_tags_buf: Vec<u8>,
    sanitize: bool,
}

impl View for PayloadWriter {
    type V = WriterView;

    closed spec fn view(&self) -> WriterView {
        WriterView {
            max_payload_len: self.max_payload_len as nat,
            with_length_prefix: self.buffer.prefixed(),
            global_labels: label_views(self.global_labels@),
            sanitize: self.sanitize,
            queue: self.buffer@,
        }
    }
}

impl PayloadWriter {
    /// Whether the payloads are laid out properly and the global tags are rendered.
    spec fn inv(&self) -> bool {
        &&& self@.valid()
        &&& self.buffer.inv()
        &&& self.global_tags_buf@ == encode_utf8(
            joined(tag_list(label_views(self.global_labels@), self.sanitize)),
        )
    }

    /// Whether no values are left over from an earlier write, and everything else is in order.
    pub closed spec fn settled(&self) -> bool {
        &&& self.inv()
        &&& self.values_buf@.len() == 0
    }

    /// Whether the writer is ready for the next write.
    pub open spec fn wf(&self) -> bool {
        &&& self@.valid()
        &&& self.settled()
    }

    /// The metric line that has been written but not committed to a payload.
    spec fn uncommitted(&self) -> Seq<u8> {
        self.header_buf@ + self.values_buf@ + self.trailer_buf@
    }

    /// Creates a new `PayloadWriter` with the given maximum payload length.
    ///
    /// When `with_length_prefix` is `true`, the writer will prefix each payload with a 4-byte
    /// length prefix. This prefix does not count towards the payload length.
    pub fn new(max_payload_len: usize, with_length_prefix: bool) -> (writer: Self)
        requires
            SMALLEST_VALID_PAYLOAD_LEN <= max_payload_len <= u32::MAX,
        ensures
            writer.wf(),
            writer@ == (WriterView {
                max_payload_len: max_payload_len as nat,
                with_length_prefix,
                global_labels: Seq::empty(),
                sanitize: true,
                queue: Queue::nothing(),
            }),
    {
        let writer = PayloadWriter {
            max_payload_len,
            buffer: PayloadBuffer::new(with_length_prefix),
            header_buf: Vec::new(),
            values_buf: Vec::new(),
            trailer_buf: Vec::new(),
            global_labels: Vec::new(),
            global_tags_buf: Vec::new(),
            sanitize: true,
        };
        assert(writer@.global_labels =~= Seq::<LabelView>::empty());
        writer
    }

    /// Sets the global labels to apply to all metrics.
    #[must_use]
    pub fn with_global_labels(self, global_labels: &[Label]) -> (writer: Self)
        requires
            self.wf(),
        ensures
            writer.wf(),
            writer@ == (WriterView { global_labels: label_views(global_labels@), ..self@ }),
    {
        let mut writer = self;
        writer.global_labels = copy_labels(global_labels);
        writer.render_global_tags();
        writer
    }

    /// Sets whether metric names and labels are sanitized according to Datadog's rules.
    #[must_use]
    pub fn with_sanitization(self, enabled: bool) -> (writer: Self)
        requires
            self.wf(),
        ensures
            writer.wf(),
            writer@ == (WriterView { sanitize: enabled, ..self@ }),
    {
        let mut writer = self;
        writer.sanitize = enabled;
        writer.render_global_tags();
        writer
    }

    /// Renders the global labels into their final on-the-wire form.
    ///
    /// Global tags are identical for every metric, so sanitizing them once here keeps that work off
    /// the write path entirely, where it would otherwise be repeated for every global label on
    /// every metric written.
    fn render_global_tags(&mut self)
        requires
            old(self)@.valid(),
            old(self).buffer.inv(),
            old(self).values_buf@.len() == 0,
        ensures
            final(self).settled(),
            final(self)@ == old(self)@,
    {
        self.global_tags_buf = render_tags(self.global_labels.as_slice(), self.sanitize);
    }

    /// Returns how many bytes the uncommitted metric can grow by without exceeding the maximum
    /// payload length, or `None` if it exceeds it already.
    fn uncommitted_room(&self) -> (room: Option<usize>)
        ensures
            match room {
                Some(room) => room == self.max_payload_len - self.uncommitted().len(),
                None => self.uncommitted().len() > self.max_payload_len,
            },
    {
        let mut room: usize = self.max_payload_len;
        if self.header_buf.len() > room {
            return None;
        }
        room -= self.header_buf.len();
        if self.values_buf.len() > room {
            return None;
        }
        room -= self.values_buf.len();
        if self.trailer_buf.len() > room {
            return None;
        }
        Some(room - self.trailer_buf.len())
    }

    /// Returns `true` if a value of `len` bytes could not be added to the uncommitted metric, after
    /// a colon, without exceeding the maximum payload length.
    fn would_value_exceed_limit(&self, len: usize) -> (exceeds: bool)
        ensures
            exceeds == (self.uncommitted().len() + 1 + len > self.max_payload_len),
    {
        match self.uncommitted_room() {
            Some(room) => len >= room,
            None => true,
        }
    }

    /// Commits the uncommitted metric to the current payload.
    ///
    /// If the uncommitted metric is larger than the maximum payload length, it will be discarded.
    /// If the current payload cannot fit the uncommitted metric without exceeding the maximum
    /// payload length, the current payload will first be finalized and a new one started before
    /// writing the uncommitted metric.
    ///
    /// Returns `true` if the uncommitted metric was successfully committed, or `false` if it was
    /// discarded.
    fn commit(&mut self) -> (committed: bool)
        requires
            old(self).inv(),
        ensures
            committed == (old(self).uncommitted().len() <= old(self).max_payload_len),
            !committed ==> *final(self) == *old(self),
            committed ==> {
                &&& final(self).settled()
                &&& final(self).header_buf == old(self).header_buf
                &&& final(self).trailer_buf == old(self).trailer_buf
                &&& final(self)@ == (WriterView {
                    queue: old(self)@.queue.added(
                        old(self).uncommitted(),
                        old(self)@.max_payload_len,
                    ),
                    ..old(self)@
                })
            },
    {
        // A metric that is larger than the maximum payload length by itself has to be discarded
        // regardless of whether or not the current payload is empty.
        let spare = match self.uncommitted_room() {
            Some(room) => room,
            None => {
                return false;
            },
        };
        // If the current payload has no room for the metric, finalize it and start a new one.
        if self.buffer.current_payload_len() > spare {
            self.buffer.finalize_current_payload();
        }
        let ghost open = self.buffer@.open;
        self.buffer.extend(self.header_buf.as_slice());
        self.buffer.extend(self.values_buf.as_slice());
        self.buffer.extend(self.trailer_buf.as_slice());
        assert(self.buffer@.open =~= open + old(self).uncommitted());
        // Clear out the value buffer since we don't want to double write, but leave the
        // header/trailer because we might be reusing it in a multi-value write.
        self.values_buf.clear();
        proof {
            assert(self@.queue =~= old(self)@.queue.added(
                old(self).uncommitted(),
                old(self)@.max_payload_len,
            ));
            assert(self@.valid());
        }
        true
    }

    /// Writes the part of a metric that precedes its values.
    fn write_metric_header(&mut self, prefix: Option<&str>, key: &Key)
        requires
            old(self).settled(),
        ensures
            final(self).settled(),
            final(self)@ == old(self)@,
            final(self).trailer_buf == old(self).trailer_buf,
            final(self).header_buf@ == encode_utf8(
                full_name(text_of(prefix), key@.name, old(self)@.sanitize),
            ),
    {
        self.header_buf.clear();
        write_full_name(&mut self.header_buf, prefix, key, self.sanitize);
        assert(self.header_buf@ =~= encode_utf8(
            full_name(text_of(prefix), key@.name, self.sanitize),
        ));
    }

    /// Writes the part of a metric that follows its values.
    fn write_metric_trailer(
        &mut self,
        key: &Key,
        metric_type: MetricType,
        maybe_timestamp: Option<u64>,
        maybe_sample_rate: Option<&FloatText>,
    )
        requires
            old(self).settled(),
        ensures
            final(self).settled(),
            final(self)@ == old(self)@,
            final(self).header_buf == old(self).header_buf,
            final(self).trailer_buf@ == trailer(
                metric_type,
                rate_of(maybe_sample_rate),
                tag_list(key@.labels, old(self)@.sanitize) + tag_list(
                    old(self)@.global_labels,
                    old(self)@.sanitize,
                ),
                maybe_timestamp,
            ),
    {
        let ghost global_labels = self@.global_labels;
        self.trailer_buf.clear();
        append(&mut self.trailer_buf, metric_type.as_bytes().as_slice());
        // The sample rate is written if it's not 1.0, as that is the implied default.
        write_rate_section(&mut self.trailer_buf, maybe_sample_rate);
        // The tags of the key come first, then the global tags, which were already sanitized and
        // joined when they were configured.
        write_all_tags(
            &mut self.trailer_buf,
            key.labels(),
            self.sanitize,
            self.global_tags_buf.as_slice(),
            Ghost(global_labels),
        );
        write_time_section(&mut self.trailer_buf, maybe_timestamp);
        // We always add a trailing newline, regardless of whether or not we're using a length
        // prefix.
        self.trailer_buf.push('\n' as u8);
        assert(self.trailer_buf@ =~= trailer(
            metric_type,
            rate_of(maybe_sample_rate),
            tag_list(key@.labels, self.sanitize) + tag_list(self@.global_labels, self.sanitize),
            maybe_timestamp,
        ));
    }

    /// Writes a metric with a single value.
    fn try_write_single(
        &mut self,
        key: &Key,
        metric_value: MetricValue<'_>,
        metric_type: MetricType,
        maybe_timestamp: Option<u64>,
        prefix: Option<&str>,
    ) -> (result: WriteResult)
        requires
            old(self).wf(),
        ensures
            final(self).wf(),
            ({
                let write = MetricWrite {
                    key: key@,
                    metric_type,
                    texts: seq![metric_value.text()],
                    sample_rate: None,
                    timestamp: maybe_timestamp,
                    prefix: text_of(prefix),
                };
                &&& final(self)@ == old(self)@.after(write)
                &&& result@ == old(self)@.tally(write)
            }),
    {
        let ghost write = MetricWrite {
            key: key@,
            metric_type,
            texts: seq![metric_value.text()],
            sample_rate: None,
            timestamp: maybe_timestamp,
            prefix: text_of(prefix),
        };
        let ghost metric = self@.metric(write);
        let ghost limit = self@.max_payload_len;
        self.write_metric_header(prefix, key);
        self.write_metric_trailer(key, metric_type, maybe_timestamp, None);

        let mut formatter = MetricValueFormatter::new();
        let text = formatter.format(metric_value);
        proof {
            lemma_groups_one(metric_value.text(), metric.room(limit));
        }

        // If the full metric exceeds the maximum payload length, there is nothing to write.
        if self.would_value_exceed_limit(text.len()) {
            assert(metric.lines(limit) =~= Seq::<Seq<u8>>::empty());
            return WriteResult::failure(1);
        }
        self.values_buf.clear();
        self.values_buf.push(':' as u8);
        append(&mut self.values_buf, text);
        proof {
            let line = metric.line(seq![metric_value.text()]);
            assert(self.values_buf@ =~= values_text(seq![metric_value.text()]));
            assert(self.uncommitted() =~= line);
            assert(metric.lines(limit) =~= seq![line]);
            assert(seq![line].drop_last() =~= Seq::<Seq<u8>>::empty());
            reveal_with_fuel(Queue::added_all, 2);
        }
        if self.commit() {
            WriteResult::success(1)
        } else {
            WriteResult::failure(1)
        }
    }

    /// Writes a metric with any number of values.
    fn try_write_multiple(
        &mut self,
        key: &Key,
        metric_values: &[FloatText],
        metric_type: MetricType,
        maybe_sample_rate: Option<&FloatText>,
        prefix: Option<&str>,
    ) -> (result: WriteResult)
        requires
            old(self).wf(),
            forall|i: int| 0 <= i < metric_values@.len() ==> (#[trigger] metric_values@[i]).wf(),
        ensures
            final(self).wf(),
            ({
                let write = MetricWrite {
                    key: key@,
                    metric_type,
                    texts: number_texts(metric_values@),
                    sample_rate: rate_of(maybe_sample_rate),
                    timestamp: None,
                    prefix: text_of(prefix),
                };
                &&& final(self)@ == old(self)@.after(write)
                &&& result@ == old(self)@.tally(write)
            }),
    {
        let ghost write = MetricWrite {
            key: key@,
            metric_type,
            texts: number_texts(metric_values@),
            sample_rate: rate_of(maybe_sample_rate),
            timestamp: None,
            prefix: text_of(prefix),
        };
        let ghost start = self@;
        let ghost metric = start.metric(write);
        let ghost limit = start.max_payload_len;
        let ghost texts = metric.texts;
        self.write_metric_header(prefix, key);
        self.write_metric_trailer(key, metric_type, None, maybe_sample_rate);
        assert(self.header_buf@ == metric.header && self.trailer_buf@ == metric.trailer);

        // Since we're dealing with multiple values, check for room based on the smallest possible
        // valid value: zero (`:0`). If zero would not fit, then nothing else will either.
        if self.would_value_exceed_limit(1) {
            proof {
                assert forall|i: int| 0 <= i < texts.len() implies (#[trigger] texts[i]).len()
                    > 0 by {
                    assert(metric_values@[i].wf());
                }
                lemma_groups_none(texts, metric.room(limit));
                assert(metric.lines(limit) =~= Seq::<Seq<u8>>::empty());
            }
            return WriteResult::failure(metric_values.len() as u64);
        }
        let room: usize = self.max_payload_len - self.header_buf.len() - self.trailer_buf.len();
        let mut result = WriteResult::new();
        let mut formatter = MetricValueFormatter::new();

        // Iterate over all of the values, trying to write each of them.
        //
        // If writing the current value would cause us to exceed the maximum payload length, we
        // commit what we have so far, and then move on. This allows us to basically keep writing
        // until we're done, while letting `commit` figure out where to separate things.
        let mut uncommitted_points: u64 = 0;
        let mut i: usize = 0;
        assert(texts.take(0) =~= Seq::<Seq<u8>>::empty());
        while i < metric_values.len()
            invariant
                i <= metric_values@.len(),
                texts == number_texts(metric_values@),
                metric.texts == texts,
                room == metric.room(start.max_payload_len),
                self.inv(),
                self.header_buf@ == metric.header,
                self.trailer_buf@ == metric.trailer,
                ({
                    let cuts = groups(texts.take(i as int), room as int);
                    let pending = if cuts.len() == 0 {
                        Seq::empty()
                    } else {
                        cuts.last()
                    };
                    let committed = if cuts.len() == 0 {
                        cuts
                    } else {
                        cuts.drop_last()
                    };
                    &&& self@ == (WriterView {
                        queue: start.queue.added_all(
                            metric.lines_of(committed),
                            start.max_payload_len,
                        ),
                        ..start
                    })
                    &&& self.values_buf@ == values_text(pending)
                    &&& uncommitted_points == pending.len()
                    &&& result@ == (Tally {
                        payloads_written: committed.len(),
                        points_dropped: misfits(texts.take(i as int), room as int),
                    })
                }),
                uncommitted_points <= i,
            decreases metric_values@.len() - i,
        {
            let ghost cuts = groups(texts.take(i as int), room as int);
            let ghost value = texts[i as int];
            proof {
                lemma_groups_fit(texts.take(i as int), room as int);
                assert(texts.take(i + 1).drop_last() =~= texts.take(i as int));
                assert(texts.take(i + 1).last() == value);
                if cuts.len() > 0 {
                    assert(cuts.last().len() > 0);
                    assert(cuts.last().push(value).drop_last() =~= cuts.last());
                    assert(cuts.push(seq![value]).drop_last() =~= cuts);
                    assert(cuts.drop_last().push(cuts.last().push(value)).drop_last()
                        =~= cuts.drop_last());
                    assert(metric.lines_of(cuts).drop_last() =~= metric.lines_of(
                        cuts.drop_last(),
                    ));
                }
                lemma_groups_one(value, room as int);
            }
            let text = formatter.format(MetricValue::FloatingPoint(&metric_values[i]));
            assert(text@ == value);
            if text.len() >= room {
                // Not even a payload of its own could hold this value.
                result.increment_points_dropped();
            } else {
                if self.would_value_exceed_limit(text.len()) {
                    assert(cuts.len() > 0);
                    assert(self.uncommitted() =~= metric.line(cuts.last()));
                    if self.commit() {
                        result.increment_payloads_written();
                    } else {
                        result.increment_points_dropped_by(uncommitted_points);
                    }
                    uncommitted_points = 0;
                }
                self.values_buf.push(':' as u8);
                append(&mut self.values_buf, text);
                uncommitted_points += 1;
            }
            i += 1;
        }
        proof {
            assert(texts.take(texts.len() as int) =~= texts);
            lemma_groups_fit(texts, room as int);
        }
        let ghost cuts = groups(texts, room as int);
        // Commit any remaining uncommitted points.
        if uncommitted_points > 0 {
            proof {
                assert(self.uncommitted() =~= metric.line(cuts.last()));
                assert(metric.lines_of(cuts).drop_last() =~= metric.lines_of(cuts.drop_last()));
            }
            if self.commit() {
                result.increment_payloads_written();
            } else {
                result.increment_points_dropped_by(uncommitted_points);
            }
        }
        result
    }

    /// Writes a counter payload.
    pub fn write_counter(
        &mut self,
        key: &Key,
        value: u64,
        timestamp: Option<u64>,
        prefix: Option<&str>,
    ) -> (result: WriteResult)
        requires
            old(self).wf(),
        ensures
            final(self).wf(),
            ({
                let write = MetricWrite {
                    key: key@,
                    metric_type: MetricType::Counter,
                    texts: seq![decimal(value as nat)],
                    sample_rate: None,
                    timestamp,
                    prefix: text_of(prefix),
                };
                &&& final(self)@ == old(self)@.after(write)
                &&& result@ == old(self)@.tally(write)
            }),
    {
        self.try_write_single(
            key,
            MetricValue::Integer(value),
            MetricType::Counter,
            timestamp,
            prefix,
        )
    }

    /// Writes a gauge payload.
    pub fn write_gauge(
        &mut self,
        key: &Key,
        value: &FloatText,
        timestamp: Option<u64>,
        prefix: Option<&str>,
    ) -> (result: WriteResult)
        requires
            old(self).wf(),
        ensures
            final(self).wf(),
            ({
                let write = MetricWrite {
                    key: key@,
                    metric_type: MetricType::Gauge,
                    texts: seq![value@],
                    sample_rate: None,
                    timestamp,
                    prefix: text_of(prefix),
                };
                &&& final(self)@ == old(self)@.after(write)
                &&& result@ == old(self)@.tally(write)
            }),
    {
        self.try_write_single(
            key,
            MetricValue::FloatingPoint(value),
            MetricType::Gauge,
            timestamp,
            prefix,
        )
    }

    /// Writes a histogram payload.
    pub fn write_histogram(
        &mut self,
        key: &Key,
        values: &[FloatText],
        maybe_sample_rate: Option<&FloatText>,
        prefix: Option<&str>,
    ) -> (result: WriteResult)
        requires
            old(self).wf(),
            forall|i: int| 0 <= i < values@.len() ==> (#[trigger] values@[i]).wf(),
        ensures
            final(self).wf(),
            ({
                let write = MetricWrite {
                    key: key@,
                    metric_type: MetricType::Histogram,
                    texts: number_texts(values@),
                    sample_rate: rate_of(maybe_sample_rate),
                    timestamp: None,
                    prefix: text_of(prefix),
                };
                &&& final(self)@ == old(self)@.after(write)
                &&& result@ == old(self)@.tally(write)
            }),
    {
        self.try_write_multiple(key, values, MetricType::Histogram, maybe_sample_rate, prefix)
    }

    /// Writes a distribution payload.
    pub fn write_distribution(
        &mut self,
        key: &Key,
        values: &[FloatText],
        maybe_sample_rate: Option<&FloatText>,
        prefix: Option<&str>,
    ) -> (result: WriteResult)
        requires
            old(self).wf(),
            forall|i: int| 0 <= i < values@.len() ==> (#[trigger] values@[i]).wf(),
        ensures
            final(self).wf(),
            ({
                let write = MetricWrite {
                    key: key@,
                    metric_type: MetricType::Distribution,
                    texts: number_texts(values@),
                    sample_rate: rate_of(maybe_sample_rate),
                    timestamp: None,
                    prefix: text_of(prefix),
                };
                &&& final(self)@ == old(self)@.after(write)
                &&& result@ == old(self)@.tally(write)
            }),
    {
        self.try_write_multiple(key, values, MetricType::Distribution, maybe_sample_rate, prefix)
    }

    /// Returns all payloads written by this writer, in the order in which they were written, and
    /// clears them from the writer.
    pub fn payloads(&mut self) -> (payloads: Payloads)
        requires
            old(self).wf(),
        ensures
            final(self).wf(),
            final(self)@ == old(self)@.drained(),
            payloads.wf(),
            payloads@ == old(self)@.payloads(),
    {
        self.buffer.finalize_current_payload();
        self.header_buf.clear();
        self.values_buf.clear();
        self.trailer_buf.clear();
        let payloads = self.buffer.take_payloads();
        assert(payloads@ =~= old(self)@.payloads());
        assert(self@ =~= old(self)@.drained());
        payloads
    }
}

} // verus!
