//! What a reader of the payloads finds in them.

use vstd::prelude::*;
use vstd::utf8::*;

use crate::line::{MetricWrite, clean_name, full_name, rate_section, time_section};
use crate::lowering::lowers_without_newline;
use crate::metric::{LabelView, decimal, is_number_text, lemma_decimal_is_number};
use crate::packing::{Metric, values_text};
use crate::payload_laws::{
    flattened, law_points_accounted_for, law_writes_add_lines, lemma_groups_of_numbers,
    total_points,
};
use crate::queue::Queue;
use crate::sanitize::{joint, sanitized_tag, separates, tag_text};
use crate::tags::{MAX_TAG_LENGTH, clean_tag, joined, tag, tag_list, tag_section};
use crate::text_laws::law_full_name;
use crate::unicode::lowercase;
use crate::utf8::lemma_encode_lacks;
use crate::writer::WriterView;

verus! {

/// What a reader of metric lines has counted, and whether it is before the first bar of a line.
#[verifier::ext_equal]
pub struct Reading {
    pub before_bar: bool,
    pub points: nat,
    pub lines: nat,
}

/// Reads `bytes` as metric lines. A newline ends a line, and each colon before the first bar of a
/// line announces a point.
pub open spec fn read(bytes: Seq<u8>) -> Reading
    decreases bytes.len(),
{
    if bytes.len() == 0 {
        Reading { before_bar: true, points: 0, lines: 0 }
    } else {
        let reading = read(bytes.drop_last());
        let byte = bytes.last();
        if byte == '\n' as u8 {
            Reading { before_bar: true, lines: reading.lines + 1, ..reading }
        } else if byte == '|' as u8 {
            Reading { before_bar: false, ..reading }
        } else if byte == ':' as u8 && reading.before_bar {
            Reading { points: reading.points + 1, ..reading }
        } else {
            reading
        }
    }
}

/// The points in all of `payloads`.
pub open spec fn points_in(payloads: Seq<Seq<u8>>) -> nat
    decreases payloads.len(),
{
    if payloads.len() == 0 {
        0
    } else {
        points_in(payloads.drop_last()) + read(payloads.last()).points
    }
}

/// The lines in all of `payloads`.
pub open spec fn lines_in(payloads: Seq<Seq<u8>>) -> nat
    decreases payloads.len(),
{
    if payloads.len() == 0 {
        0
    } else {
        lines_in(payloads.drop_last()) + read(payloads.last()).lines
    }
}

/// Whether a metric reads as lines that each start with its name: nothing but a value is taken for
/// one, and no line ends before its last byte.
pub open spec fn readable(metric: Metric) -> bool {
    &&& !metric.header.contains(':' as u8)
    &&& !metric.header.contains('|' as u8)
    &&& !metric.header.contains('\n' as u8)
    &&& forall|i: int|
        0 <= i < metric.texts.len() ==> is_number_text(#[trigger] metric.texts[i])
    &&& metric.trailer.len() > 1
    &&& metric.trailer.first() == '|' as u8
    &&& metric.trailer.last() == '\n' as u8
    &&& !metric.trailer.drop_last().contains('\n' as u8)
}

/// Bytes without a colon, a bar and a newline change nothing.
proof fn lemma_read_plain(a: Seq<u8>, b: Seq<u8>)
    requires
        !b.contains(':' as u8),
        !b.contains('|' as u8),
        !b.contains('\n' as u8),
    ensures
        read(a + b) == read(a),
    decreases b.len(),
{
    if b.len() == 0 {
        assert(a + b =~= a);
    } else {
        lemma_lacks_drop_last(b, ':' as u8);
        lemma_lacks_drop_last(b, '|' as u8);
        lemma_lacks_drop_last(b, '\n' as u8);
        lemma_read_plain(a, b.drop_last());
        assert((a + b).drop_last() =~= a + b.drop_last());
    }
}

/// After a bar, nothing counts until the line ends.
proof fn lemma_read_after_bar(a: Seq<u8>, b: Seq<u8>)
    requires
        !read(a).before_bar,
        !b.contains('\n' as u8),
    ensures
        read(a + b) == read(a),
    decreases b.len(),
{
    if b.len() == 0 {
        assert(a + b =~= a);
    } else {
        lemma_lacks_drop_last(b, '\n' as u8);
        lemma_read_after_bar(a, b.drop_last());
        assert((a + b).drop_last() =~= a + b.drop_last());
    }
}

/// What a sequence lacks, its shorter parts lack too.
proof fn lemma_lacks_drop_last(b: Seq<u8>, byte: u8)
    requires
        b.len() > 0,
        !b.contains(byte),
    ensures
        !b.drop_last().contains(byte),
        b.last() != byte,
{
    if b.drop_last().contains(byte) {
        let k = choose|k: int| 0 <= k < b.drop_last().len() && b.drop_last()[k] == byte;
        assert(b[k] == byte);
    }
    assert(b[b.len() - 1] == b.last());
}

/// The text of a number holds no colon, bar or newline.
proof fn lemma_number_is_plain(text: Seq<u8>)
    requires
        is_number_text(text),
    ensures
        !text.contains(':' as u8),
        !text.contains('|' as u8),
        !text.contains('\n' as u8),
{
}

/// Values are read as as many points.
proof fn lemma_read_values(a: Seq<u8>, texts: Seq<Seq<u8>>)
    requires
        read(a).before_bar,
        forall|i: int| 0 <= i < texts.len() ==> is_number_text(#[trigger] texts[i]),
    ensures
        read(a + values_text(texts)) == (Reading {
            points: read(a).points + texts.len(),
            ..read(a)
        }),
    decreases texts.len(),
{
    if texts.len() == 0 {
        assert(a + values_text(texts) =~= a);
    } else {
        let before = texts.drop_last();
        lemma_read_values(a, before);
        assert(is_number_text(texts[texts.len() - 1]));
        let with_colon = (a + values_text(before)).push(':' as u8);
        assert(with_colon.drop_last() =~= a + values_text(before));
        lemma_number_is_plain(texts.last());
        lemma_read_plain(with_colon, texts.last());
        assert(a + values_text(texts) =~= with_colon + texts.last());
    }
}

/// A line of a readable metric is read as one line with as many points as it has values.
proof fn lemma_read_line(a: Seq<u8>, metric: Metric, texts: Seq<Seq<u8>>)
    requires
        read(a).before_bar,
        readable(metric),
        forall|i: int| 0 <= i < texts.len() ==> is_number_text(#[trigger] texts[i]),
    ensures
        read(a + metric.line(texts)) == (Reading {
            before_bar: true,
            points: read(a).points + texts.len(),
            lines: read(a).lines + 1,
        }),
{
    let named = a + metric.header;
    lemma_read_plain(a, metric.header);
    let valued = named + values_text(texts);
    lemma_read_values(named, texts);
    let barred = valued.push('|' as u8);
    assert(barred.drop_last() =~= valued);
    let inner = metric.trailer.drop_last();
    let rest = inner.drop_first();
    assert(!rest.contains('\n' as u8)) by {
        if rest.contains('\n' as u8) {
            let k = choose|k: int| 0 <= k < rest.len() && rest[k] == '\n' as u8;
            assert(inner[k + 1] == '\n' as u8);
        }
    }
    lemma_read_after_bar(barred, rest);
    let whole = a + metric.line(texts);
    assert(whole.drop_last() =~= barred + rest);
    assert(whole.last() == '\n' as u8);
}

/// What a reader has counted when it has read all payloads of a queue, the open one included.
pub open spec fn points_queued(queue: Queue) -> nat {
    points_in(queue.closed) + read(queue.open).points
}

/// The lines of a queue, those of the open payload included.
pub open spec fn lines_queued(queue: Queue) -> nat {
    lines_in(queue.closed) + read(queue.open).lines
}

/// Adding a line that reads as one line.
proof fn lemma_read_added(queue: Queue, line: Seq<u8>, points: nat, limit: nat)
    requires
        read(queue.open).before_bar,
        read(queue.open + line) == (Reading {
            before_bar: true,
            points: read(queue.open).points + points,
            lines: read(queue.open).lines + 1,
        }),
        read(Seq::<u8>::empty() + line) == (Reading { before_bar: true, points, lines: 1 }),
    ensures
        read(queue.added(line, limit).open).before_bar,
        points_queued(queue.added(line, limit)) == points_queued(queue) + points,
        lines_queued(queue.added(line, limit)) == lines_queued(queue) + 1,
{
    assert(queue.closed.push(queue.open).drop_last() =~= queue.closed);
    if queue.open.len() == 0 {
        assert(queue.open =~= Seq::<u8>::empty());
    }
}

/// Adding the lines of a readable metric.
proof fn lemma_read_groups(
    queue: Queue,
    metric: Metric,
    groups: Seq<Seq<Seq<u8>>>,
    limit: nat,
)
    requires
        read(queue.open).before_bar,
        readable(metric),
        forall|i: int, j: int|
            0 <= i < groups.len() && 0 <= j < groups[i].len() ==> is_number_text(
                #[trigger] groups[i][j],
            ),
    ensures
        ({
            let after = queue.added_all(metric.lines_of(groups), limit);
            &&& read(after.open).before_bar
            &&& points_queued(after) == points_queued(queue) + flattened(groups).len()
            &&& lines_queued(after) == lines_queued(queue) + groups.len()
        }),
    decreases groups.len(),
{
    if groups.len() > 0 {
        let earlier = groups.drop_last();
        assert forall|i: int, j: int|
            0 <= i < earlier.len() && 0 <= j < earlier[i].len() implies is_number_text(
            #[trigger] earlier[i][j],
        ) by {
            assert(is_number_text(groups[i][j]));
        }
        lemma_read_groups(queue, metric, earlier, limit);
        let before = queue.added_all(metric.lines_of(earlier), limit);
        let group = groups.last();
        assert forall|j: int| 0 <= j < group.len() implies is_number_text(#[trigger] group[j]) by {
            assert(is_number_text(groups[groups.len() - 1][j]));
        }
        lemma_read_line(before.open, metric, group);
        lemma_read_line(Seq::empty(), metric, group);
        lemma_read_added(before, metric.line(group), group.len(), limit);
        assert(metric.lines_of(groups).drop_last() =~= metric.lines_of(earlier));
        assert(metric.lines_of(groups).last() == metric.line(group));
    }
}

/// Whether no character of the keys and the values of `labels` has a newline in its lowercase form.
pub open spec fn labels_without_newline(labels: Seq<LabelView>) -> bool {
    forall|i: int|
        0 <= i < labels.len() ==> lowers_without_newline((#[trigger] labels[i]).key)
            && lowers_without_newline(labels[i].value)
}

/// Whether the texts of `write` are those of numbers.
pub open spec fn has_numbers(write: MetricWrite) -> bool {
    &&& forall|i: int| 0 <= i < write.texts.len() ==> is_number_text(#[trigger] write.texts[i])
    &&& write.sample_rate matches Some(text) ==> is_number_text(text)
}

/// The text that a tag stands for holds no newline.
proof fn lemma_tag_text_one_line(input: Seq<char>, lead: bool)
    requires
        lowers_without_newline(input),
    ensures
        !tag_text(input, lead).contains('\n'),
    decreases input.len(),
{
    if input.len() > 0 {
        let before = input.drop_last();
        let c = input.last();
        assert(input[input.len() - 1] == c);
        lemma_tag_text_one_line(before, lead);
        let text = tag_text(before, lead);
        let gap = joint(text, before, c, lead);
        let result = tag_text(input, lead);
        if !separates(c) && result.contains('\n') {
            let k = choose|k: int| 0 <= k < result.len() && result[k] == '\n';
            if k < text.len() {
                assert(text[k] == '\n');
            } else if k >= text.len() + gap.len() {
                assert(lowercase(c)[k - text.len() - gap.len()] == '\n');
            }
        }
    }
}

/// A sanitized tag holds no newline.
proof fn lemma_tag_one_line(label: LabelView)
    requires
        lowers_without_newline(label.key),
        lowers_without_newline(label.value),
    ensures
        !clean_tag(label).contains('\n'),
{
    let key = sanitized_tag(label.key, MAX_TAG_LENGTH as nat, true);
    let room = (MAX_TAG_LENGTH - key.len() - 1) as nat;
    let value = sanitized_tag(label.value, room, false);
    lemma_tag_text_one_line(label.key, true);
    lemma_tag_text_one_line(label.value, false);
    let result = clean_tag(label);
    if result.contains('\n') {
        let k = choose|k: int| 0 <= k < result.len() && result[k] == '\n';
        if k < key.len() {
            assert(tag_text(label.key, true)[k] == '\n');
        } else if k > key.len() {
            assert(tag_text(label.value, false)[k - key.len() - 1] == '\n');
        }
    }
}

proof fn lemma_tag_list_one_line(labels: Seq<LabelView>)
    requires
        labels_without_newline(labels),
    ensures
        forall|i: int|
            0 <= i < tag_list(labels, true).len() ==> !(#[trigger] tag_list(
                labels,
                true,
            )[i]).contains('\n'),
    decreases labels.len(),
{
    if labels.len() > 0 {
        assert forall|i: int| 0 <= i < labels.drop_last().len() implies lowers_without_newline(
            (#[trigger] labels.drop_last()[i]).key,
        ) && lowers_without_newline(labels.drop_last()[i].value) by {
            assert(labels[i] == labels.drop_last()[i]);
        }
        lemma_tag_list_one_line(labels.drop_last());
        assert(lowers_without_newline(labels[labels.len() - 1].key));
        lemma_tag_one_line(labels.last());
        let before = tag_list(labels.drop_last(), true);
        let tags = tag_list(labels, true);
        assert forall|i: int| 0 <= i < tags.len() implies !(#[trigger] tags[i]).contains('\n') by {
            if i < before.len() {
                assert(tags[i] == before[i]);
            } else {
                assert(tags[i] == tag(labels.last(), true));
            }
        }
    }
}

proof fn lemma_joined_one_line(tags: Seq<Seq<char>>)
    requires
        forall|i: int| 0 <= i < tags.len() ==> !(#[trigger] tags[i]).contains('\n'),
    ensures
        !joined(tags).contains('\n'),
    decreases tags.len(),
{
    if tags.len() > 0 {
        assert(!tags[tags.len() - 1].contains('\n'));
        lemma_joined_one_line(tags.drop_last());
        let front = joined(tags.drop_last());
        if tags.len() > 1 && joined(tags).contains('\n') {
            let k = choose|k: int| 0 <= k < joined(tags).len() && joined(tags)[k] == '\n';
            if k < front.len() {
                assert(front[k] == '\n');
            } else if k > front.len() {
                assert(tags.last()[k - front.len() - 1] == '\n');
            }
        }
    }
}

/// What is sanitized cannot inject anything: the name of a metric holds no colon, bar or newline,
/// its tags hold no newline, and so each of its lines is read as one line with the values that were
/// written.
pub proof fn law_sanitized_metric_is_readable(view: WriterView, write: MetricWrite)
    requires
        view.sanitize,
        has_numbers(write),
        labels_without_newline(write.key.labels),
        labels_without_newline(view.global_labels),
    ensures
        readable(view.metric(write)),
{
    let name = clean_name(write.prefix, write.key.name);
    law_full_name(write.prefix, write.key.name);
    assert(!name.contains(':') && !name.contains('|') && !name.contains('\n'));
    lemma_encode_lacks(name, ':');
    lemma_encode_lacks(name, '|');
    lemma_encode_lacks(name, '\n');

    let own = tag_list(write.key.labels, true);
    let global = tag_list(view.global_labels, true);
    let tags = own + global;
    lemma_tag_list_one_line(write.key.labels);
    lemma_tag_list_one_line(view.global_labels);
    assert forall|i: int| 0 <= i < tags.len() implies !(#[trigger] tags[i]).contains('\n') by {
        if i < own.len() {
            assert(tags[i] == own[i]);
        } else {
            assert(tags[i] == global[i - own.len()]);
        }
    }
    lemma_joined_one_line(tags);
    let section = tag_section(tags);
    assert(!section.contains('\n')) by {
        if section.contains('\n') {
            let k = choose|k: int| 0 <= k < section.len() && section[k] == '\n';
            if k >= 2 {
                assert(joined(tags)[k - 2] == '\n');
            }
        }
    }
    lemma_encode_lacks(section, '\n');

    let opening = seq!['|' as u8, write.metric_type.letter() as u8];
    let rate = rate_section(write.sample_rate);
    let encoded = encode_utf8(section);
    let time = time_section(write.timestamp);
    if let Some(text) = write.sample_rate {
        lemma_number_is_plain(text);
        lemma_bar_letter_lacks_newline('@', text);
    }
    if let Some(timestamp) = write.timestamp {
        lemma_decimal_is_number(timestamp as nat);
        lemma_number_is_plain(decimal(timestamp as nat));
        lemma_bar_letter_lacks_newline('T', decimal(timestamp as nat));
    }
    assert(!opening.contains('\n' as u8));
    let trailer = view.metric(write).trailer;
    lemma_concat_lacks(opening, rate, '\n' as u8);
    lemma_concat_lacks(opening + rate, encoded, '\n' as u8);
    lemma_concat_lacks(opening + rate + encoded, time, '\n' as u8);
    assert(trailer.drop_last() =~= opening + rate + encoded + time);
    assert(trailer.first() == opening.first());
}

proof fn lemma_bar_letter_lacks_newline(letter: char, text: Seq<u8>)
    requires
        letter == '@' || letter == 'T',
        !text.contains('\n' as u8),
    ensures
        !(seq!['|' as u8, letter as u8] + text).contains('\n' as u8),
{
    lemma_concat_lacks(seq!['|' as u8, letter as u8], text, '\n' as u8);
}

/// What two sequences lack, their concatenation lacks.
proof fn lemma_concat_lacks(a: Seq<u8>, b: Seq<u8>, byte: u8)
    requires
        !a.contains(byte),
        !b.contains(byte),
    ensures
        !(a + b).contains(byte),
{
    if (a + b).contains(byte) {
        let k = choose|k: int| 0 <= k < (a + b).len() && (a + b)[k] == byte;
        if k < a.len() {
            assert(a[k] == byte);
        } else {
            assert(b[k - a.len()] == byte);
        }
    }
}

/// Whether every one of `writes` has numbers for values, and no label with a newline in its
/// lowercase form.
pub open spec fn proper_writes(writes: Seq<MetricWrite>) -> bool {
    forall|i: int|
        0 <= i < writes.len() ==> has_numbers(#[trigger] writes[i]) && labels_without_newline(
            writes[i].key.labels,
        )
}

proof fn lemma_read_writes(view: WriterView, writes: Seq<MetricWrite>)
    requires
        view.sanitize,
        read(view.queue.open).before_bar,
        labels_without_newline(view.global_labels),
        proper_writes(writes),
    ensures
        read(view.after_all(writes).queue.open).before_bar,
        lines_queued(view.after_all(writes).queue) == lines_queued(view.queue)
            + view.total_written(writes),
        points_queued(view.after_all(writes).queue) + view.total_dropped(writes) == points_queued(
            view.queue,
        ) + total_points(writes),
    decreases writes.len(),
{
    if writes.len() > 0 {
        let earlier = writes.drop_last();
        let write = writes.last();
        assert forall|i: int| 0 <= i < earlier.len() implies has_numbers(#[trigger] earlier[i])
            && labels_without_newline(earlier[i].key.labels) by {
            assert(writes[i] == earlier[i]);
        }
        assert(has_numbers(writes[writes.len() - 1]));
        lemma_read_writes(view, earlier);
        law_writes_add_lines(view, earlier);
        let before = view.after_all(earlier);
        let metric = view.metric(write);
        let limit = view.max_payload_len;
        law_sanitized_metric_is_readable(view, write);
        lemma_groups_of_numbers(metric.texts, metric.room(limit));
        lemma_read_groups(before.queue, metric, metric.groups(limit), limit);
        law_points_accounted_for(metric.texts, metric.room(limit));
    }
}

/// Whatever is written to an empty, sanitizing writer, the payloads hold as many lines as the
/// results count as written, and every point is either in a payload or counted as dropped.
pub proof fn law_results_match_payloads(view: WriterView, writes: Seq<MetricWrite>)
    requires
        view.queue == Queue::nothing(),
        view.sanitize,
        labels_without_newline(view.global_labels),
        proper_writes(writes),
    ensures
        lines_in(view.after_all(writes).bodies()) == view.total_written(writes),
        points_in(view.after_all(writes).bodies()) + view.total_dropped(writes) == total_points(
            writes,
        ),
{
    lemma_read_writes(view, writes);
    let queue = view.after_all(writes).queue;
    assert(queue.closed.push(queue.open).drop_last() =~= queue.closed);
}

/// Bytes of ASCII are valid UTF-8.
proof fn lemma_ascii_is_utf8(bytes: Seq<u8>)
    requires
        forall|i: int| 0 <= i < bytes.len() ==> #[trigger] bytes[i] < 0x80,
    ensures
        valid_utf8(bytes),
{
    assert(bytes.subrange(0, 0) =~= Seq::<u8>::empty());
    assert(partial_valid_utf8(bytes, 0));
    assert forall|i: int| 0 <= 0 <= i < bytes.len() <= bytes.len() implies
        #[trigger] is_leading_byte_width_1(bytes[i]) by {
        assert(bytes[i] < 0x80);
    }
    partial_valid_utf8_extend_ascii_block(bytes, 0, bytes.len() as int);
    assert(bytes.subrange(0, bytes.len() as int) =~= bytes);
}

proof fn lemma_number_is_utf8(text: Seq<u8>)
    requires
        is_number_text(text),
    ensures
        valid_utf8(text),
{
    assert forall|i: int| 0 <= i < text.len() implies #[trigger] text[i] < 0x80 by {}
    lemma_ascii_is_utf8(text);
}

proof fn lemma_values_are_utf8(texts: Seq<Seq<u8>>)
    requires
        forall|i: int| 0 <= i < texts.len() ==> is_number_text(#[trigger] texts[i]),
    ensures
        valid_utf8(values_text(texts)),
    decreases texts.len(),
{
    if texts.len() > 0 {
        lemma_values_are_utf8(texts.drop_last());
        assert(is_number_text(texts[texts.len() - 1]));
        lemma_number_is_utf8(texts.last());
        lemma_ascii_is_utf8(seq![':' as u8]);
        let front = values_text(texts.drop_last());
        valid_utf8_concat(front, seq![':' as u8]);
        assert(front.push(':' as u8) =~= front + seq![':' as u8]);
        valid_utf8_concat(front.push(':' as u8), texts.last());
    }
}

proof fn lemma_trailer_is_utf8(view: WriterView, write: MetricWrite)
    requires
        has_numbers(write),
    ensures
        valid_utf8(view.metric(write).trailer),
{
    let opening = seq!['|' as u8, write.metric_type.letter() as u8];
    let rate = rate_section(write.sample_rate);
    let encoded = encode_utf8(tag_section(write.tags(view.global_labels, view.sanitize)));
    let time = time_section(write.timestamp);
    lemma_ascii_is_utf8(opening);
    assert(valid_utf8(rate)) by {
        if let Some(text) = write.sample_rate {
            lemma_ascii_is_utf8(seq!['|' as u8, '@' as u8]);
            lemma_number_is_utf8(text);
            valid_utf8_concat(seq!['|' as u8, '@' as u8], text);
        }
    }
    assert(valid_utf8(time)) by {
        if let Some(timestamp) = write.timestamp {
            lemma_ascii_is_utf8(seq!['|' as u8, 'T' as u8]);
            lemma_decimal_is_number(timestamp as nat);
            lemma_number_is_utf8(decimal(timestamp as nat));
            valid_utf8_concat(seq!['|' as u8, 'T' as u8], decimal(timestamp as nat));
        }
    }
    encode_utf8_valid_utf8(tag_section(write.tags(view.global_labels, view.sanitize)));
    lemma_ascii_is_utf8(seq!['\n' as u8]);
    valid_utf8_concat(opening, rate);
    valid_utf8_concat(opening + rate, encoded);
    valid_utf8_concat(opening + rate + encoded, time);
    valid_utf8_concat(opening + rate + encoded + time, seq!['\n' as u8]);
}

/// A line is valid UTF-8.
proof fn lemma_lines_are_utf8(view: WriterView, write: MetricWrite)
    requires
        has_numbers(write),
    ensures
        forall|i: int|
            0 <= i < view.lines(write).len() ==> valid_utf8(#[trigger] view.lines(write)[i]),
{
    let metric = view.metric(write);
    let limit = view.max_payload_len;
    lemma_trailer_is_utf8(view, write);
    encode_utf8_valid_utf8(full_name(write.prefix, write.key.name, view.sanitize));
    lemma_groups_of_numbers(metric.texts, metric.room(limit));
    assert forall|i: int| 0 <= i < view.lines(write).len() implies valid_utf8(
        #[trigger] view.lines(write)[i],
    ) by {
        let group = metric.groups(limit)[i];
        assert forall|j: int| 0 <= j < group.len() implies is_number_text(#[trigger] group[j]) by {
            assert(is_number_text(metric.groups(limit)[i][j]));
        }
        lemma_values_are_utf8(group);
        valid_utf8_concat(metric.header, values_text(group));
        valid_utf8_concat(metric.header + values_text(group), metric.trailer);
        assert(view.lines(write)[i] == metric.line(group));
    }
}

/// Whether every payload of a queue is valid UTF-8.
pub open spec fn queue_is_utf8(queue: Queue) -> bool {
    &&& forall|i: int| 0 <= i < queue.closed.len() ==> valid_utf8(#[trigger] queue.closed[i])
    &&& valid_utf8(queue.open)
}

proof fn lemma_added_all_utf8(queue: Queue, lines: Seq<Seq<u8>>, limit: nat)
    requires
        queue_is_utf8(queue),
        forall|i: int| 0 <= i < lines.len() ==> valid_utf8(#[trigger] lines[i]),
    ensures
        queue_is_utf8(queue.added_all(lines, limit)),
    decreases lines.len(),
{
    if lines.len() > 0 {
        lemma_added_all_utf8(queue, lines.drop_last(), limit);
        let before = queue.added_all(lines.drop_last(), limit);
        let line = lines.last();
        assert(valid_utf8(lines[lines.len() - 1]));
        valid_utf8_concat(before.open, line);
        assert(valid_utf8(Seq::<u8>::empty()));
        valid_utf8_concat(Seq::empty(), line);
    }
}

/// Whatever is written, sanitized or not, every payload is valid UTF-8 after its length prefix.
pub proof fn law_payloads_are_utf8(view: WriterView, writes: Seq<MetricWrite>)
    requires
        view.queue == Queue::nothing(),
        forall|i: int| 0 <= i < writes.len() ==> has_numbers(#[trigger] writes[i]),
    ensures
        forall|i: int|
            0 <= i < view.after_all(writes).bodies().len() ==> valid_utf8(
                #[trigger] view.after_all(writes).bodies()[i],
            ),
{
    assert(valid_utf8(Seq::<u8>::empty()));
    lemma_writes_utf8(view, writes);
}

proof fn lemma_writes_utf8(view: WriterView, writes: Seq<MetricWrite>)
    requires
        queue_is_utf8(view.queue),
        forall|i: int| 0 <= i < writes.len() ==> has_numbers(#[trigger] writes[i]),
    ensures
        queue_is_utf8(view.after_all(writes).queue),
    decreases writes.len(),
{
    if writes.len() > 0 {
        lemma_writes_utf8(view, writes.drop_last());
        let before = view.after_all(writes.drop_last());
        assert(has_numbers(writes[writes.len() - 1]));
        lemma_lines_are_utf8(before, writes.last());
        lemma_added_all_utf8(before.queue, before.lines(writes.last()), before.max_payload_len);
    }
}

} // verus!
