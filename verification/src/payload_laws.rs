//! What holds of the payloads of a writer after any sequence of writes.

use vstd::prelude::*;

use crate::line::MetricWrite;
use crate::metric::{LabelView, is_number_text};
use crate::outcome::Tally;
use crate::packing::{fits, groups, lemma_groups_fit, lemma_groups_one, misfits, values_text};
use crate::payloads::{framed, le_bytes};
use crate::queue::{Queue, lemma_added_all_within};
use crate::writer::{SMALLEST_VALID_PAYLOAD_LEN, WriterView};

verus! {

/// The items of each of `parts`, one part after the other.
pub open spec fn flattened<T>(parts: Seq<Seq<T>>) -> Seq<T>
    decreases parts.len(),
{
    if parts.len() == 0 {
        Seq::empty()
    } else {
        flattened(parts.drop_last()) + parts.last()
    }
}

/// One more part goes to the end.
proof fn lemma_flattened_push<T>(parts: Seq<Seq<T>>, part: Seq<T>)
    ensures
        flattened(parts.push(part)) == flattened(parts) + part,
{
    assert(parts.push(part).drop_last() =~= parts);
}

impl WriterView {
    /// The writer after each of `writes` in turn.
    pub open spec fn after_all(self, writes: Seq<MetricWrite>) -> WriterView
        decreases writes.len(),
    {
        if writes.len() == 0 {
            self
        } else {
            self.after_all(writes.drop_last()).after(writes.last())
        }
    }

    /// The lines that are written for `writes`, in order.
    pub open spec fn all_lines(self, writes: Seq<MetricWrite>) -> Seq<Seq<u8>>
        decreases writes.len(),
    {
        if writes.len() == 0 {
            Seq::empty()
        } else {
            self.all_lines(writes.drop_last()) + self.lines(writes.last())
        }
    }

    /// How many metric lines the results of `writes` count.
    pub open spec fn total_written(self, writes: Seq<MetricWrite>) -> nat
        decreases writes.len(),
    {
        if writes.len() == 0 {
            0
        } else {
            self.total_written(writes.drop_last()) + self.tally(writes.last()).payloads_written
        }
    }

    /// How many points the results of `writes` count as dropped.
    pub open spec fn total_dropped(self, writes: Seq<MetricWrite>) -> nat
        decreases writes.len(),
    {
        if writes.len() == 0 {
            0
        } else {
            self.total_dropped(writes.drop_last()) + self.tally(writes.last()).points_dropped
        }
    }

    /// The payloads that are handed out next, without their length prefixes.
    pub open spec fn bodies(self) -> Seq<Seq<u8>> {
        self.queue.finalized().closed
    }
}

/// How many points `writes` ask to write.
pub open spec fn total_points(writes: Seq<MetricWrite>) -> nat
    decreases writes.len(),
{
    if writes.len() == 0 {
        0
    } else {
        total_points(writes.drop_last()) + writes.last().texts.len()
    }
}

/// Adding lines one list after the other is adding the lists together.
proof fn lemma_added_all_concat(queue: Queue, a: Seq<Seq<u8>>, b: Seq<Seq<u8>>, limit: nat)
    ensures
        queue.added_all(a + b, limit) == queue.added_all(a, limit).added_all(b, limit),
    decreases b.len(),
{
    if b.len() == 0 {
        assert(a + b =~= a);
    } else {
        lemma_added_all_concat(queue, a, b.drop_last(), limit);
        assert((a + b).drop_last() =~= a + b.drop_last());
    }
}

/// A sequence of writes adds their lines and changes no setting.
pub proof fn law_writes_add_lines(view: WriterView, writes: Seq<MetricWrite>)
    ensures
        view.after_all(writes) == (WriterView {
            queue: view.queue.added_all(view.all_lines(writes), view.max_payload_len),
            ..view
        }),
    decreases writes.len(),
{
    if writes.len() > 0 {
        law_writes_add_lines(view, writes.drop_last());
        lemma_added_all_concat(
            view.queue,
            view.all_lines(writes.drop_last()),
            view.lines(writes.last()),
            view.max_payload_len,
        );
    }
}

/// A line that is written holds something and is within the maximum payload length.
proof fn lemma_line_len(view: WriterView, write: MetricWrite)
    ensures
        forall|i: int|
            0 <= i < view.lines(write).len() ==> 0 < (#[trigger] view.lines(write)[i]).len()
                <= view.max_payload_len,
{
    let metric = view.metric(write);
    let limit = view.max_payload_len;
    lemma_groups_fit(metric.texts, metric.room(limit));
    assert forall|i: int| 0 <= i < view.lines(write).len() implies 0 < (
    #[trigger] view.lines(write)[i]).len() <= limit by {
        assert(view.lines(write)[i] == metric.line(metric.groups(limit)[i]));
        assert(values_text(metric.groups(limit)[i]).len() <= metric.room(limit));
    }
}

proof fn lemma_all_lines_len(view: WriterView, writes: Seq<MetricWrite>)
    ensures
        forall|i: int|
            0 <= i < view.all_lines(writes).len() ==> 0 < (#[trigger] view.all_lines(
                writes,
            )[i]).len() <= view.max_payload_len,
    decreases writes.len(),
{
    if writes.len() > 0 {
        let before = view.all_lines(writes.drop_last());
        let last = view.lines(writes.last());
        lemma_all_lines_len(view, writes.drop_last());
        lemma_line_len(view, writes.last());
        assert forall|i: int| 0 <= i < view.all_lines(writes).len() implies 0 < (
        #[trigger] view.all_lines(writes)[i]).len() <= view.max_payload_len by {
            if i < before.len() {
                assert(view.all_lines(writes)[i] == before[i]);
            } else {
                assert(view.all_lines(writes)[i] == last[i - before.len()]);
            }
        }
    }
}

/// Whatever is written, a payload holds something and does not exceed the maximum payload length;
/// a length prefix comes on top of that.
pub proof fn law_payloads_within_limit(view: WriterView, writes: Seq<MetricWrite>)
    requires
        view.valid(),
    ensures
        view.after_all(writes).valid(),
        forall|i: int|
            0 <= i < view.after_all(writes).bodies().len() ==> 0 < (#[trigger] view.after_all(
                writes,
            ).bodies()[i]).len() <= view.max_payload_len,
        forall|i: int|
            0 <= i < view.after_all(writes).payloads().len() ==> 0 < (#[trigger] view.after_all(
                writes,
            ).payloads()[i]).len() <= view.max_payload_len + if view.with_length_prefix {
                4int
            } else {
                0
            },
{
    law_writes_add_lines(view, writes);
    lemma_all_lines_len(view, writes);
    lemma_added_all_within(view.queue, view.all_lines(writes), view.max_payload_len);
    let end = view.after_all(writes);
    assert forall|i: int| 0 <= i < end.bodies().len() implies 0 < (
    #[trigger] end.bodies()[i]).len() <= view.max_payload_len by {
        if i < end.queue.closed.len() {
            assert(end.bodies()[i] == end.queue.closed[i]);
        }
    }
    assert forall|i: int| 0 <= i < end.payloads().len() implies 0 < (
    #[trigger] end.payloads()[i]).len() <= view.max_payload_len + if view.with_length_prefix {
        4int
    } else {
        0
    } by {
        assert(end.payloads()[i] == framed(end.bodies()[i], view.with_length_prefix));
    }
}

/// The length prefix does not count towards the payload length: payloads are cut at the same places
/// with it and without it.
pub proof fn law_prefix_does_not_count(a: WriterView, b: WriterView, writes: Seq<MetricWrite>)
    requires
        b == (WriterView { with_length_prefix: b.with_length_prefix, ..a }),
    ensures
        a.after_all(writes).bodies() == b.after_all(writes).bodies(),
{
    law_writes_add_lines(a, writes);
    law_writes_add_lines(b, writes);
    lemma_same_lines(a, b, writes);
}

proof fn lemma_same_lines(a: WriterView, b: WriterView, writes: Seq<MetricWrite>)
    requires
        b == (WriterView { with_length_prefix: b.with_length_prefix, ..a }),
    ensures
        a.all_lines(writes) == b.all_lines(writes),
    decreases writes.len(),
{
    if writes.len() > 0 {
        lemma_same_lines(a, b, writes.drop_last());
    }
}

/// The number that four bytes stand for, least significant first.
pub open spec fn le_value(bytes: Seq<u8>) -> nat {
    (bytes[0] + 256 * bytes[1] + 65536 * bytes[2] + 16777216 * bytes[3]) as nat
}

/// With length prefixes, the first four bytes of a payload tell the number of bytes after them.
pub proof fn law_prefix_is_length(view: WriterView, i: int)
    requires
        view.valid(),
        view.with_length_prefix,
        0 <= i < view.payloads().len(),
    ensures
        view.payloads()[i].len() >= 4,
        le_value(view.payloads()[i].take(4)) == view.payloads()[i].len() - 4,
        view.payloads()[i].skip(4) == view.bodies()[i],
{
    let body = view.bodies()[i];
    assert(body.len() <= u32::MAX) by {
        if i < view.queue.closed.len() {
            assert(body == view.queue.closed[i]);
        }
    }
    assert(view.payloads()[i] == le_bytes(body.len()) + body);
    assert(view.payloads()[i].take(4) =~= le_bytes(body.len()));
    assert(view.payloads()[i].skip(4) =~= body);
    lemma_le_value(body.len());
}

proof fn lemma_le_value(n: nat)
    requires
        n <= u32::MAX,
    ensures
        le_value(le_bytes(n)) == n,
{
    let b0 = n % 256;
    let b1 = n / 256 % 256;
    let b2 = n / 65536 % 256;
    let b3 = n / 16777216 % 256;
    assert(n == b0 + 256 * b1 + 65536 * b2 + 16777216 * b3);
}

/// Every payload is handed out, and without length prefixes as it is.
pub proof fn law_payloads_are_handed_out_whole(view: WriterView)
    ensures
        view.payloads().len() == view.bodies().len(),
        !view.with_length_prefix ==> view.payloads() == view.bodies(),
{
}

/// The bytes of a queue, payload after payload.
pub open spec fn content(queue: Queue) -> Seq<u8> {
    flattened(queue.closed) + queue.open
}

proof fn lemma_content_added_all(queue: Queue, lines: Seq<Seq<u8>>, limit: nat)
    ensures
        content(queue.added_all(lines, limit)) == content(queue) + flattened(lines),
    decreases lines.len(),
{
    if lines.len() == 0 {
        assert(content(queue) + flattened(lines) =~= content(queue));
    } else {
        lemma_content_added_all(queue, lines.drop_last(), limit);
        let before = queue.added_all(lines.drop_last(), limit);
        lemma_flattened_push(before.closed, before.open);
        assert(content(before.added(lines.last(), limit)) =~= content(before) + lines.last());
        assert(content(queue.added_all(lines, limit)) =~= content(queue) + flattened(lines));
    }
}

/// Nothing that is written is lost, repeated or moved: the payloads hold what they held before,
/// and then the lines of the writes in order.
pub proof fn law_payloads_keep_order(view: WriterView, writes: Seq<MetricWrite>)
    ensures
        flattened(view.after_all(writes).bodies()) == flattened(view.bodies()) + flattened(
            view.all_lines(writes),
        ),
{
    law_writes_add_lines(view, writes);
    lemma_content_added_all(view.queue, view.all_lines(writes), view.max_payload_len);
    lemma_content_finalized(view.queue);
    lemma_content_finalized(view.after_all(writes).queue);
}

proof fn lemma_content_finalized(queue: Queue)
    ensures
        flattened(queue.finalized().closed) == content(queue),
{
    lemma_flattened_push(queue.closed, queue.open);
    assert(flattened(queue.finalized().closed) =~= content(queue));
}

/// Whether each of `bodies` is made of the whole lines of one of `parts`, at least one of them, and
/// was started only because the one before it had no room for its first line.
pub open spec fn made_of(bodies: Seq<Seq<u8>>, parts: Seq<Seq<Seq<u8>>>, limit: nat) -> bool {
    &&& bodies.len() == parts.len()
    &&& forall|i: int|
        #![trigger bodies[i]]
        0 <= i < bodies.len() ==> parts[i].len() > 0 && bodies[i] == flattened(parts[i])
    &&& forall|i: int|
        #![trigger parts[i]]
        0 < i < parts.len() ==> bodies[i - 1].len() + parts[i].first().len() > limit
}

/// A single item is its own flattening.
proof fn lemma_flattened_one<T>(part: Seq<T>)
    ensures
        flattened(seq![part]) == part,
{
    lemma_flattened_push(Seq::<Seq<T>>::empty(), part);
    assert(Seq::<Seq<T>>::empty().push(part) =~= seq![part]);
    assert(flattened(Seq::<Seq<T>>::empty()) + part =~= part);
}

/// A line that does not fit into the last body makes a body of its own.
proof fn lemma_made_of_push(
    bodies: Seq<Seq<u8>>,
    parts: Seq<Seq<Seq<u8>>>,
    line: Seq<u8>,
    limit: nat,
)
    requires
        made_of(bodies, parts, limit),
        bodies.len() > 0 ==> bodies.last().len() + line.len() > limit,
    ensures
        made_of(bodies.push(line), parts.push(seq![line]), limit),
{
    let more_bodies = bodies.push(line);
    let more = parts.push(seq![line]);
    let last = parts.len() as int;
    lemma_flattened_one(line);
    assert(more[last] == seq![line] && more_bodies[last] == line);
    assert forall|i: int|
        #![trigger more_bodies[i]]
        0 <= i < more_bodies.len() implies more[i].len() > 0 && more_bodies[i] == flattened(
        more[i],
    ) by {
        if i < last {
            assert(more_bodies[i] == bodies[i] && more[i] == parts[i]);
        }
    }
    assert forall|i: int| #![trigger more[i]] 0 < i < more.len() implies more_bodies[i - 1].len()
        + more[i].first().len() > limit by {
        assert(more_bodies[i - 1] == bodies[i - 1]);
        if i < last {
            assert(more[i] == parts[i]);
        } else {
            assert(more[i].first() == line);
        }
    }
}

/// A line that joins the last body joins the last part.
proof fn lemma_made_of_extend(
    bodies: Seq<Seq<u8>>,
    parts: Seq<Seq<Seq<u8>>>,
    line: Seq<u8>,
    limit: nat,
)
    requires
        made_of(bodies, parts, limit),
        bodies.len() > 0,
    ensures
        made_of(
            bodies.drop_last().push(bodies.last() + line),
            parts.drop_last().push(parts.last().push(line)),
            limit,
        ),
{
    let more_bodies = bodies.drop_last().push(bodies.last() + line);
    let more = parts.drop_last().push(parts.last().push(line));
    let last = parts.len() - 1;
    assert(bodies[last] == flattened(parts[last]) && parts[last].len() > 0);
    lemma_flattened_push(parts[last], line);
    assert(more[last] == parts[last].push(line) && more_bodies[last] == bodies[last] + line);
    assert(more[last].first() == parts[last].first());
    assert forall|i: int|
        #![trigger more_bodies[i]]
        0 <= i < more_bodies.len() implies more[i].len() > 0 && more_bodies[i] == flattened(
        more[i],
    ) by {
        if i < last {
            assert(more_bodies[i] == bodies[i] && more[i] == parts[i]);
        }
    }
    assert forall|i: int| #![trigger more[i]] 0 < i < more.len() implies more_bodies[i - 1].len()
        + more[i].first().len() > limit by {
        assert(more_bodies[i - 1] == bodies[i - 1]);
        assert(more[i].first() == parts[i].first());
    }
}

/// A line that does not fit into the open payload makes a part of its own.
proof fn lemma_part_started(
    queue: Queue,
    parts: Seq<Seq<Seq<u8>>>,
    line: Seq<u8>,
    limit: nat,
)
    requires
        made_of(queue.finalized().closed, parts, limit),
        queue.open.len() > 0,
        line.len() > 0,
        queue.open.len() + line.len() > limit,
    ensures
        made_of(queue.added(line, limit).finalized().closed, parts.push(seq![line]), limit),
        flattened(parts.push(seq![line])) == flattened(parts).push(line),
{
    let bodies = queue.finalized().closed;
    lemma_made_of_push(bodies, parts, line, limit);
    assert(queue.added(line, limit).finalized().closed =~= bodies.push(line));
    lemma_flattened_push(parts, seq![line]);
    assert(flattened(parts.push(seq![line])) =~= flattened(parts).push(line));
}

/// A line that fits into the open payload joins the last part.
proof fn lemma_part_extended(
    queue: Queue,
    parts: Seq<Seq<Seq<u8>>>,
    line: Seq<u8>,
    limit: nat,
)
    requires
        made_of(queue.finalized().closed, parts, limit),
        queue.open.len() > 0,
        queue.open.len() + line.len() <= limit,
    ensures
        made_of(
            queue.added(line, limit).finalized().closed,
            parts.drop_last().push(parts.last().push(line)),
            limit,
        ),
        flattened(parts.drop_last().push(parts.last().push(line))) == flattened(parts).push(line),
{
    let bodies = queue.finalized().closed;
    lemma_made_of_extend(bodies, parts, line, limit);
    assert(bodies.drop_last().push(bodies.last() + line) =~= queue.added(
        line,
        limit,
    ).finalized().closed);
    lemma_flattened_push(parts.drop_last(), parts.last().push(line));
    assert(flattened(parts.drop_last().push(parts.last().push(line))) =~= flattened(parts).push(
        line,
    ));
}

/// Which lines make up the payloads of a queue that started out empty.
proof fn lemma_parts(lines: Seq<Seq<u8>>, limit: nat) -> (parts: Seq<Seq<Seq<u8>>>)
    requires
        forall|i: int| 0 <= i < lines.len() ==> 0 < (#[trigger] lines[i]).len() <= limit,
    ensures
        made_of(Queue::nothing().added_all(lines, limit).finalized().closed, parts, limit),
        flattened(parts) == lines,
        lines.len() > 0 ==> Queue::nothing().added_all(lines, limit).open.len() > 0,
    decreases lines.len(),
{
    if lines.len() == 0 {
        assert(flattened(Seq::<Seq<Seq<u8>>>::empty()) =~= lines);
        Seq::empty()
    } else {
        let line = lines.last();
        assert(0 < lines[lines.len() - 1].len() <= limit);
        let queue = Queue::nothing().added_all(lines.drop_last(), limit);
        let parts = lemma_parts(lines.drop_last(), limit);
        assert(lines.drop_last().push(line) =~= lines);
        if lines.len() == 1 {
            let bodies = queue.added(line, limit).finalized().closed;
            lemma_flattened_one(line);
            lemma_flattened_one(seq![line]);
            assert(bodies =~= seq![line]);
            assert(lines =~= seq![line]);
            seq![seq![line]]
        } else if queue.open.len() + line.len() > limit {
            lemma_part_started(queue, parts, line, limit);
            parts.push(seq![line])
        } else {
            lemma_part_extended(queue, parts, line, limit);
            parts.drop_last().push(parts.last().push(line))
        }
    }
}

/// Each payload contains one or more complete lines: a line is never split between payloads. And a
/// new payload is started only when a line does not fit into the current one.
pub proof fn law_payloads_hold_whole_lines(view: WriterView, writes: Seq<MetricWrite>)
    requires
        view.queue == Queue::nothing(),
    ensures
        exists|parts: Seq<Seq<Seq<u8>>>|
            #[trigger] made_of(view.after_all(writes).bodies(), parts, view.max_payload_len)
                && flattened(parts) == view.all_lines(writes),
{
    law_writes_add_lines(view, writes);
    lemma_all_lines_len(view, writes);
    let parts = lemma_parts(view.all_lines(writes), view.max_payload_len);
    assert(made_of(view.after_all(writes).bodies(), parts, view.max_payload_len));
}

/// The values that fit are written, each once and in order; the others are counted as dropped.
pub proof fn law_points_accounted_for(texts: Seq<Seq<u8>>, room: int)
    ensures
        flattened(groups(texts, room)) == texts.filter(|text: Seq<u8>| fits(text, room)),
        flattened(groups(texts, room)).len() + misfits(texts, room) == texts.len(),
    decreases texts.len(),
{
    let keep = |text: Seq<u8>| fits(text, room);
    reveal(Seq::filter);
    if texts.len() == 0 {
        assert(flattened(groups(texts, room)) =~= texts.filter(keep));
    } else {
        law_points_accounted_for(texts.drop_last(), room);
        let cuts = groups(texts.drop_last(), room);
        let text = texts.last();
        if fits(text, room) {
            if cuts.len() > 0 {
                lemma_flattened_push(cuts.drop_last(), cuts.last().push(text));
                assert(flattened(cuts) + seq![text] =~= flattened(cuts.drop_last())
                    + cuts.last().push(text));
            }
            lemma_flattened_push(cuts, seq![text]);
            assert(flattened(groups(texts, room)) =~= flattened(cuts).push(text));
        }
        assert(flattened(groups(texts, room)) =~= texts.filter(keep));
    }
}

/// A value goes to the line of the value before it for as long as it fits there.
pub proof fn law_lines_are_filled(texts: Seq<Seq<u8>>, room: int, i: int)
    requires
        0 < i < groups(texts, room).len(),
    ensures
        values_text(groups(texts, room)[i - 1].push(groups(texts, room)[i].first())).len() > room,
    decreases texts.len(),
{
    let cuts = groups(texts.drop_last(), room);
    lemma_groups_fit(texts.drop_last(), room);
    if i < cuts.len() {
        law_lines_are_filled(texts.drop_last(), room, i);
        assert(cuts[i].len() > 0);
        assert(groups(texts, room)[i].first() == cuts[i].first());
        assert(groups(texts, room)[i - 1] == cuts[i - 1]);
    } else {
        assert(groups(texts, room)[i - 1] == cuts.last());
        assert(groups(texts, room)[i].first() == texts.last());
    }
}

/// A metric with a single value is written, as one line, if that line by itself is within the
/// maximum payload length. Otherwise its point is dropped.
pub proof fn law_single_value_is_written_or_dropped(view: WriterView, write: MetricWrite)
    requires
        write.texts.len() == 1,
    ensures
        ({
            let line = view.metric(write).line(write.texts);
            if line.len() <= view.max_payload_len {
                &&& view.lines(write) == seq![line]
                &&& view.tally(write) == (Tally { payloads_written: 1, points_dropped: 0 })
            } else {
                &&& view.lines(write) == Seq::<Seq<u8>>::empty()
                &&& view.tally(write) == (Tally { payloads_written: 0, points_dropped: 1 })
            }
        }),
{
    let metric = view.metric(write);
    assert(write.texts =~= seq![write.texts[0]]);
    lemma_groups_one(write.texts[0], metric.room(view.max_payload_len));
    let line = metric.line(write.texts);
    assert(line.len() <= view.max_payload_len ==> view.lines(write) =~= seq![line]);
    assert(line.len() > view.max_payload_len ==> view.lines(write) =~= Seq::<Seq<u8>>::empty());
}

/// A write of which nothing fits leaves the writer as it was.
pub proof fn law_dropped_metric_changes_nothing(view: WriterView, write: MetricWrite)
    requires
        view.tally(write).payloads_written == 0,
    ensures
        view.after(write) == view,
        view.tally(write).points_dropped == write.texts.len(),
{
    let metric = view.metric(write);
    law_points_accounted_for(metric.texts, metric.room(view.max_payload_len));
}

/// A payload that has been handed out is not handed out again, and a writer whose payloads have
/// been handed out writes like a new one with the same settings.
pub proof fn law_drained_writer_starts_afresh(
    view: WriterView,
    fresh: WriterView,
    writes: Seq<MetricWrite>,
)
    requires
        fresh.queue == Queue::nothing(),
        fresh.max_payload_len == view.max_payload_len,
        fresh.with_length_prefix == view.with_length_prefix,
        fresh.global_labels == view.global_labels,
        fresh.sanitize == view.sanitize,
    ensures
        view.drained().payloads().len() == 0,
        view.drained().after_all(writes) == fresh.after_all(writes),
        view.drained().after_all(writes).payloads() == fresh.after_all(writes).payloads(),
        flattened(view.drained().after_all(writes).bodies()) == flattened(view.all_lines(writes)),
{
    assert(view.drained() == fresh);
    law_payloads_keep_order(view.drained(), writes);
    lemma_lines_of_drained(view, writes);
    assert(flattened(view.drained().bodies()) =~= Seq::<u8>::empty());
    assert(Seq::<u8>::empty() + flattened(view.all_lines(writes)) =~= flattened(
        view.all_lines(writes),
    ));
}

proof fn lemma_lines_of_drained(view: WriterView, writes: Seq<MetricWrite>)
    ensures
        view.drained().all_lines(writes) == view.all_lines(writes),
    decreases writes.len(),
{
    if writes.len() > 0 {
        lemma_lines_of_drained(view, writes.drop_last());
    }
}

/// The order in which global labels and sanitization are set does not matter.
pub proof fn law_settings_in_any_order(
    view: WriterView,
    global_labels: Seq<LabelView>,
    sanitize: bool,
)
    ensures
        (WriterView { sanitize, ..(WriterView { global_labels, ..view }) }) == (WriterView {
            global_labels,
            ..(WriterView { sanitize, ..view })
        }),
{
}

/// No metric with a name fits into fewer bytes than the smallest valid payload.
pub proof fn law_smallest_line(view: WriterView, write: MetricWrite)
    requires
        write.header(view.sanitize).len() > 0,
        forall|i: int| 0 <= i < write.texts.len() ==> is_number_text(#[trigger] write.texts[i]),
    ensures
        forall|i: int|
            0 <= i < view.lines(write).len() ==> (#[trigger] view.lines(write)[i]).len()
                >= SMALLEST_VALID_PAYLOAD_LEN,
{
    let metric = view.metric(write);
    let limit = view.max_payload_len;
    lemma_groups_of_numbers(metric.texts, metric.room(limit));
    assert forall|i: int| 0 <= i < view.lines(write).len() implies (
    #[trigger] view.lines(write)[i]).len() >= SMALLEST_VALID_PAYLOAD_LEN by {
        let group = metric.groups(limit)[i];
        assert(view.lines(write)[i] == metric.line(group));
        assert(group.len() > 0 && is_number_text(group.last())) by {
            lemma_groups_fit(metric.texts, metric.room(limit));
            assert(is_number_text(metric.groups(limit)[i][group.len() - 1]));
        }
    }
}

/// The texts of groups are among the texts that were grouped.
pub proof fn lemma_groups_of_numbers(texts: Seq<Seq<u8>>, room: int)
    requires
        forall|i: int| 0 <= i < texts.len() ==> is_number_text(#[trigger] texts[i]),
    ensures
        forall|i: int, j: int|
            0 <= i < groups(texts, room).len() && 0 <= j < groups(texts, room)[i].len()
                ==> is_number_text(#[trigger] groups(texts, room)[i][j]),
    decreases texts.len(),
{
    if texts.len() > 0 {
        lemma_groups_of_numbers(texts.drop_last(), room);
        assert(is_number_text(texts[texts.len() - 1]));
        let cuts = groups(texts.drop_last(), room);
        let result = groups(texts, room);
        assert forall|i: int, j: int|
            0 <= i < result.len() && 0 <= j < result[i].len() implies is_number_text(
            #[trigger] result[i][j],
        ) by {
            if i < cuts.len() && j < cuts[i].len() {
                assert(is_number_text(cuts[i][j]));
            }
        }
    }
}

} // verus!
