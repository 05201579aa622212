//! How what is written can be traced back to what was handed to the writer.

use vstd::prelude::*;
use vstd::utf8::*;

use crate::line::{
    MAX_METRIC_NAME_LENGTH, MetricWrite, full_name, rate_of, text_of, time_section,
};
use crate::metric::{
    FloatText, Label, LabelView, MetricType, decimal, is_number_byte, is_number_text, label_views,
    number_texts,
};
use crate::packing::{fits, groups, lemma_groups_one, values_text};
use crate::payload_laws::{flattened, law_points_accounted_for, lemma_groups_of_numbers};
use crate::reader_laws::readable;
use crate::sanitize::{sanitized_name, sanitized_tag};
use crate::tags::{MAX_TAG_LENGTH, joined, lemma_joined_concat, tag, tag_list};
use crate::text_laws::lemma_tag_list_concat;
use crate::writer::{SMALLEST_VALID_PAYLOAD_LEN, WriterView};

verus! {

/// `items` cut at every `separator`, which is left out. There is always at least one part.
pub open spec fn split<T>(items: Seq<T>, separator: T) -> Seq<Seq<T>>
    decreases items.len(),
{
    if items.len() == 0 {
        seq![Seq::empty()]
    } else {
        let parts = split(items.drop_last(), separator);
        if items.last() == separator {
            parts.push(Seq::empty())
        } else {
            parts.drop_last().push(parts.last().push(items.last()))
        }
    }
}

/// What comes after the first parts does not change them, and only the last part can grow.
proof fn lemma_split_start<T>(a: Seq<T>, b: Seq<T>, separator: T)
    ensures
        0 < split(a, separator).len() <= split(a + b, separator).len(),
        forall|i: int|
            0 <= i < split(a, separator).len() - 1 ==> #[trigger] split(a + b, separator)[i]
                == split(a, separator)[i],
    decreases a.len() + b.len(),
{
    if b.len() > 0 {
        lemma_split_start(a, b.drop_last(), separator);
        assert((a + b).drop_last() =~= a + b.drop_last());
    } else {
        assert(a + b =~= a);
        if a.len() > 0 {
            lemma_split_start(a.drop_last(), Seq::empty(), separator);
        }
    }
}

/// Items without a separator extend the last part.
proof fn lemma_split_plain<T>(a: Seq<T>, b: Seq<T>, separator: T)
    requires
        !b.contains(separator),
    ensures
        split(a + b, separator) == split(a, separator).drop_last().push(
            split(a, separator).last() + b,
        ),
    decreases b.len(),
{
    lemma_split_start(a, Seq::empty(), separator);
    if b.len() == 0 {
        assert(a + b =~= a);
        assert(split(a, separator).last() + b =~= split(a, separator).last());
        assert(split(a, separator) =~= split(a, separator).drop_last().push(
            split(a, separator).last(),
        ));
    } else {
        assert(b[b.len() - 1] != separator);
        assert(!b.drop_last().contains(separator)) by {
            if b.drop_last().contains(separator) {
                let k = choose|k: int|
                    0 <= k < b.drop_last().len() && b.drop_last()[k] == separator;
                assert(b[k] == separator);
            }
        }
        lemma_split_plain(a, b.drop_last(), separator);
        assert((a + b).drop_last() =~= a + b.drop_last());
        assert((split(a, separator).last() + b.drop_last()).push(b.last())
            =~= split(a, separator).last() + b);
        assert(split(a + b, separator) =~= split(a, separator).drop_last().push(
            split(a, separator).last() + b,
        ));
    }
}

/// A separator and then items without one make a part of their own.
proof fn lemma_split_part<T>(a: Seq<T>, b: Seq<T>, separator: T)
    requires
        !b.contains(separator),
    ensures
        split(a.push(separator) + b, separator) == split(a, separator).push(b),
{
    lemma_split_plain(a.push(separator), b, separator);
    assert(a.push(separator).drop_last() =~= a);
    assert(Seq::<T>::empty() + b =~= b);
    assert(split(a, separator).push(Seq::empty()).drop_last() =~= split(a, separator));
}

/// The number that decimal digits stand for.
pub open spec fn decimal_value(digits: Seq<u8>) -> int
    decreases digits.len(),
{
    if digits.len() == 0 {
        0
    } else {
        10 * decimal_value(digits.drop_last()) + (digits.last() - '0' as u8)
    }
}

/// Whether `text` is made of decimal digits.
pub open spec fn all_digits(text: Seq<u8>) -> bool {
    forall|i: int| 0 <= i < text.len() ==> '0' as u8 <= #[trigger] text[i] <= '9' as u8
}

/// An integer can be read back: it is printed in digits that stand for it, without a leading zero.
pub proof fn law_integer_reads_back(n: nat)
    ensures
        decimal(n).len() > 0,
        all_digits(decimal(n)),
        decimal_value(decimal(n)) == n,
        decimal(n).len() > 1 ==> decimal(n).first() != '0' as u8,
    decreases n,
{
    reveal_with_fuel(decimal_value, 2);
    if n < 10 {
        assert(decimal(n).drop_last() =~= Seq::<u8>::empty());
    } else {
        law_integer_reads_back(n / 10);
        assert(decimal(n).drop_last() =~= decimal(n / 10));
        assert(decimal(n).first() == decimal(n / 10).first());
        if n / 10 < 10 {
            assert(decimal(n / 10)[0] != '0' as u8);
        } else {
            assert(decimal(n / 10).len() > 1) by {
                assert(decimal(n / 10 / 10).len() > 0) by {
                    law_integer_reads_back(n / 10 / 10);
                }
            }
        }
    }
}

/// Different integers are printed differently.
pub proof fn law_integers_stay_distinct(a: nat, b: nat)
    requires
        a != b,
    ensures
        decimal(a) != decimal(b),
{
    law_integer_reads_back(a);
    law_integer_reads_back(b);
}

/// Values are printed one for one: each text is the printed form of the value in its place.
pub proof fn law_values_are_printed_one_for_one(numbers: Seq<FloatText>)
    ensures
        number_texts(numbers).len() == numbers.len(),
        forall|i: int|
            0 <= i < numbers.len() ==> #[trigger] number_texts(numbers)[i] == numbers[i]@,
{
}

/// Labels are taken one for one, in their order.
pub proof fn law_labels_are_taken_one_for_one(labels: Seq<Label>)
    ensures
        label_views(labels).len() == labels.len(),
        forall|i: int| 0 <= i < labels.len() ==> #[trigger] label_views(labels)[i] == labels[i]@,
{
}

/// A prefix and a sample rate are taken as they are given, or not at all if they are not given.
pub proof fn law_options_are_taken_as_given(prefix: &str, sample_rate: &FloatText)
    ensures
        text_of(Some(prefix)) == Some(prefix@),
        text_of(None) is None,
        rate_of(Some(sample_rate)) == Some(sample_rate@),
        rate_of(None) is None,
{
}

/// The text of a number is made of digits, letters, points and signs, at least one of them.
pub proof fn law_number_text(text: Seq<u8>)
    ensures
        is_number_text(text) <==> text.len() > 0 && forall|i: int|
            0 <= i < text.len() ==> {
                ||| '0' as u8 <= #[trigger] text[i] <= '9' as u8
                ||| 'a' as u8 <= text[i] <= 'z' as u8
                ||| 'A' as u8 <= text[i] <= 'Z' as u8
                ||| text[i] == '.' as u8
                ||| text[i] == '-' as u8
            },
{
    if text.len() > 0 && is_number_text(text) {
        assert forall|i: int| 0 <= i < text.len() implies is_number_byte(#[trigger] text[i]) by {}
    }
}

/// Each metric type has a letter of its own.
pub proof fn law_types_have_letters(a: MetricType, b: MetricType)
    ensures
        a.letter() == b.letter() ==> a == b,
        a is Counter <==> a.letter() == 'c',
        a is Gauge <==> a.letter() == 'g',
        a is Histogram <==> a.letter() == 'h',
        a is Distribution <==> a.letter() == 'd',
{
}

/// Without sanitization a metric name is written as it is, and its prefix, a period between them.
pub proof fn law_raw_name_is_whole(prefix: Seq<char>, name: Seq<char>)
    ensures
        full_name(None, name, false) == name,
        ({
            let full = full_name(Some(prefix), name, false);
            &&& full.len() == prefix.len() + 1 + name.len()
            &&& full.take(prefix.len() as int) == prefix
            &&& full[prefix.len() as int] == '.'
            &&& full.skip(prefix.len() + 1int) == name
        }),
{
}

/// With sanitization the prefix and the name are separate elements. The prefix comes first, whole;
/// a period follows it if there is room; and the name gets the room that is left.
pub proof fn law_clean_name_has_two_elements(prefix: Seq<char>, name: Seq<char>)
    ensures
        full_name(None, name, true) == sanitized_name(name, 200, true),
        ({
            let full = full_name(Some(prefix), name, true);
            let front = sanitized_name(prefix, 200, true);
            &&& front.len() == 0 ==> full == full_name(None, name, true)
            &&& front.len() == 200 ==> full == front
            &&& 0 < front.len() < 200 ==> {
                &&& full.len() > front.len()
                &&& full.take(front.len() as int) == front
                &&& full[front.len() as int] == '.'
                &&& full.skip(front.len() + 1int) == sanitized_name(
                    name,
                    (200 - front.len() - 1) as nat,
                    false,
                )
            }
        }),
{
    assert(MAX_METRIC_NAME_LENGTH == 200);
    let full = full_name(Some(prefix), name, true);
    let front = sanitized_name(prefix, 200, true);
    assert(Seq::<char>::empty() + sanitized_name(name, 200, true) =~= sanitized_name(
        name,
        200,
        true,
    ));
    if front.len() == 0 {
        assert(front =~= Seq::<char>::empty());
    } else if front.len() == 200 {
        assert(sanitized_name(name, 0, false) =~= Seq::<char>::empty());
        assert(full =~= front);
    } else {
        let rest = sanitized_name(name, (200 - front.len() - 1) as nat, false);
        assert(full =~= front.push('.') + rest);
        assert(full.take(front.len() as int) =~= front);
        assert(full.skip(front.len() + 1int) =~= rest);
    }
}

/// Without sanitization a tag is the key as it is, and the value as it is after a colon if there is
/// one.
pub proof fn law_raw_tag_is_whole(label: LabelView)
    ensures
        label.value.len() == 0 ==> tag(label, false) == label.key,
        label.value.len() > 0 ==> {
            &&& tag(label, false).len() == label.key.len() + 1 + label.value.len()
            &&& tag(label, false).take(label.key.len() as int) == label.key
            &&& tag(label, false)[label.key.len() as int] == ':'
            &&& tag(label, false).skip(label.key.len() + 1int) == label.value
        },
{
    if label.value.len() > 0 {
        assert(tag(label, false).take(label.key.len() as int) =~= label.key);
        assert(tag(label, false).skip(label.key.len() + 1int) =~= label.value);
    }
}

/// With sanitization a tag is the sanitized key, and the value sanitized to the room that is left
/// of two hundred characters, after a colon, if anything of both is left.
pub proof fn law_clean_tag_has_two_elements(label: LabelView)
    ensures
        ({
            let key = sanitized_tag(label.key, 200, true);
            let room = 200 - key.len() - 1;
            let value = sanitized_tag(label.value, room as nat, false);
            let whole = tag(label, true);
            if key.len() > 0 && room > 0 && value.len() > 0 {
                &&& whole.len() == key.len() + 1 + value.len()
                &&& whole.take(key.len() as int) == key
                &&& whole[key.len() as int] == ':'
                &&& whole.skip(key.len() + 1int) == value
            } else {
                whole == key
            }
        }),
{
    assert(MAX_TAG_LENGTH == 200);
    let key = sanitized_tag(label.key, 200, true);
    let room = 200 - key.len() - 1;
    let value = sanitized_tag(label.value, room as nat, false);
    let whole = tag(label, true);
    if key.len() > 0 && room > 0 && value.len() > 0 {
        assert(whole.take(key.len() as int) =~= key);
        assert(whole.skip(key.len() + 1int) =~= value);
    }
}

/// The tags of a metric are those of its labels and then of the global labels, each label on its
/// own, and none for a label that has no tag.
pub proof fn law_tags_follow_labels(
    write: MetricWrite,
    global_labels: Seq<LabelView>,
    label: LabelView,
    more: Seq<LabelView>,
    sanitize: bool,
)
    ensures
        write.tags(global_labels, sanitize) == tag_list(write.key.labels + global_labels, sanitize),
        tag_list(Seq::empty(), sanitize) == Seq::<Seq<char>>::empty(),
        tag_list(more + seq![label], sanitize) == if tag(label, sanitize).len() == 0 {
            tag_list(more, sanitize)
        } else {
            tag_list(more, sanitize).push(tag(label, sanitize))
        },
{
    lemma_tag_list_concat(write.key.labels, global_labels, sanitize);
    assert((more + seq![label]).drop_last() =~= more);
}

/// Tags can be read back: the parts of a tag list between its commas are the tags, as long as those
/// hold no comma.
pub proof fn law_tags_read_back(tags: Seq<Seq<char>>)
    requires
        tags.len() > 0,
        forall|i: int| 0 <= i < tags.len() ==> !(#[trigger] tags[i]).contains(','),
    ensures
        split(joined(tags), ',') == tags,
    decreases tags.len(),
{
    assert(!tags[tags.len() - 1].contains(','));
    if tags.len() == 1 {
        reveal_with_fuel(split, 1);
        lemma_split_plain(Seq::<char>::empty(), tags[0], ',');
        assert(Seq::<char>::empty() + tags[0] =~= tags[0]);
        assert(split(joined(tags), ',') =~= tags);
    } else {
        let earlier = tags.drop_last();
        assert forall|i: int| 0 <= i < earlier.len() implies !(
        #[trigger] earlier[i]).contains(',') by {
            assert(earlier[i] == tags[i]);
        }
        law_tags_read_back(earlier);
        lemma_split_part(joined(earlier), tags.last(), ',');
        assert(earlier.push(tags.last()) =~= tags);
    }
}

/// Commas stand between tags and nowhere else: a list of one tag is that tag, and two lists are
/// joined by one comma.
pub proof fn law_tags_are_joined_by_commas(
    one: Seq<char>,
    a: Seq<Seq<char>>,
    b: Seq<Seq<char>>,
)
    requires
        a.len() > 0,
        b.len() > 0,
    ensures
        joined(seq![one]) == one,
        joined(a + b).len() == joined(a).len() + 1 + joined(b).len(),
        joined(a + b).take(joined(a).len() as int) == joined(a),
        joined(a + b)[joined(a).len() as int] == ',',
        joined(a + b).skip(joined(a).len() + 1int) == joined(b),
{
    lemma_joined_concat(a, b);
    assert(joined(a + b).take(joined(a).len() as int) =~= joined(a));
    assert(joined(a + b).skip(joined(a).len() + 1int) =~= joined(b));
}

/// What stands before the values is the full name of the metric.
pub proof fn law_header_is_name(write: MetricWrite, sanitize: bool)
    ensures
        write.header(sanitize) == encode_utf8(
            full_name(write.prefix, write.key.name, sanitize),
        ),
{
}

/// What follows the values of a metric without a sample rate and a timestamp: a bar, the letter of
/// the type, the tags after a bar and a hash sign if there are any, and a newline.
pub proof fn law_trailer_holds_type_and_tags(
    write: MetricWrite,
    global_labels: Seq<LabelView>,
    sanitize: bool,
)
    requires
        write.sample_rate is None,
        write.timestamp is None,
    ensures
        ({
            let end = write.trailer(global_labels, sanitize);
            let tags = write.tags(global_labels, sanitize);
            let tag_bytes = encode_utf8(seq!['|', '#'] + joined(tags));
            &&& end[0] == '|' as u8
            &&& end[1] == write.metric_type.letter() as u8
            &&& end.last() == '\n' as u8
            &&& tags.len() == 0 ==> end.len() == 3
            &&& tags.len() > 0 ==> end.len() == 3 + tag_bytes.len() && end.subrange(
                2,
                end.len() - 1,
            ) == tag_bytes
        }),
{
    let end = write.trailer(global_labels, sanitize);
    let tags = write.tags(global_labels, sanitize);
    if tags.len() > 0 {
        assert(end.subrange(2, end.len() - 1) =~= encode_utf8(seq!['|', '#'] + joined(tags)));
    }
}

/// The type of a metric shows in one letter alone: two writes that differ in their type have
/// trailers that differ in that letter and in nothing else.
pub proof fn law_type_shows_in_letter_alone(
    a: MetricWrite,
    b: MetricWrite,
    global_labels: Seq<LabelView>,
    sanitize: bool,
)
    requires
        b == (MetricWrite { metric_type: b.metric_type, ..a }),
    ensures
        ({
            let s = a.trailer(global_labels, sanitize);
            let t = b.trailer(global_labels, sanitize);
            &&& s.len() == t.len() >= 3
            &&& s[0] == '|' as u8
            &&& s[1] == a.metric_type.letter() as u8
            &&& t[1] == b.metric_type.letter() as u8
            &&& t == s.update(1, b.metric_type.letter() as u8)
        }),
{
    assert(b.tags(global_labels, sanitize) == a.tags(global_labels, sanitize));
    assert(b.trailer(global_labels, sanitize) =~= a.trailer(global_labels, sanitize).update(
        1,
        b.metric_type.letter() as u8,
    ));
}

/// A sample rate other than 1.0 is written for every type, whole, right after the letter of the
/// type and after a bar and an at sign, and changes nothing else. A rate of 1.0 is the same as
/// none.
pub proof fn law_sample_rate_is_whole(
    write: MetricWrite,
    text: Seq<u8>,
    global_labels: Seq<LabelView>,
    sanitize: bool,
)
    requires
        write.sample_rate == Some(text),
    ensures
        ({
            let end = write.trailer(global_labels, sanitize);
            let bare = (MetricWrite { sample_rate: None, ..write }).trailer(
                global_labels,
                sanitize,
            );
            if text == seq!['1' as u8, '.' as u8, '0' as u8] {
                end == bare
            } else {
                &&& end.len() == bare.len() + 2 + text.len()
                &&& end[0] == '|' as u8
                &&& end[1] == write.metric_type.letter() as u8
                &&& end[2] == '|' as u8
                &&& end[3] == '@' as u8
                &&& end.subrange(4, 4int + text.len()) == text
                &&& end.skip(4 + text.len() as int) == bare.skip(2)
            }
        }),
{
    let bare_write = MetricWrite { sample_rate: None, ..write };
    let end = write.trailer(global_labels, sanitize);
    let bare = bare_write.trailer(global_labels, sanitize);
    assert(bare_write.tags(global_labels, sanitize) == write.tags(global_labels, sanitize));
    if text != seq!['1' as u8, '.' as u8, '0' as u8] {
        assert(end.subrange(4, 4int + text.len()) =~= text);
        assert(end.skip(4 + text.len() as int) =~= bare.skip(2));
    }
}

/// A timestamp can be read back from what is written of it: a bar, the letter T, and digits that
/// stand for it.
pub proof fn law_timestamp_reads_back(timestamp: u64)
    ensures
        time_section(None) == Seq::<u8>::empty(),
        time_section(Some(timestamp)).len() > 2,
        time_section(Some(timestamp))[0] == '|' as u8,
        time_section(Some(timestamp))[1] == 'T' as u8,
        all_digits(time_section(Some(timestamp)).skip(2)),
        decimal_value(time_section(Some(timestamp)).skip(2)) == timestamp,
{
    law_integer_reads_back(timestamp as nat);
    assert(time_section(Some(timestamp)).skip(2) =~= decimal(timestamp as nat));
}

/// Different timestamps are written differently.
pub proof fn law_timestamps_stay_distinct(a: u64, b: u64)
    requires
        a != b,
    ensures
        time_section(Some(a)) != time_section(Some(b)),
{
    law_timestamp_reads_back(a);
    law_timestamp_reads_back(b);
}

/// A timestamp is written at the end of the line, before the newline, and changes nothing else:
/// what stands between the bar with the letter T and the newline are digits that stand for it.
pub proof fn law_timestamp_is_whole(
    write: MetricWrite,
    timestamp: u64,
    global_labels: Seq<LabelView>,
    sanitize: bool,
)
    requires
        write.timestamp == Some(timestamp),
    ensures
        ({
            let end = write.trailer(global_labels, sanitize);
            let bare = (MetricWrite { timestamp: None, ..write }).trailer(global_labels, sanitize);
            let at = bare.len() - 1;
            let digits = end.subrange(at + 2, end.len() - 1);
            &&& end.len() > bare.len() + 2
            &&& end.take(at) == bare.drop_last()
            &&& end[at] == '|' as u8
            &&& end[at + 1] == 'T' as u8
            &&& all_digits(digits)
            &&& decimal_value(digits) == timestamp
            &&& end.last() == '\n' as u8
            &&& bare.last() == '\n' as u8
        }),
{
    let bare_write = MetricWrite { timestamp: None, ..write };
    let end = write.trailer(global_labels, sanitize);
    let bare = bare_write.trailer(global_labels, sanitize);
    let at = bare.len() - 1;
    assert(bare_write.tags(global_labels, sanitize) == write.tags(global_labels, sanitize));
    law_integer_reads_back(timestamp as nat);
    assert(end.take(at) =~= bare.drop_last());
    assert(end.subrange(at + 2, end.len() - 1) =~= decimal(timestamp as nat));
}

/// Each value stands after a colon: one value is its text after a colon, and values that are
/// written together follow one another.
pub proof fn law_values_stand_after_colons(text: Seq<u8>, a: Seq<Seq<u8>>, b: Seq<Seq<u8>>)
    ensures
        values_text(Seq::empty()) == Seq::<u8>::empty(),
        values_text(seq![text]).len() == 1 + text.len(),
        values_text(seq![text])[0] == ':' as u8,
        values_text(seq![text]).skip(1) == text,
        values_text(a + b) == values_text(a) + values_text(b),
    decreases b.len(),
{
    lemma_groups_one(text, 0);
    assert(values_text(seq![text]).skip(1) =~= text);
    if b.len() == 0 {
        assert(a + b =~= a);
        assert(values_text(a) + values_text(b) =~= values_text(a));
    } else {
        law_values_stand_after_colons(text, a, b.drop_last());
        assert((a + b).drop_last() =~= a + b.drop_last());
        assert(values_text(a + b) =~= values_text(a) + values_text(b));
    }
}

/// A line is the name of its metric, values of it and what follows them; nothing else stands in it.
pub proof fn law_line_is_name_values_trailer(view: WriterView, write: MetricWrite, i: int)
    requires
        0 <= i < view.lines(write).len(),
    ensures
        ({
            let line = view.lines(write)[i];
            let front = write.header(view.sanitize);
            let end = write.trailer(view.global_labels, view.sanitize);
            let values = values_text(view.metric(write).groups(view.max_payload_len)[i]);
            &&& view.metric(write).texts == write.texts
            &&& line.len() == front.len() + values.len() + end.len()
            &&& line.take(front.len() as int) == front
            &&& line.subrange(front.len() as int, front.len() + values.len() as int) == values
            &&& line.skip(front.len() + values.len() as int) == end
        }),
{
    let line = view.lines(write)[i];
    let front = write.header(view.sanitize);
    let end = write.trailer(view.global_labels, view.sanitize);
    let values = values_text(view.metric(write).groups(view.max_payload_len)[i]);
    assert(line == front + values + end);
    assert(line.take(front.len() as int) =~= front);
    assert(line.subrange(front.len() as int, front.len() + values.len() as int) =~= values);
    assert(line.skip(front.len() + values.len() as int) =~= end);
}

/// There is a line for each group of values, and a result counts those lines, and the values that
/// are in none of them. A value is in one exactly if a line with it alone is within the maximum
/// payload length.
pub proof fn law_values_are_written_or_counted(view: WriterView, write: MetricWrite)
    ensures
        ({
            let metric = view.metric(write);
            let written = flattened(metric.groups(view.max_payload_len));
            &&& view.lines(write).len() == metric.groups(view.max_payload_len).len()
            &&& view.tally(write).payloads_written == view.lines(write).len()
            &&& written == write.texts.filter(
                |text: Seq<u8>|
                    write.header(view.sanitize).len() + 1 + text.len() + write.trailer(
                        view.global_labels,
                        view.sanitize,
                    ).len() <= view.max_payload_len,
            )
            &&& view.tally(write).points_dropped + written.len() == write.texts.len()
        }),
{
    let metric = view.metric(write);
    let room = metric.room(view.max_payload_len);
    law_points_accounted_for(metric.texts, room);
    let a = |text: Seq<u8>| fits(text, room);
    let b = |text: Seq<u8>|
        write.header(view.sanitize).len() + 1 + text.len() + write.trailer(
            view.global_labels,
            view.sanitize,
        ).len() <= view.max_payload_len;
    assert forall|text: Seq<u8>| #[trigger] a(text) == b(text) by {}
    assert(a =~= b);
}

/// The values of a line can be read back: what stands before its first bar, cut at the colons, is
/// the name and then the printed values that the line holds, in order.
pub proof fn law_values_read_back(view: WriterView, write: MetricWrite, i: int)
    requires
        readable(view.metric(write)),
        0 <= i < view.lines(write).len(),
    ensures
        split(split(view.lines(write)[i], '|' as u8)[0], ':' as u8) == seq![
            write.header(view.sanitize),
        ] + view.metric(write).groups(view.max_payload_len)[i],
{
    let metric = view.metric(write);
    let limit = view.max_payload_len;
    let group = metric.groups(limit)[i];
    let line = view.lines(write)[i];
    assert(line == metric.line(group));
    lemma_groups_of_numbers(metric.texts, metric.room(limit));
    assert forall|j: int| 0 <= j < group.len() implies is_number_text(#[trigger] group[j]) by {
        assert(is_number_text(groups(metric.texts, metric.room(limit))[i][j]));
    }
    let front = metric.header + values_text(group);
    lemma_values_without_bar(metric.header, group);
    let bar = '|' as u8;
    lemma_split_plain(Seq::<u8>::empty(), front, bar);
    assert(Seq::<u8>::empty() + front =~= front);
    assert(split(front, bar) =~= seq![front]);
    assert(front.push(bar).drop_last() =~= front);
    lemma_split_start(front.push(bar), metric.trailer.drop_first(), bar);
    assert(front.push(bar) + metric.trailer.drop_first() =~= line);
    assert(split(line, bar)[0] == split(front.push(bar), bar)[0]);
    assert(split(line, bar)[0] == front);
    lemma_split_values(metric.header, group);
}

/// A header and values hold no bar.
proof fn lemma_values_without_bar(header: Seq<u8>, texts: Seq<Seq<u8>>)
    requires
        !header.contains('|' as u8),
        forall|i: int| 0 <= i < texts.len() ==> is_number_text(#[trigger] texts[i]),
    ensures
        !(header + values_text(texts)).contains('|' as u8),
    decreases texts.len(),
{
    let all = header + values_text(texts);
    if texts.len() == 0 {
        assert(all =~= header);
    } else {
        lemma_values_without_bar(header, texts.drop_last());
        assert(is_number_text(texts[texts.len() - 1]));
        let front = header + values_text(texts.drop_last());
        if all.contains('|' as u8) {
            let k = choose|k: int| 0 <= k < all.len() && all[k] == '|' as u8;
            if k < front.len() {
                assert(front[k] == '|' as u8);
            } else if k > front.len() {
                assert(is_number_byte(texts.last()[k - front.len() - 1]));
            }
        }
    }
}

/// A header and values are cut at the colons into the header and the values.
proof fn lemma_split_values(header: Seq<u8>, texts: Seq<Seq<u8>>)
    requires
        !header.contains(':' as u8),
        forall|i: int| 0 <= i < texts.len() ==> is_number_text(#[trigger] texts[i]),
    ensures
        split(header + values_text(texts), ':' as u8) == seq![header] + texts,
    decreases texts.len(),
{
    let colon = ':' as u8;
    if texts.len() == 0 {
        lemma_split_plain(Seq::<u8>::empty(), header, colon);
        assert(header + values_text(texts) =~= Seq::<u8>::empty() + header);
        assert(Seq::<u8>::empty() + header =~= header);
        assert(split(header, colon) =~= seq![header] + texts);
    } else {
        let earlier = texts.drop_last();
        lemma_split_values(header, earlier);
        assert(is_number_text(texts[texts.len() - 1]));
        assert(!texts.last().contains(colon));
        lemma_split_part(header + values_text(earlier), texts.last(), colon);
        assert((header + values_text(earlier)).push(colon) + texts.last() =~= header + values_text(
            texts,
        ));
        assert((seq![header] + earlier).push(texts.last()) =~= seq![header] + texts);
    }
}

/// If every value fits, the printed values of all lines together are the values of the write.
pub proof fn law_all_values_read_back(view: WriterView, write: MetricWrite)
    requires
        forall|i: int|
            0 <= i < write.texts.len() ==> write.header(view.sanitize).len() + 1 + (
            #[trigger] write.texts[i]).len() + write.trailer(
                view.global_labels,
                view.sanitize,
            ).len() <= view.max_payload_len,
    ensures
        flattened(view.metric(write).groups(view.max_payload_len)) == write.texts,
        view.tally(write).points_dropped == 0,
{
    let metric = view.metric(write);
    let room = metric.room(view.max_payload_len);
    law_points_accounted_for(metric.texts, room);
    lemma_filter_keeps_all(metric.texts, room);
}

proof fn lemma_filter_keeps_all(texts: Seq<Seq<u8>>, room: int)
    requires
        forall|i: int| 0 <= i < texts.len() ==> fits(#[trigger] texts[i], room),
    ensures
        texts.filter(|text: Seq<u8>| fits(text, room)) == texts,
    decreases texts.len(),
{
    reveal(Seq::filter);
    if texts.len() > 0 {
        lemma_filter_keeps_all(texts.drop_last(), room);
        assert(fits(texts[texts.len() - 1], room));
        assert(texts.drop_last().push(texts.last()) =~= texts);
    }
}

/// The smallest valid payload is a line with a name of one character and a value of one digit, and
/// nothing more.
pub proof fn law_smallest_line_is_reached(view: WriterView, write: MetricWrite, text: Seq<u8>)
    requires
        write.header(view.sanitize).len() == 1,
        write.sample_rate is None,
        write.timestamp is None,
        write.tags(view.global_labels, view.sanitize).len() == 0,
        text.len() == 1,
    ensures
        view.metric(write).line(seq![text]).len() == SMALLEST_VALID_PAYLOAD_LEN == 6,
{
    lemma_groups_one(text, 0);
}

} // verus!
