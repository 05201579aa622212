//! What stands before and after the values of a metric line.

use vstd::prelude::*;
use vstd::utf8::*;

use crate::metric::{
    FloatText, Key, KeyView, LabelView, MetricType, MetricValue, MetricValueFormatter, decimal,
};
use crate::packing::Metric;
use crate::sanitize::{sanitized_name, write_sanitized_name};
use crate::tags::{tag_list, tag_section};
use crate::utf8::{append, lemma_encode_concat, lemma_encode_push};

verus! {

/// The most characters that a sanitized metric name may have, its prefix included.
pub const MAX_METRIC_NAME_LENGTH: usize = 200;

/// A metric name as it is, after its prefix and a period.
pub open spec fn raw_name(prefix: Option<Seq<char>>, name: Seq<char>) -> Seq<char> {
    match prefix {
        Some(prefix) => prefix.push('.') + name,
        None => name,
    }
}

/// What a prefix contributes to a metric name by Datadog's rules: its sanitized form, and a period
/// if that is not empty and leaves room for one.
pub open spec fn clean_prefix(prefix: Option<Seq<char>>) -> Seq<char> {
    match prefix {
        Some(prefix) => {
            let element = sanitized_name(prefix, MAX_METRIC_NAME_LENGTH as nat, true);
            if 0 < element.len() < MAX_METRIC_NAME_LENGTH {
                element.push('.')
            } else {
                element
            }
        },
        None => Seq::empty(),
    }
}

/// A metric name and its prefix by Datadog's rules. Only what comes first has to start with a
/// letter.
pub open spec fn clean_name(prefix: Option<Seq<char>>, name: Seq<char>) -> Seq<char> {
    let front = clean_prefix(prefix);
    front + sanitized_name(
        name,
        (MAX_METRIC_NAME_LENGTH - front.len()) as nat,
        front.len() == 0,
    )
}

/// The name with which a metric line starts.
pub open spec fn full_name(prefix: Option<Seq<char>>, name: Seq<char>, sanitize: bool) -> Seq<
    char,
> {
    if sanitize {
        clean_name(prefix, name)
    } else {
        raw_name(prefix, name)
    }
}

/// Whether `text` is that of the sample rate that is implied where none is written: 1.0.
pub open spec fn implied_rate(text: Seq<u8>) -> bool {
    text == seq!['1' as u8, '.' as u8, '0' as u8]
}

/// What is written of a sample rate: nothing if it is 1.0, as that is the implied default.
pub open spec fn rate_section(sample_rate: Option<Seq<u8>>) -> Seq<u8> {
    match sample_rate {
        Some(text) => if implied_rate(text) {
            Seq::empty()
        } else {
            seq!['|' as u8, '@' as u8] + text
        },
        None => Seq::empty(),
    }
}

/// Returns `true` if `text` is that of the sample rate 1.0.
fn is_implied_rate(text: &[u8]) -> (implied: bool)
    ensures
        implied == implied_rate(text@),
{
    let implied = text.len() == 3 && text[0] == '1' as u8 && text[1] == '.' as u8 && text[2]
        == '0' as u8;
    assert(implied ==> text@ =~= seq!['1' as u8, '.' as u8, '0' as u8]);
    implied
}

/// What is written of a timestamp.
pub open spec fn time_section(timestamp: Option<u64>) -> Seq<u8> {
    match timestamp {
        Some(timestamp) => seq!['|' as u8, 'T' as u8] + decimal(timestamp as nat),
        None => Seq::empty(),
    }
}

/// What follows the values of a metric: the type, the sample rate, the tags and the timestamp, as
/// far as there are any, and a newline.
pub open spec fn trailer(
    metric_type: MetricType,
    sample_rate: Option<Seq<u8>>,
    tags: Seq<Seq<char>>,
    timestamp: Option<u64>,
) -> Seq<u8> {
    seq!['|' as u8, metric_type.letter() as u8] + rate_section(sample_rate) + encode_utf8(
        tag_section(tags),
    ) + time_section(timestamp) + seq!['\n' as u8]
}

/// A request to write values of a metric, with the values and the sample rate printed.
#[verifier::ext_equal]
pub struct MetricWrite {
    pub key: KeyView,
    pub metric_type: MetricType,
    pub texts: Seq<Seq<u8>>,
    pub sample_rate: Option<Seq<u8>>,
    pub timestamp: Option<u64>,
    pub prefix: Option<Seq<char>>,
}

impl MetricWrite {
    /// The tags of the metric: those of its key first, the global ones after them.
    pub open spec fn tags(self, global_labels: Seq<LabelView>, sanitize: bool) -> Seq<Seq<char>> {
        tag_list(self.key.labels, sanitize) + tag_list(global_labels, sanitize)
    }

    /// What comes before the values.
    pub open spec fn header(self, sanitize: bool) -> Seq<u8> {
        encode_utf8(full_name(self.prefix, self.key.name, sanitize))
    }

    /// What comes after the values.
    pub open spec fn trailer(self, global_labels: Seq<LabelView>, sanitize: bool) -> Seq<u8> {
        trailer(
            self.metric_type,
            self.sample_rate,
            self.tags(global_labels, sanitize),
            self.timestamp,
        )
    }

    /// The metric with everything rendered.
    pub open spec fn metric(self, global_labels: Seq<LabelView>, sanitize: bool) -> Metric {
        Metric {
            header: self.header(sanitize),
            texts: self.texts,
            trailer: self.trailer(global_labels, sanitize),
        }
    }
}

/// What an optional string holds.
pub open spec fn text_of(text: Option<&str>) -> Option<Seq<char>> {
    match text {
        Some(text) => Some(text@),
        None => None,
    }
}

/// Appends the full name of a metric to `buf`.
///
/// The prefix and the name are sanitized as independent elements joined by a `.`: a prefix that
/// sanitizes away must not be able to swallow the separator and take the metric name's leading
/// character with it.
pub(crate) fn write_full_name(buf: &mut Vec<u8>, prefix: Option<&str>, key: &Key, sanitize: bool)
    ensures
        final(buf)@ == old(buf)@ + encode_utf8(full_name(text_of(prefix), key@.name, sanitize)),
{
    if !sanitize {
        if let Some(prefix) = prefix {
            append(buf, prefix.as_bytes());
            buf.push('.' as u8);
            proof {
                lemma_encode_push(prefix@, '.');
                lemma_encode_concat(prefix@.push('.'), key@.name);
            }
        }
        append(buf, key.name().as_bytes());
        assert(buf@ =~= old(buf)@ + encode_utf8(full_name(text_of(prefix), key@.name, sanitize)));
        return;
    }
    let mut written: usize = 0;
    let ghost front = clean_prefix(text_of(prefix));
    if let Some(prefix) = prefix {
        written = write_sanitized_name(buf, prefix, MAX_METRIC_NAME_LENGTH, true);
        if written != 0 && written < MAX_METRIC_NAME_LENGTH {
            buf.push('.' as u8);
            written += 1;
            proof {
                lemma_encode_push(
                    sanitized_name(prefix@, MAX_METRIC_NAME_LENGTH as nat, true),
                    '.',
                );
            }
        }
    }
    assert(buf@ =~= old(buf)@ + encode_utf8(front));
    let rest: usize = MAX_METRIC_NAME_LENGTH - written;
    let _ = write_sanitized_name(buf, key.name(), rest, written == 0);
    proof {
        lemma_encode_concat(front, sanitized_name(key@.name, rest as nat, written == 0));
        assert(buf@ =~= old(buf)@ + encode_utf8(full_name(text_of(prefix), key@.name, sanitize)));
    }
}

/// Appends what is written of a sample rate to `buf`: the rate if it is not 1.0.
pub(crate) fn write_rate_section(buf: &mut Vec<u8>, maybe_sample_rate: Option<&FloatText>)
    ensures
        final(buf)@ == old(buf)@ + rate_section(rate_of(maybe_sample_rate)),
{
    if let Some(sample_rate) = maybe_sample_rate {
        if !is_implied_rate(sample_rate.as_bytes()) {
            buf.push('|' as u8);
            buf.push('@' as u8);
            append(buf, sample_rate.as_bytes());
        }
    }
    assert(buf@ =~= old(buf)@ + rate_section(rate_of(maybe_sample_rate)));
}

/// Appends what is written of a timestamp to `buf`.
pub(crate) fn write_time_section(buf: &mut Vec<u8>, maybe_timestamp: Option<u64>)
    ensures
        final(buf)@ == old(buf)@ + time_section(maybe_timestamp),
{
    if let Some(timestamp) = maybe_timestamp {
        let mut formatter = MetricValueFormatter::new();
        let digits = formatter.format(MetricValue::Integer(timestamp));
        buf.push('|' as u8);
        buf.push('T' as u8);
        append(buf, digits);
    }
    assert(buf@ =~= old(buf)@ + time_section(maybe_timestamp));
}

/// What an optional sample rate is printed as.
pub open spec fn rate_of(sample_rate: Option<&FloatText>) -> Option<Seq<u8>> {
    match sample_rate {
        Some(sample_rate) => Some(sample_rate@),
        None => None,
    }
}

} // verus!
