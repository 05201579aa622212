//! Rendering labels as tags.

use vstd::prelude::*;
use vstd::utf8::*;

use crate::metric::{Label, LabelView, label_views};
use crate::sanitize::{all_separate, sanitized_tag, write_sanitized_tag};
use crate::utf8::{
    append, lemma_encode_concat, lemma_encode_len, lemma_encode_one, lemma_encode_push,
};

verus! {

/// The most characters that a sanitized tag may have.
pub const MAX_TAG_LENGTH: usize = 200;

/// The tag that stands for `label` as it is. A label without a value is a bare tag.
pub open spec fn raw_tag(label: LabelView) -> Seq<char> {
    if label.value.len() == 0 {
        label.key
    } else {
        label.key.push(':') + label.value
    }
}

/// The tag that stands for `label` by Datadog's rules; empty if the key sanitizes away.
///
/// The value is left out, and the separator with it, if it sanitizes away or if no character of it
/// would fit.
pub open spec fn clean_tag(label: LabelView) -> Seq<char> {
    let key = sanitized_tag(label.key, MAX_TAG_LENGTH as nat, true);
    let room = MAX_TAG_LENGTH - key.len() - 1;
    let value = if room > 0 {
        sanitized_tag(label.value, room as nat, false)
    } else {
        Seq::empty()
    };
    if key.len() == 0 || value.len() == 0 {
        key
    } else {
        key.push(':') + value
    }
}

/// The tag that stands for `label`; empty if there is none.
pub open spec fn tag(label: LabelView, sanitize: bool) -> Seq<char> {
    if sanitize {
        clean_tag(label)
    } else {
        raw_tag(label)
    }
}

/// The tags that stand for `labels`, without the empty ones.
pub open spec fn tag_list(labels: Seq<LabelView>, sanitize: bool) -> Seq<Seq<char>>
    decreases labels.len(),
{
    if labels.len() == 0 {
        Seq::empty()
    } else {
        let tags = tag_list(labels.drop_last(), sanitize);
        let last = tag(labels.last(), sanitize);
        if last.len() == 0 {
            tags
        } else {
            tags.push(last)
        }
    }
}

/// The tags of a list, with commas between them.
pub open spec fn joined(tags: Seq<Seq<char>>) -> Seq<char>
    decreases tags.len(),
{
    if tags.len() == 0 {
        Seq::empty()
    } else if tags.len() == 1 {
        tags[0]
    } else {
        joined(tags.drop_last()).push(',') + tags.last()
    }
}

/// Every tag of a tag list holds something, so their joined text is empty only if the list is.
pub proof fn lemma_tag_list_nonempty(labels: Seq<LabelView>, sanitize: bool)
    ensures
        forall|i: int|
            0 <= i < tag_list(labels, sanitize).len() ==> (#[trigger] tag_list(
                labels,
                sanitize,
            )[i]).len() > 0,
        tag_list(labels, sanitize).len() == 0 <==> joined(tag_list(labels, sanitize)).len() == 0,
    decreases labels.len(),
{
    if labels.len() > 0 {
        lemma_tag_list_nonempty(labels.drop_last(), sanitize);
    }
    let tags = tag_list(labels, sanitize);
    if tags.len() > 0 {
        assert(tags.last().len() > 0);
    }
}

/// Joining two lists joins their texts.
pub proof fn lemma_joined_concat(a: Seq<Seq<char>>, b: Seq<Seq<char>>)
    requires
        a.len() > 0,
        b.len() > 0,
    ensures
        joined(a + b) == joined(a).push(',') + joined(b),
    decreases b.len(),
{
    assert((a + b).last() == b.last());
    if b.len() == 1 {
        assert((a + b).drop_last() =~= a);
    } else {
        assert((a + b).drop_last() =~= a + b.drop_last());
        lemma_joined_concat(a, b.drop_last());
        assert(joined(a + b) =~= joined(a).push(',') + joined(b));
    }
}

/// Writes `label` to `buf` as a tag, returning `false` if no tag was written at all.
///
/// The caller relies on the return value to roll back the tag prefix or separator it wrote
/// speculatively, so a label that sanitizes away leaves no trace in the payload. That is a label
/// whose key holds nothing of which a tag could be made.
pub fn write_tag(buf: &mut Vec<u8>, label: &Label, sanitize: bool) -> (written: bool)
    ensures
        written == (tag(label@, sanitize).len() > 0),
        final(buf)@ == old(buf)@ + encode_utf8(tag(label@, sanitize)),
        sanitize ==> (written <==> !all_separate(label@.key)),
{
    let start: usize = buf.len();
    let ghost result = tag(label@, sanitize);
    if !sanitize {
        // A label without a value is a bare tag: `label_name`, and not `label_name:`.
        append(buf, label.key().as_bytes());
        if !label.value().is_empty() {
            buf.push(':' as u8);
            append(buf, label.value().as_bytes());
            proof {
                lemma_encode_push(label@.key, ':');
                lemma_encode_concat(label@.key.push(':'), label@.value);
            }
        }
        proof {
            lemma_encode_len(result);
            assert(buf@ =~= old(buf)@ + encode_utf8(result));
        }
        return buf.len() != start;
    }
    // The key and the value are independent elements: a key that sanitizes away must not promote
    // the value into the tag-name position, a value that sanitizes away must not leave a dangling
    // `:`, and a long key must not consume its own value.
    let key_len = write_sanitized_tag(buf, label.key(), MAX_TAG_LENGTH, true);
    let ghost key = sanitized_tag(label@.key, MAX_TAG_LENGTH as nat, true);
    if key_len == 0 {
        // With no tag name there is no tag to write.
        assert(buf@ =~= old(buf)@ + encode_utf8(result));
        return false;
    }
    // A value is only worth writing if the separator and at least one character of value fit.
    let remaining: usize = MAX_TAG_LENGTH - key_len;
    if !label.value().is_empty() && remaining >= 2 {
        let ghost with_key = buf@;
        let ghost value = sanitized_tag(label@.value, (remaining - 1) as nat, false);
        buf.push(':' as u8);
        if write_sanitized_tag(buf, label.value(), remaining - 1, false) == 0 {
            proof {
                assert(value =~= Seq::<char>::empty());
                assert(buf@ =~= with_key.push(':' as u8));
            }
            buf.pop();
            assert(buf@ =~= with_key);
        } else {
            proof {
                lemma_encode_push(key, ':');
                lemma_encode_concat(key.push(':'), value);
                assert(buf@ =~= old(buf)@ + encode_utf8(result));
            }
        }
    } else {
        assert(label@.value.len() == 0 ==> sanitized_tag(
            label@.value,
            (remaining - 1) as nat,
            false,
        ).len() == 0);
    }
    true
}

/// Renders `labels` as a list of tags, with commas between them.
pub(crate) fn render_tags(labels: &[Label], sanitize: bool) -> (buf: Vec<u8>)
    ensures
        buf@ == encode_utf8(joined(tag_list(label_views(labels@), sanitize))),
{
    let mut buf: Vec<u8> = Vec::new();
    let ghost views = label_views(labels@);
    assert(buf@ =~= encode_utf8(joined(tag_list(views.take(0), sanitize))));
    let mut i: usize = 0;
    while i < labels.len()
        invariant
            i <= labels@.len(),
            views == label_views(labels@),
            buf@ == encode_utf8(joined(tag_list(views.take(i as int), sanitize))),
        decreases labels@.len() - i,
    {
        let ghost tags = tag_list(views.take(i as int), sanitize);
        let ghost last = tag(views[i as int], sanitize);
        let ghost before = buf@;
        proof {
            lemma_tag_list_nonempty(views.take(i as int), sanitize);
            lemma_encode_len(joined(tags));
            assert(views.take(i + 1).drop_last() =~= views.take(i as int));
            assert(tags.push(last).drop_last() =~= tags);
        }
        let start: usize = buf.len();
        if start != 0 {
            buf.push(',' as u8);
        }
        if !write_tag(&mut buf, &labels[i], sanitize) {
            buf.truncate(start);
            assert(buf@ =~= before);
        } else if start != 0 {
            proof {
                lemma_encode_push(joined(tags), ',');
                lemma_encode_concat(joined(tags).push(','), last);
                assert(buf@ =~= encode_utf8(joined(tags.push(last))));
            }
        } else {
            assert(buf@ =~= encode_utf8(joined(tags.push(last))));
        }
        i += 1;
    }
    assert(views.take(views.len() as int) =~= views);
    buf
}

/// The section of a metric line that holds `tags`; empty if there are none.
pub open spec fn tag_section(tags: Seq<Seq<char>>) -> Seq<char> {
    if tags.len() == 0 {
        Seq::empty()
    } else {
        seq!['|', '#'] + joined(tags)
    }
}

/// Appends the tag section of `labels` to `buf`, and returns whether any tag was written.
pub(crate) fn write_tag_section(buf: &mut Vec<u8>, labels: &[Label], sanitize: bool) -> (
    wrote_tag: bool)
    ensures
        wrote_tag == (tag_list(label_views(labels@), sanitize).len() > 0),
        final(buf)@ == old(buf)@ + encode_utf8(
            tag_section(tag_list(label_views(labels@), sanitize)),
        ),
{
    let mut wrote_tag = false;
    let ghost views = label_views(labels@);
    assert(buf@ =~= old(buf)@ + encode_utf8(tag_section(tag_list(views.take(0), sanitize))));
    let mut i: usize = 0;
    while i < labels.len()
        invariant
            i <= labels@.len(),
            views == label_views(labels@),
            wrote_tag == (tag_list(views.take(i as int), sanitize).len() > 0),
            buf@ == old(buf)@ + encode_utf8(
                tag_section(tag_list(views.take(i as int), sanitize)),
            ),
        decreases labels@.len() - i,
    {
        let ghost tags = tag_list(views.take(i as int), sanitize);
        let ghost last = tag(views[i as int], sanitize);
        let ghost before = buf@;
        proof {
            assert(views.take(i + 1).drop_last() =~= views.take(i as int));
            assert(tags.push(last).drop_last() =~= tags);
        }
        let section_len: usize = buf.len();
        // The first tag follows the section's prefix, the others a separator.
        if wrote_tag {
            buf.push(',' as u8);
            proof {
                lemma_encode_push(tag_section(tags), ',');
                lemma_encode_concat(tag_section(tags).push(','), last);
                assert(tag_section(tags.push(last)) =~= tag_section(tags).push(',') + last);
            }
        } else {
            buf.push('|' as u8);
            buf.push('#' as u8);
            proof {
                lemma_encode_bar_hash();
                lemma_encode_concat(seq!['|', '#'], last);
                assert(tag_section(tags.push(last)) =~= seq!['|', '#'] + last);
            }
        }
        if write_tag(buf, &labels[i], sanitize) {
            wrote_tag = true;
            assert(buf@ =~= old(buf)@ + encode_utf8(tag_section(tags.push(last))));
        } else {
            buf.truncate(section_len);
            assert(buf@ =~= before);
        }
        i += 1;
    }
    assert(views.take(views.len() as int) =~= views);
    wrote_tag
}

/// Appends the section of the tags of `labels` and of the global tags, which are rendered already.
pub(crate) fn write_all_tags(
    buf: &mut Vec<u8>,
    labels: &[Label],
    sanitize: bool,
    global_tags: &[u8],
    Ghost(global_labels): Ghost<Seq<LabelView>>,
)
    requires
        global_tags@ == encode_utf8(joined(tag_list(global_labels, sanitize))),
    ensures
        final(buf)@ == old(buf)@ + encode_utf8(
            tag_section(
                tag_list(label_views(labels@), sanitize) + tag_list(global_labels, sanitize),
            ),
        ),
{
    let wrote_tag = write_tag_section(buf, labels, sanitize);
    let ghost own = tag_list(label_views(labels@), sanitize);
    let ghost global = tag_list(global_labels, sanitize);
    proof {
        lemma_tag_list_nonempty(global_labels, sanitize);
        lemma_encode_len(joined(global));
    }
    if global_tags.len() == 0 {
        assert(own + global =~= own);
        return;
    }
    if wrote_tag {
        buf.push(',' as u8);
        proof {
            lemma_joined_concat(own, global);
            lemma_encode_push(tag_section(own), ',');
            lemma_encode_concat(tag_section(own).push(','), joined(global));
            assert(tag_section(own + global) =~= tag_section(own).push(',') + joined(global));
        }
    } else {
        buf.push('|' as u8);
        buf.push('#' as u8);
        proof {
            assert(own + global =~= global);
            lemma_encode_bar_hash();
            lemma_encode_concat(seq!['|', '#'], joined(global));
        }
    }
    append(buf, global_tags);
    assert(buf@ =~= old(buf)@ + encode_utf8(tag_section(own + global)));
}

/// How the start of a tag section is encoded.
proof fn lemma_encode_bar_hash()
    ensures
        encode_utf8(seq!['|', '#']) == seq!['|' as u8, '#' as u8],
{
    lemma_encode_one('|');
    lemma_encode_push(seq!['|'], '#');
    assert(seq!['|'].push('#') =~= seq!['|', '#']);
    assert(seq!['|' as u8].push('#' as u8) =~= seq!['|' as u8, '#' as u8]);
}

} // verus!
