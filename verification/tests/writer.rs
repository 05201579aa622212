//! The lines and payloads that a writer produces.

use dogstatsd_writer::{
    write_tag, FloatText, Key, Label, PayloadWriter, MAX_METRIC_NAME_LENGTH, MAX_TAG_LENGTH,
};

fn key(name: &str, labels: &[(&str, &str)]) -> Key {
    Key::from_parts(name, labels.iter().map(|(key, value)| Label::new(key, value)).collect())
}

fn float(value: f64) -> FloatText {
    let mut buffer = ryu::Buffer::new();
    FloatText::new(buffer.format(value)).unwrap()
}

fn floats(values: &[f64]) -> Vec<FloatText> {
    values.iter().map(|value| float(*value)).collect()
}

fn string_from_writer(writer: &mut PayloadWriter) -> String {
    String::from_utf8(buf_from_writer(writer)).unwrap()
}

fn buf_from_writer(writer: &mut PayloadWriter) -> Vec<u8> {
    let mut payloads = writer.payloads();
    let mut buf = Vec::new();
    while let Some(payload) = payloads.next_payload() {
        buf.extend_from_slice(payload);
    }

    buf
}

#[test]
fn counter() {
    // Cases are defined as: metric key, metric value, metric timestamp, expected output.
    let cases = [
        (Key::from_name("test_counter"), 91919, None, None, &[][..], "test_counter:91919|c\n"),
        (
            Key::from_name("test_counter"),
            666,
            Some(345_678),
            None,
            &[],
            "test_counter:666|c|T345678\n",
        ),
        (
            key("test_counter", &[("bug", "boop")]),
            12345,
            None,
            None,
            &[],
            "test_counter:12345|c|#bug:boop\n",
        ),
        (
            key("test_counter", &[("foo", "bar"), ("baz", "quux")]),
            777,
            Some(234_567),
            None,
            &[],
            "test_counter:777|c|#foo:bar,baz:quux|T234567\n",
        ),
        (
            key("test_counter", &[("foo", "bar"), ("baz", "quux")]),
            777,
            Some(234_567),
            Some("server1"),
            &[],
            "server1.test_counter:777|c|#foo:bar,baz:quux|T234567\n",
        ),
        (
            key("test_counter", &[("foo", "bar"), ("baz", "quux")]),
            777,
            Some(234_567),
            None,
            &[Label::new("gfoo", "bar"), Label::new("gbaz", "quux")][..],
            "test_counter:777|c|#foo:bar,baz:quux,gfoo:bar,gbaz:quux|T234567\n",
        ),
        (
            key("test_counter", &[("foo", "bar"), ("baz", "quux")]),
            777,
            Some(234_567),
            Some("server1"),
            &[Label::new("gfoo", "bar"), Label::new("gbaz", "quux")][..],
            "server1.test_counter:777|c|#foo:bar,baz:quux,gfoo:bar,gbaz:quux|T234567\n",
        ),
    ];

    for (key, value, ts, prefix, global_labels, expected) in cases {
        let mut writer = PayloadWriter::new(8192, false).with_global_labels(global_labels);
        let result = writer.write_counter(&key, value, ts, prefix);
        assert_eq!(result.payloads_written(), 1);

        let actual = string_from_writer(&mut writer);
        assert_eq!(actual, expected);
    }
}

#[test]
fn sanitizes_labels_by_default() {
    let key = key("test_counter", &[("tag", "Foo|Bar")]);
    let mut writer = PayloadWriter::new(8192, false);

    let result = writer.write_counter(&key, 1, None, None);
    assert_eq!(result.payloads_written(), 1);

    let actual = string_from_writer(&mut writer);
    assert_eq!(actual, "test_counter:1|c|#tag:foo_bar\n");
}

#[test]
fn sanitizes_labels_using_datadog_rules() {
    let key =
        key("test_counter", &[("_Env NAME", "Staging|East___"), ("RÉGION", "気")]);
    let mut writer = PayloadWriter::new(8192, false);

    let result = writer.write_counter(&key, 1, None, None);
    assert_eq!(result.payloads_written(), 1);

    let actual = string_from_writer(&mut writer);
    assert_eq!(actual, "test_counter:1|c|#env_name:staging_east,région:気\n");
}

#[test]
fn sanitizes_label_keys_and_values_independently() {
    // Cases are defined as: label key, label value, expected tag.
    //
    // Each of these regresses a way that sanitizing the key, the separator and the value as one
    // fused character stream corrupted the tag.
    let cases = [
        // A key that needs a leading character must not let the value slide into the tag-name
        // position, which is what dropping the invalid character used to cause.
        ("123", "foo", "_123:foo"),
        ("2", "us-east-1", "_2:us-east-1"),
        // A value that sanitizes away leaves a bare tag, not a dangling separator.
        ("env", "___", "env"),
        ("env", "|||", "env"),
        ("env", " ", "env"),
        ("env", "\u{1F600}", "env"),
        // Underscores are trimmed per element, so a key's trailing run cannot survive by
        // sitting next to the separator.
        ("Env ", "prod", "env:prod"),
        ("Env", "prod", "env:prod"),
        ("env", " prod", "env:prod"),
        ("env_", "_prod", "env:prod"),
    ];

    for (label_key, label_value, expected) in cases {
        let mut buf = Vec::new();
        let label = Label::new(label_key, label_value);
        assert!(write_tag(&mut buf, &label, true));
        assert_eq!(
            String::from_utf8(buf).unwrap(),
            expected,
            "key={label_key:?} value={label_value:?}"
        );
    }
}

#[test]
fn sanitizing_label_keys_preserves_distinctness() {
    // Stripping a leading invalid character instead of prepending to it used to collapse all of
    // these onto the single tag name `xx`, silently merging three distinct time series.
    let tags = ["2xx", "4xx", "5xx", "xx"].map(|label_key| {
        let mut buf = Vec::new();
        assert!(write_tag(&mut buf, &Label::new(label_key, "yes"), true));
        String::from_utf8(buf).unwrap()
    });

    assert_eq!(tags, ["_2xx:yes", "_4xx:yes", "_5xx:yes", "xx:yes"]);
}

#[test]
fn sanitizing_labels_preserves_combining_marks() {
    // `char::to_lowercase` expands `İ` into `i` plus a combining dot, and decomposed input
    // carries its marks directly. Neither may be rewritten to an underscore.
    let cases = [
        ("tag", "\u{130}stanbul", "tag:i\u{307}stanbul"),
        ("tag", "e\u{301}clair", "tag:e\u{301}clair"),
    ];

    for (label_key, label_value, expected) in cases {
        let mut buf = Vec::new();
        assert!(write_tag(&mut buf, &Label::new(label_key, label_value), true));
        assert_eq!(String::from_utf8(buf).unwrap(), expected, "value={label_value:?}");
    }
}

#[test]
fn limits_sanitized_labels_to_two_hundred_characters() {
    let label = Label::new("tag", &"x".repeat(250));
    let mut buf = Vec::new();

    assert!(write_tag(&mut buf, &label, true));

    let tag = String::from_utf8(buf).unwrap();
    assert_eq!(tag.chars().count(), 200);
    assert!(tag.starts_with("tag:"));
}

#[test]
fn limits_sanitized_labels_by_characters_not_bytes() {
    // The limit is a character limit, so a multi-byte tag is legitimately longer than 200 bytes
    // on the wire. This pins that down rather than leaving it to an ASCII-only test.
    let label = Label::new("tag", &"日".repeat(250));
    let mut buf = Vec::new();

    assert!(write_tag(&mut buf, &label, true));

    let tag = String::from_utf8(buf).unwrap();
    assert_eq!(tag.chars().count(), 200);
    assert_eq!(tag.len(), 4 + (196 * 3));
}

#[test]
fn omits_value_that_does_not_fit_rather_than_truncating_to_separator() {
    // A key long enough to crowd out its own value yields a bare tag. It must not end in a
    // dangling `:`, and the value must not be silently half-written.
    for key_len in [198, 199, 205] {
        let label = Label::new(&"k".repeat(key_len), "value");
        let mut buf = Vec::new();

        assert!(write_tag(&mut buf, &label, true));

        let tag = String::from_utf8(buf).unwrap();
        assert!(
            !tag.ends_with(':'),
            "key_len={key_len} produced a dangling separator: {tag:?}"
        );
        assert!(tag.chars().count() <= MAX_TAG_LENGTH, "key_len={key_len} exceeded the limit");
    }
}

#[test]
fn omits_labels_that_are_empty_after_sanitizing() {
    // Only a key with nothing left to salvage drops the tag; the value is never promoted into
    // the key's place to fill the gap.
    for (label_key, label_value) in [("", "___"), ("", "bar"), ("|||", "bar")] {
        let key = key("test_counter", &[(label_key, label_value)]);
        let mut writer = PayloadWriter::new(8192, false);

        let result = writer.write_counter(&key, 1, None, None);
        assert_eq!(result.payloads_written(), 1);

        let actual = string_from_writer(&mut writer);
        assert_eq!(actual, "test_counter:1|c\n", "key={label_key:?} value={label_value:?}");
    }
}

#[test]
fn sanitizes_metric_names_using_datadog_rules() {
    // Cases are defined as: global prefix, metric name, expected payload.
    let cases = [
        // Metric names are case-sensitive in Datadog, unlike tags, so case is preserved.
        (None, "MyApp.Requests", "MyApp.Requests:1|c\n"),
        // The invalid-payload failure mode that motivated sanitizing in the first place.
        (None, "foo|bar", "foo_bar:1|c\n"),
        // A newline in a name would otherwise inject a second, caller-chosen metric line.
        (None, "a\nevil.metric:99|c", "a_evil.metric_99_c:1|c\n"),
        // Unicode is not supported in names, and each character is replaced one-for-one.
        (None, "métrique", "m_trique:1|c\n"),
        // A name must start with a letter, and prepending keeps otherwise-distinct names apart.
        (None, "9lives", "_9lives:1|c\n"),
        (None, "8lives", "_8lives:1|c\n"),
        // The prefix and the name are sanitized as separate elements joined by a `.`.
        (Some("my|prefix"), "some|name", "my_prefix.some_name:1|c\n"),
        (Some("9prefix"), "name", "_9prefix.name:1|c\n"),
    ];

    for (prefix, name, expected) in cases {
        let key = Key::from_name(name);
        let mut writer = PayloadWriter::new(8192, false);

        let result = writer.write_counter(&key, 1, None, prefix);
        assert_eq!(result.payloads_written(), 1, "name={name:?}");

        let actual = string_from_writer(&mut writer);
        assert_eq!(actual, expected, "prefix={prefix:?} name={name:?}");
    }
}

#[test]
fn limits_sanitized_metric_names_to_two_hundred_characters() {
    let key = Key::from_name(&"n".repeat(250));
    let mut writer = PayloadWriter::new(8192, false);

    let result = writer.write_counter(&key, 1, None, Some("p".repeat(150).as_str()));
    assert_eq!(result.payloads_written(), 1);

    let actual = string_from_writer(&mut writer);
    let name = actual.split(':').next().unwrap();
    assert_eq!(name.chars().count(), MAX_METRIC_NAME_LENGTH);
}

#[test]
fn sanitizes_global_labels() {
    let global_labels = [Label::new("Global Tag", "Value|X"), Label::new("|||", "dropped")];
    let key = key("test_counter", &[("a", "B")]);
    let mut writer = PayloadWriter::new(8192, false).with_global_labels(&global_labels);

    let result = writer.write_counter(&key, 1, None, None);
    assert_eq!(result.payloads_written(), 1);

    let actual = string_from_writer(&mut writer);
    assert_eq!(actual, "test_counter:1|c|#a:b,global_tag:value_x\n");
}

#[test]
fn sanitizes_global_labels_regardless_of_builder_order() {
    // The global labels are rendered eagerly, so both setters have to re-render rather than
    // whichever one happens to be called last winning.
    let global_labels = [Label::new("Global Tag", "Value|X")];
    let key = Key::from_name("test_counter");

    let mut sanitize_last = PayloadWriter::new(8192, false)
        .with_global_labels(&global_labels)
        .with_sanitization(false);
    let mut sanitize_first = PayloadWriter::new(8192, false)
        .with_sanitization(false)
        .with_global_labels(&global_labels);

    let expected = "test_counter:1|c|#Global Tag:Value|X\n";
    for writer in [&mut sanitize_last, &mut sanitize_first] {
        let result = writer.write_counter(&key, 1, None, None);
        assert_eq!(result.payloads_written(), 1);
        assert_eq!(string_from_writer(writer), expected);
    }
}

#[test]
fn allows_sanitization_to_be_disabled() {
    let key = key("test|counter", &[("tag", "Foo|Bar")]);
    let mut writer = PayloadWriter::new(8192, false).with_sanitization(false);

    let result = writer.write_counter(&key, 1, None, None);
    assert_eq!(result.payloads_written(), 1);

    let actual = string_from_writer(&mut writer);
    assert_eq!(actual, "test|counter:1|c|#tag:Foo|Bar\n");
}

#[test]
fn omits_tags_prefix_when_unsanitized_labels_are_empty() {
    // Even with sanitization disabled, an entirely empty label has nothing to write, and the
    // speculative `|#` has to be rolled back rather than left dangling on the payload.
    let key = key("test_counter", &[("", "")]);
    let mut writer = PayloadWriter::new(8192, false).with_sanitization(false);

    let result = writer.write_counter(&key, 1, None, None);
    assert_eq!(result.payloads_written(), 1);

    let actual = string_from_writer(&mut writer);
    assert_eq!(actual, "test_counter:1|c\n");
}

#[test]
fn gauge() {
    // Cases are defined as: metric key, metric value, metric timestamp, expected output.
    let cases = [
        (Key::from_name("test_gauge"), 42.0, None, None, &[][..], "test_gauge:42.0|g\n"),
        (
            Key::from_name("test_gauge"),
            1967.0,
            Some(345_678),
            None,
            &[],
            "test_gauge:1967.0|g|T345678\n",
        ),
        (
            key("test_gauge", &[("foo", "bar"), ("baz", "quux")]),
            3.13232,
            None,
            None,
            &[],
            "test_gauge:3.13232|g|#foo:bar,baz:quux\n",
        ),
        (
            key("test_gauge", &[("foo", "bar"), ("baz", "quux")]),
            3.13232,
            Some(234_567),
            None,
            &[],
            "test_gauge:3.13232|g|#foo:bar,baz:quux|T234567\n",
        ),
        (
            key("test_gauge", &[("foo", "bar"), ("baz", "quux")]),
            3.13232,
            Some(234_567),
            Some("server1"),
            &[],
            "server1.test_gauge:3.13232|g|#foo:bar,baz:quux|T234567\n",
        ),
        (
            key("test_gauge", &[("foo", "bar"), ("baz", "quux")]),
            3.13232,
            Some(234_567),
            None,
            &[Label::new("gfoo", "bar"), Label::new("gbaz", "quux")][..],
            "test_gauge:3.13232|g|#foo:bar,baz:quux,gfoo:bar,gbaz:quux|T234567\n",
        ),
        (
            key("test_gauge", &[("foo", "bar"), ("baz", "quux")]),
            3.13232,
            Some(234_567),
            Some("server1"),
            &[Label::new("gfoo", "bar"), Label::new("gbaz", "quux")][..],
            "server1.test_gauge:3.13232|g|#foo:bar,baz:quux,gfoo:bar,gbaz:quux|T234567\n",
        ),
    ];

    for (key, value, ts, prefix, global_labels, expected) in cases {
        let mut writer = PayloadWriter::new(8192, false).with_global_labels(global_labels);
        let result = writer.write_gauge(&key, &float(value), ts, prefix);
        assert_eq!(result.payloads_written(), 1);

        let actual = string_from_writer(&mut writer);
        assert_eq!(actual, expected);
    }
}

#[test]
fn histogram() {
    // Cases are defined as: metric key, metric values, metric timestamp, expected output.
    let cases = [
        (Key::from_name("test_histogram"), &[22.22][..], None, &[][..], "test_histogram:22.22|h\n"),
        (
            key("test_histogram", &[("foo", "bar"), ("baz", "quux")]),
            &[88.0][..],
            None,
            &[],
            "test_histogram:88.0|h|#foo:bar,baz:quux\n",
        ),
        (
            Key::from_name("test_histogram"),
            &[22.22, 33.33, 44.44][..],
            None,
            &[],
            "test_histogram:22.22:33.33:44.44|h\n",
        ),
        (
            key("test_histogram", &[("foo", "bar"), ("baz", "quux")]),
            &[88.0, 66.6, 123.4][..],
            None,
            &[],
            "test_histogram:88.0:66.6:123.4|h|#foo:bar,baz:quux\n",
        ),
        (
            key("test_histogram", &[("foo", "bar"), ("baz", "quux")]),
            &[88.0, 66.6, 123.4][..],
            Some("server1"),
            &[],
            "server1.test_histogram:88.0:66.6:123.4|h|#foo:bar,baz:quux\n",
        ),
        (
            key("test_histogram", &[("foo", "bar"), ("baz", "quux")]),
            &[88.0, 66.6, 123.4][..],
            None,
            &[Label::new("gfoo", "bar"), Label::new("gbaz", "quux")][..],
            "test_histogram:88.0:66.6:123.4|h|#foo:bar,baz:quux,gfoo:bar,gbaz:quux\n",
        ),
        (
            key("test_histogram", &[("foo", "bar"), ("baz", "quux")]),
            &[88.0, 66.6, 123.4][..],
            Some("server1"),
            &[Label::new("gfoo", "bar"), Label::new("gbaz", "quux")][..],
            "server1.test_histogram:88.0:66.6:123.4|h|#foo:bar,baz:quux,gfoo:bar,gbaz:quux\n",
        ),
    ];

    for (key, values, prefix, global_labels, expected) in cases {
        let mut writer = PayloadWriter::new(8192, false).with_global_labels(global_labels);
        let result = writer.write_histogram(&key, &floats(values), None, prefix);
        assert_eq!(result.payloads_written(), 1);

        let actual = string_from_writer(&mut writer);
        assert_eq!(actual, expected);
    }
}

#[test]
fn distribution() {
    // Cases are defined as: metric key, metric values, metric timestamp, expected output.
    let cases = [
        (Key::from_name("test_distribution"), &[22.22][..], None, &[][..], "test_distribution:22.22|d\n"),
        (
            key("test_distribution", &[("foo", "bar"), ("baz", "quux")]),
            &[88.0][..],
            None,
            &[],
            "test_distribution:88.0|d|#foo:bar,baz:quux\n",
        ),
        (
            Key::from_name("test_distribution"),
            &[22.22, 33.33, 44.44][..],
            None,
            &[],
            "test_distribution:22.22:33.33:44.44|d\n",
        ),
        (
            key("test_distribution", &[("foo", "bar"), ("baz", "quux")]),
            &[88.0, 66.6, 123.4][..],
            None,
            &[],
            "test_distribution:88.0:66.6:123.4|d|#foo:bar,baz:quux\n",
        ),
        (
            key("test_distribution", &[("foo", "bar"), ("baz", "quux")]),
            &[88.0, 66.6, 123.4][..],
            Some("server1"),
            &[],
            "server1.test_distribution:88.0:66.6:123.4|d|#foo:bar,baz:quux\n",
        ),
        (
            key("test_distribution", &[("foo", "bar"), ("baz", "quux")]),
            &[88.0, 66.6, 123.4][..],
            None,
            &[Label::new("gfoo", "bar"), Label::new("gbaz", "quux")][..],
            "test_distribution:88.0:66.6:123.4|d|#foo:bar,baz:quux,gfoo:bar,gbaz:quux\n",
        ),
        (
            key("test_distribution", &[("foo", "bar"), ("baz", "quux")]),
            &[88.0, 66.6, 123.4][..],
            Some("server1"),
            &[Label::new("gfoo", "bar"), Label::new("gbaz", "quux")][..],
            "server1.test_distribution:88.0:66.6:123.4|d|#foo:bar,baz:quux,gfoo:bar,gbaz:quux\n",
        ),
    ];

    for (key, values, prefix, global_labels, expected) in cases {
        let mut writer = PayloadWriter::new(8192, false).with_global_labels(global_labels);
        let result = writer.write_distribution(&key, &floats(values), None, prefix);
        assert_eq!(result.payloads_written(), 1);

        let actual = string_from_writer(&mut writer);
        assert_eq!(actual, expected);
    }
}

#[test]
fn length_prefix() {
    let prefixed = |buf: &str| {
        let mut prefixed_buf = Vec::with_capacity(buf.len() + 4);
        prefixed_buf.extend_from_slice(&(buf.len() as u32).to_le_bytes());
        prefixed_buf.extend_from_slice(buf.as_bytes());
        prefixed_buf
    };

    // Cases are defined as: metric key, metric values, metric timestamp, expected output.
    let cases = [
        (Key::from_name("test_distribution"), &[22.22][..], prefixed("test_distribution:22.22|d\n")),
        (
            key("test_distribution", &[("foo", "bar"), ("baz", "quux")]),
            &[88.0][..],
            prefixed("test_distribution:88.0|d|#foo:bar,baz:quux\n"),
        ),
        (
            Key::from_name("test_distribution"),
            &[22.22, 33.33, 44.44][..],
            prefixed("test_distribution:22.22:33.33:44.44|d\n"),
        ),
        (
            key("test_distribution", &[("foo", "bar"), ("baz", "quux")]),
            &[88.0, 66.6, 123.4][..],
            prefixed("test_distribution:88.0:66.6:123.4|d|#foo:bar,baz:quux\n"),
        ),
    ];

    for (key, values, expected) in cases {
        let mut writer = PayloadWriter::new(8192, true);
        let result = writer.write_distribution(&key, &floats(values), None, None);
        assert_eq!(result.payloads_written(), 1);

        let actual = buf_from_writer(&mut writer);
        assert_eq!(actual, expected);

        // Write another payload (as a sanity check for previous panic bug)
        let result = writer.write_distribution(&key, &floats(values), None, None);
        assert_eq!(result.payloads_written(), 1);
    }
}
