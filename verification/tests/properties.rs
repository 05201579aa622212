//! What holds of every payload, on concrete values, and the edges of what a writer accepts.

use dogstatsd_writer::lowering::{lowers_to_plain_text, lowers_to_settled_text};
use dogstatsd_writer::sanitize::{
    conformant_name_len, conformant_tag_len, is_allowed_name_punctuation,
    is_allowed_tag_punctuation, is_combining_mark, write_sanitized_name, write_sanitized_tag,
};
use dogstatsd_writer::{
    write_tag, FloatText, Key, Label, MetricType, PayloadWriter, SMALLEST_VALID_PAYLOAD_LEN,
};

fn key(name: &str, labels: &[(&str, &str)]) -> Key {
    Key::from_parts(name, labels.iter().map(|(key, value)| Label::new(key, value)).collect())
}

fn float(text: &str) -> FloatText {
    FloatText::new(text).unwrap()
}

fn floats(texts: &[&str]) -> Vec<FloatText> {
    texts.iter().map(|text| float(text)).collect()
}

fn payloads_of(writer: &mut PayloadWriter) -> Vec<String> {
    let mut payloads = writer.payloads();
    let mut all = Vec::new();
    while let Some(payload) = payloads.next_payload() {
        all.push(String::from_utf8(payload.to_vec()).unwrap());
    }
    all
}

fn tag_of(key: &str, value: &str) -> Option<String> {
    let mut buf = Vec::new();
    let written = write_tag(&mut buf, &Label::new(key, value), true);
    let tag = String::from_utf8(buf).unwrap();
    assert_eq!(written, !tag.is_empty());
    if written {
        Some(tag)
    } else {
        None
    }
}

fn sanitized_tag(input: &str, budget: usize, lead: bool) -> String {
    let mut buf = b"before ".to_vec();
    let written = write_sanitized_tag(&mut buf, input, budget, lead);
    let text = String::from_utf8(buf).unwrap();
    let tag = text.strip_prefix("before ").unwrap();
    assert_eq!(tag.chars().count(), written);
    tag.to_string()
}

fn sanitized_name(input: &str, budget: usize, lead: bool) -> String {
    let mut buf = b"before ".to_vec();
    let written = write_sanitized_name(&mut buf, input, budget, lead);
    let text = String::from_utf8(buf).unwrap();
    let name = text.strip_prefix("before ").unwrap();
    assert_eq!(name.len(), written);
    name.to_string()
}

/// A small generator of pseudo-random numbers.
struct Numbers {
    state: u64,
}

impl Numbers {
    fn below(&mut self, bound: u64) -> u64 {
        self.state = self.state.wrapping_mul(6364136223846793005).wrapping_add(1442695040888963407);
        (self.state >> 33) % bound
    }

    fn text(&mut self, alphabet: &[char], shortest: u64, longest: u64) -> String {
        let len = shortest + self.below(longest - shortest + 1);
        (0..len).map(|_| alphabet[self.below(alphabet.len() as u64) as usize]).collect()
    }

    fn label(&mut self) -> Label {
        let lower: Vec<char> = ('a'..='z').collect();
        let dirty: Vec<char> = "abzAZ09_|:, -\n\u{e9}\u{130}\u{3042}".chars().collect();
        match self.below(4) {
            0 => Label::new(&self.text(&lower, 4, 12), ""),
            1 => Label::new(&self.text(&lower, 4, 12), &self.text(&lower, 8, 16)),
            2 => Label::new(&self.text(&dirty, 0, 16), &self.text(&dirty, 0, 16)),
            _ => Label::new(&self.text(&lower, 190, 210), &self.text(&dirty, 1, 210)),
        }
    }

    fn key(&mut self) -> Key {
        let dirty: Vec<char> = "abzAZ09_.|:\n\u{e9}".chars().collect();
        let lower: Vec<char> = ('a'..='z').collect();
        let name = match self.below(3) {
            0 => self.text(&lower, 8, 32),
            1 => self.text(&dirty, 1, 32),
            _ => self.text(&lower, 190, 210),
        };
        let labels = (0..self.below(4)).map(|_| self.label()).collect();
        Key::from_parts(&name, labels)
    }

    fn float(&mut self) -> FloatText {
        let bits = (self.below(1 << 31) << 33) ^ (self.below(1 << 31) << 11) ^ self.below(1 << 11);
        float(ryu::Buffer::new().format(f64::from_bits(bits)))
    }

    fn timestamp(&mut self) -> Option<u64> {
        match self.below(2) {
            0 => None,
            _ => Some(self.below(1 << 31)),
        }
    }
}

#[test]
fn property_test_gauntlet() {
    let mut numbers = Numbers { state: 7 };
    for _ in 0..300 {
        let payload_limit = SMALLEST_VALID_PAYLOAD_LEN + numbers.below(16384 - 6) as usize;
        let with_length_prefix = numbers.below(2) == 1;
        let mut writer = PayloadWriter::new(payload_limit, with_length_prefix);
        let mut total_input_points: u64 = 0;
        let mut payloads_written = 0;
        let mut points_dropped = 0;

        for _ in 0..1 + numbers.below(127) {
            let key = numbers.key();
            let result = match numbers.below(3) {
                0 => {
                    total_input_points += 1;
                    let value = numbers.below(1 << 31) << numbers.below(33);
                    writer.write_counter(&key, value, numbers.timestamp(), None)
                }
                1 => {
                    total_input_points += 1;
                    writer.write_gauge(&key, &numbers.float(), numbers.timestamp(), None)
                }
                _ => {
                    let count = 1 + numbers.below(63);
                    total_input_points += count;
                    let values: Vec<FloatText> = (0..count).map(|_| numbers.float()).collect();
                    writer.write_histogram(&key, &values, None, None)
                }
            };
            payloads_written += result.payloads_written();
            points_dropped += result.points_dropped();
            assert_eq!(result.any_failures(), result.points_dropped() != 0);
        }

        let mut payloads = writer.payloads();
        let mut payloads_emitted = 0;
        let mut points_emitted: u64 = 0;
        while let Some(payload) = payloads.next_payload() {
            let body = if with_length_prefix {
                let (prefix, body) = payload.split_at(4);
                assert_eq!(prefix, (body.len() as u32).to_le_bytes().as_slice());
                body
            } else {
                payload
            };
            assert!(!body.is_empty());
            assert!(body.len() <= payload_limit);

            for line in std::str::from_utf8(body).unwrap().lines() {
                payloads_emitted += 1;
                let num_points = line.split('|').next().unwrap().split(':').skip(1).count();
                assert!(num_points > 0);
                points_emitted += num_points as u64;
            }
        }
        assert_eq!(payloads_written, payloads_emitted);
        assert_eq!(total_input_points, points_dropped + points_emitted);
    }
}

#[test]
fn integers_are_printed_in_decimal() {
    for (value, expected) in [
        (0, "a:0|c\n"),
        (9, "a:9|c\n"),
        (10, "a:10|c\n"),
        (1_000_000, "a:1000000|c\n"),
        (u64::MAX, "a:18446744073709551615|c\n"),
    ] {
        let mut writer = PayloadWriter::new(8192, false);
        assert_eq!(writer.write_counter(&key("a", &[]), value, None, None).payloads_written(), 1);
        assert_eq!(payloads_of(&mut writer), [expected]);
    }
}

#[test]
fn smallest_limit_holds_the_smallest_metric() {
    let mut writer = PayloadWriter::new(SMALLEST_VALID_PAYLOAD_LEN, false);
    assert_eq!(writer.write_counter(&key("a", &[]), 0, None, None).payloads_written(), 1);
    assert_eq!(payloads_of(&mut writer), ["a:0|c\n"]);

    let result = writer.write_counter(&key("a", &[]), 10, None, None);
    assert_eq!((result.payloads_written(), result.points_dropped()), (0, 1));
    assert!(result.any_failures());
    assert!(payloads_of(&mut writer).is_empty());
}

#[test]
fn lines_are_gathered_until_the_limit() {
    // Each line has six bytes.
    let mut writer = PayloadWriter::new(12, false);
    for value in [1, 2, 3, 4, 5] {
        assert!(!writer.write_counter(&key("a", &[]), value, None, None).any_failures());
    }
    assert_eq!(payloads_of(&mut writer), ["a:1|c\na:2|c\n", "a:3|c\na:4|c\n", "a:5|c\n"]);

    let mut writer = PayloadWriter::new(11, false);
    for value in [1, 2] {
        assert!(!writer.write_counter(&key("a", &[]), value, None, None).any_failures());
    }
    assert_eq!(payloads_of(&mut writer), ["a:1|c\n", "a:2|c\n"]);
}

#[test]
fn dropped_metric_leaves_the_payloads_alone() {
    let mut writer = PayloadWriter::new(12, false);
    writer.write_counter(&key("a", &[]), 1, None, None);
    let result = writer.write_counter(&key("a_long_name", &[]), 1, None, None);
    assert_eq!((result.payloads_written(), result.points_dropped()), (0, 1));
    writer.write_counter(&key("a", &[]), 2, None, None);
    assert_eq!(payloads_of(&mut writer), ["a:1|c\na:2|c\n"]);
}

#[test]
fn values_are_packed_into_lines() {
    // A line has room for six bytes of values.
    let mut writer = PayloadWriter::new(10, false);
    let values = floats(&["1.0", "2.0", "33.0", "4.0"]);
    let result = writer.write_histogram(&key("h", &[]), &values, None, None);
    assert_eq!((result.payloads_written(), result.points_dropped()), (4, 0));
    assert_eq!(
        payloads_of(&mut writer),
        ["h:1.0|h\n", "h:2.0|h\n", "h:33.0|h\n", "h:4.0|h\n"]
    );

    let mut writer = PayloadWriter::new(12, false);
    let result = writer.write_histogram(&key("h", &[]), &values, None, None);
    assert_eq!((result.payloads_written(), result.points_dropped()), (3, 0));
    assert_eq!(payloads_of(&mut writer), ["h:1.0:2.0|h\n", "h:33.0|h\n", "h:4.0|h\n"]);
}

#[test]
fn value_that_does_not_fit_is_skipped() {
    let mut writer = PayloadWriter::new(12, false);
    let values = floats(&["1.0", "123456.75", "2.0"]);
    let result = writer.write_distribution(&key("d", &[]), &values, None, None);
    assert_eq!((result.payloads_written(), result.points_dropped()), (1, 1));
    assert_eq!(payloads_of(&mut writer), ["d:1.0:2.0|d\n"]);
}

#[test]
fn no_room_for_any_value_drops_all() {
    let mut writer = PayloadWriter::new(12, false);
    let values = floats(&["1.0", "2.0", "3.0"]);
    let result = writer.write_histogram(&key("name_of_ten", &[]), &values, None, None);
    assert_eq!((result.payloads_written(), result.points_dropped()), (0, 3));
    let result = writer.write_histogram(&key("h", &[]), &[], None, None);
    assert_eq!((result.payloads_written(), result.points_dropped()), (0, 0));
    assert!(payloads_of(&mut writer).is_empty());
}

#[test]
fn sample_rate_follows_the_type() {
    let mut writer = PayloadWriter::new(8192, false);
    let rate = float("0.25");
    let values = floats(&["1.5"]);
    writer.write_histogram(&key("h", &[("k", "v")]), &values, Some(&rate), Some("app"));
    assert_eq!(payloads_of(&mut writer), ["app.h:1.5|h|@0.25|#k:v\n"]);
}

#[test]
fn implied_sample_rate_is_not_written() {
    let values = floats(&["1.5"]);
    for (rate, expected) in [
        ("1.0", "h:1.5|h\n"),
        ("0.5", "h:1.5|h|@0.5\n"),
        ("1.01", "h:1.5|h|@1.01\n"),
        ("11.0", "h:1.5|h|@11.0\n"),
    ] {
        let mut writer = PayloadWriter::new(8192, false);
        writer.write_histogram(&key("h", &[]), &values, Some(&float(rate)), None);
        assert_eq!(payloads_of(&mut writer), [expected]);
    }
    let mut writer = PayloadWriter::new(8192, false);
    let rate = float(ryu::Buffer::new().format(1.0));
    writer.write_distribution(&key("d", &[]), &values, Some(&rate), None);
    assert_eq!(payloads_of(&mut writer), ["d:1.5|d\n"]);
}

#[test]
fn special_floats_are_printed() {
    for (value, expected) in [
        (f64::NAN, "g:NaN|g\n"),
        (f64::INFINITY, "g:inf|g\n"),
        (f64::NEG_INFINITY, "g:-inf|g\n"),
        (-0.0, "g:-0.0|g\n"),
        (1e300, "g:1e300|g\n"),
        (1.5e-10, "g:1.5e-10|g\n"),
        (f64::MIN, "g:-1.7976931348623157e308|g\n"),
    ] {
        let mut writer = PayloadWriter::new(8192, false);
        let text = float(ryu::Buffer::new().format(value));
        writer.write_gauge(&key("g", &[]), &text, None, None);
        assert_eq!(payloads_of(&mut writer), [expected]);
    }
}

#[test]
fn texts_that_are_not_numbers_are_refused() {
    for text in ["", "1:2", "1|c", "1.0\n", " 1", "1,5", "\u{e9}"] {
        assert!(FloatText::new(text).is_none(), "text={text:?}");
    }
    assert_eq!(float("1.25").as_bytes(), b"1.25");
}

#[test]
fn payloads_are_handed_out_once() {
    let mut writer = PayloadWriter::new(8, true);
    writer.write_counter(&key("a", &[]), 1, None, None);
    writer.write_counter(&key("a", &[]), 22, None, None);
    let mut payloads = writer.payloads();
    assert_eq!(payloads.len(), 2);
    assert_eq!(payloads.next_payload(), Some(b"\x06\0\0\0a:1|c\n".as_slice()));
    assert_eq!(payloads.len(), 1);
    assert_eq!(payloads.next_payload(), Some(b"\x07\0\0\0a:22|c\n".as_slice()));
    assert_eq!(payloads.len(), 0);
    assert_eq!(payloads.next_payload(), None);
    assert_eq!(payloads.next_payload(), None);
    assert_eq!(writer.payloads().len(), 0);
    writer.write_counter(&key("b", &[]), 3, None, None);
    assert_eq!(payloads_of(&mut writer), ["\u{6}\0\0\0b:3|c\n"]);
}

#[test]
fn dropping_the_payloads_clears_the_writer() {
    let mut writer = PayloadWriter::new(8192, true);
    writer.write_counter(&key("a", &[]), 1, None, None);
    assert_eq!(writer.payloads().len(), 1);
    assert_eq!(writer.payloads().len(), 0);
}

#[test]
fn length_prefix_does_not_count() {
    for with_length_prefix in [false, true] {
        let mut writer = PayloadWriter::new(12, with_length_prefix);
        for value in [1, 2, 3] {
            writer.write_counter(&key("a", &[]), value, None, None);
        }
        let payloads = payloads_of(&mut writer);
        let skipped = if with_length_prefix { 4 } else { 0 };
        let bodies: Vec<&str> = payloads.iter().map(|payload| &payload[skipped..]).collect();
        assert_eq!(bodies, ["a:1|c\na:2|c\n", "a:3|c\n"]);
    }
}

#[test]
fn long_length_prefix_is_little_endian() {
    let mut writer = PayloadWriter::new(100_000, true).with_sanitization(false);
    let name = "n".repeat(70_000);
    writer.write_counter(&key(&name, &[]), 1, None, None);
    let mut payloads = writer.payloads();
    let payload = payloads.next_payload().unwrap();
    assert_eq!(&payload[..4], [0x75, 0x11, 0x01, 0x00]);
    assert_eq!(payload.len(), 4 + 70_005);
}

#[test]
fn global_tags_stand_alone() {
    let labels = [Label::new("region", "eu"), Label::new("", "x"), Label::new("bare", "")];
    let mut writer = PayloadWriter::new(8192, false).with_global_labels(&labels);
    writer.write_counter(&key("a", &[("|", "dropped")]), 1, None, None);
    assert_eq!(payloads_of(&mut writer), ["a:1|c|#region:eu,bare\n"]);

    let mut writer = writer.with_global_labels(&[]);
    writer.write_counter(&key("a", &[]), 1, None, None);
    assert_eq!(payloads_of(&mut writer), ["a:1|c\n"]);
}

#[test]
fn dropped_label_leaves_no_trace_between_others() {
    let mut writer = PayloadWriter::new(8192, false);
    writer.write_counter(&key("a", &[("x", "1"), ("***", "2"), ("y", "3")]), 1, None, None);
    assert_eq!(payloads_of(&mut writer), ["a:1|c|#x:1,y:3\n"]);
}

#[test]
fn prefix_that_sanitizes_away_or_fills_the_name() {
    let mut writer = PayloadWriter::new(8192, false);
    writer.write_counter(&key("9a", &[]), 1, None, Some(""));
    assert_eq!(payloads_of(&mut writer), ["_9a:1|c\n"]);

    for (len, rest) in [(198, ".n"), (199, "."), (200, ""), (250, "")] {
        writer.write_counter(&key("name", &[]), 1, None, Some(&"p".repeat(len)));
        let expected = format!("{}{}:1|c\n", "p".repeat(len.min(200)), rest);
        assert_eq!(payloads_of(&mut writer), [expected]);
    }
}

#[test]
fn prefix_is_kept_as_it_is_without_sanitization() {
    let mut writer = PayloadWriter::new(8192, false).with_sanitization(false);
    writer.write_counter(&key("9 a", &[]), 1, None, Some(""));
    assert_eq!(payloads_of(&mut writer), [".9 a:1|c\n"]);
}

#[test]
fn tags_lowercase_beyond_ascii() {
    assert_eq!(tag_of("\u{c9}T\u{c9}", "\u{212a}"), Some("\u{e9}t\u{e9}:k".to_string()));
    assert_eq!(tag_of("\u{130}", ""), Some("i\u{307}".to_string()));
    // A combining mark and a numeral are no letters.
    assert_eq!(tag_of("\u{301}a", ""), Some("_\u{301}a".to_string()));
    assert_eq!(tag_of("\u{661}a", ""), Some("_\u{661}a".to_string()));
    assert_eq!(tag_of("\u{1f600}", "x"), None);
}

#[test]
fn tag_elements_are_cut_to_the_budget() {
    assert_eq!(sanitized_tag("abc", 0, true), "");
    assert_eq!(sanitized_tag("", 5, true), "");
    assert_eq!(sanitized_tag("abcdef", 3, true), "abc");
    assert_eq!(sanitized_tag("9bcdef", 3, true), "_9b");
    assert_eq!(sanitized_tag("9bcdef", 1, true), "_");
    assert_eq!(sanitized_tag("a\u{130}", 2, true), "ai");
    assert_eq!(sanitized_tag("a\u{130}", 3, true), "ai\u{307}");
    // An underscore between two words is not left at the end.
    assert_eq!(sanitized_tag("ab cd", 3, true), "ab");
    assert_eq!(sanitized_tag("ab c", 3, false), "ab");
    assert_eq!(sanitized_tag("9 cd", 3, true), "_9");
    assert_eq!(sanitized_tag("ab cd", 4, true), "ab_c");
    assert_eq!(sanitized_tag("ab   ", 3, true), "ab");
    assert_eq!(sanitized_tag("ab cd", 2, true), "ab");
}

#[test]
fn tag_separators_collapse_and_trim() {
    assert_eq!(sanitized_tag("__a__b__", 20, false), "a_b");
    assert_eq!(sanitized_tag(" | a,\n b _ ", 20, true), "a_b");
    assert_eq!(sanitized_tag("A-b:c.d/e", 20, true), "a-b:c.d/e");
    assert_eq!(sanitized_tag("Env", 20, true), sanitized_tag("  eNV__", 20, true));
    assert_eq!(sanitized_tag("___", 20, true), "");
}

#[test]
fn tag_elements_vanish_with_their_last_word_character() {
    for (input, vanishes) in [
        ("", true),
        ("_|, \n", true),
        ("\u{1f600} _", true),
        ("_|-, \n", false),
        ("\u{301}", false),
        ("\u{661}", false),
    ] {
        for lead in [false, true] {
            assert_eq!(sanitized_tag(input, 1, lead).is_empty(), vanishes, "input={input:?}");
            assert!(sanitized_tag(input, 0, lead).is_empty());
        }
        assert_eq!(tag_of(input, "value").is_none(), vanishes, "input={input:?}");
    }
}

#[test]
fn lowercase_forms_are_what_tags_need() {
    for c in '\0'..=char::MAX {
        let text = String::from(c);
        assert!(lowers_to_plain_text(&text), "c={c:?}");
        assert!(lowers_to_settled_text(&text), "c={c:?}");
    }
    assert!(lowers_to_plain_text("") && lowers_to_settled_text(""));
}

#[test]
fn keys_stay_distinct() {
    let keys = ["2xx", "xx", "-xx", ".xx", "22xx"];
    let tags: Vec<String> = keys.iter().map(|key| sanitized_tag(key, 200, true)).collect();
    assert_eq!(tags, ["_2xx", "xx", "_-xx", "_.xx", "_22xx"]);
}

#[test]
fn value_is_kept_as_long_as_it_has_room() {
    for (key_len, expected) in [(197, Some("va")), (198, Some("v")), (199, None), (200, None)] {
        let key = "k".repeat(key_len);
        let tag = match expected {
            Some(value) => format!("{key}:{value}"),
            None => key.clone(),
        };
        assert_eq!(tag_of(&key, "value"), Some(tag));
    }
}

#[test]
fn cut_key_keeps_no_trailing_underscore() {
    let key = format!("{} b", "a".repeat(199));
    assert_eq!(tag_of(&key, "value"), Some("a".repeat(199)));
    let value = format!("{} b", "v".repeat(197));
    assert_eq!(tag_of("k", &value), Some(format!("k:{}", "v".repeat(197))));
}

#[test]
fn sanitizing_twice_changes_nothing() {
    let inputs = ["2xx", " Env__a|b ", "R\u{c9}GION \u{130}x", "e\u{301}", "\u{661} a", "-a", "a b"];
    for input in inputs {
        for budget in [2, 3, 4, 200] {
            for lead in [false, true] {
                let once = sanitized_tag(input, budget, lead);
                assert!(!once.ends_with('_'), "input={input:?} budget={budget}");
                assert_eq!(sanitized_tag(&once, budget, lead), once, "input={input:?}");
            }
        }
    }
}

#[test]
fn drained_writer_writes_like_a_new_one() {
    let mut used = PayloadWriter::new(12, true);
    used.write_counter(&key("old", &[]), 1, None, None);
    used.payloads();
    let mut new = PayloadWriter::new(12, true);
    for value in [1, 22, 3] {
        used.write_counter(&key("a", &[]), value, None, None);
        new.write_counter(&key("a", &[]), value, None, None);
    }
    assert_eq!(payloads_of(&mut used), payloads_of(&mut new));
}

#[test]
fn names_are_rewritten_one_for_one() {
    assert_eq!(sanitized_name("a--b__c", 20, true), "a__b__c");
    assert_eq!(sanitized_name("\u{e9}\u{1f600}", 20, false), "__");
    assert_eq!(sanitized_name("\u{e9}\u{1f600}", 20, true), "___");
    assert_eq!(sanitized_name("9abc", 3, true), "_9a");
    assert_eq!(sanitized_name("9abc", 1, true), "_");
    assert_eq!(sanitized_name("9abc", 3, false), "9ab");
    assert_eq!(sanitized_name("_a", 3, true), "__a");
    assert_eq!(sanitized_name("a", 0, true), "");
    assert_eq!(sanitized_name("", 3, true), "");
}

#[test]
fn names_stay_distinct() {
    let names = ["9lives", "8lives", "lives", "_lives", ".lives"];
    let sanitized: Vec<String> = names.iter().map(|name| sanitized_name(name, 200, true)).collect();
    assert_eq!(sanitized, ["_9lives", "_8lives", "lives", "__lives", "_.lives"]);
}

#[test]
fn tags_stand_on_one_line() {
    let mut writer = PayloadWriter::new(8192, false);
    writer.write_counter(&key("a\nb:1|c", &[("k\nx:2|c", "v\ny:3|c")]), 1, None, None);
    assert_eq!(payloads_of(&mut writer), ["a_b_1_c:1|c|#k_x:2_c:v_y:3_c\n"]);
}

#[test]
fn conformant_texts_are_recognized() {
    assert_eq!(conformant_tag_len("env-1:a.b/c_d", 20, true), Some(13));
    assert_eq!(conformant_tag_len("env", 3, true), Some(3));
    assert_eq!(conformant_tag_len("env", 2, true), None);
    assert_eq!(conformant_tag_len("1env", 20, true), None);
    assert_eq!(conformant_tag_len("1env", 20, false), Some(4));
    // Length counts characters, and letters outside ASCII are letters.
    assert_eq!(conformant_tag_len("r\u{e9}gion", 200, true), Some(6));
    assert_eq!(conformant_tag_len("r\u{e9}gion", 6, true), Some(6));
    assert_eq!(conformant_tag_len("r\u{e9}gion", 5, true), None);
    assert_eq!(conformant_tag_len("e\u{301}", 20, true), Some(2));
    assert_eq!(conformant_tag_len("\u{661}", 20, false), Some(1));
    assert_eq!(conformant_tag_len("\u{661}", 20, true), None);
    for text in ["_env", "env_", "a__b", "Env", "a b", "R\u{c9}GION", "\u{c9}", "\u{130}", "\u{1f600}"]
    {
        assert_eq!(conformant_tag_len(text, 20, false), None, "text={text:?}");
    }
    assert_eq!(conformant_name_len("My.App_1", 20, true), Some(8));
    assert_eq!(conformant_name_len("My.App_1", 7, true), None);
    assert_eq!(conformant_name_len("_app", 20, true), None);
    assert_eq!(conformant_name_len("_app", 20, false), Some(4));
    assert_eq!(conformant_name_len("", 0, false), Some(0));
    for text in ["a-b", "a b", "\u{e9}"] {
        assert_eq!(conformant_name_len(text, 20, false), None, "text={text:?}");
    }
}

#[test]
fn character_classes() {
    for c in ['_', '-', ':', '.', '/'] {
        assert!(is_allowed_tag_punctuation(c));
    }
    for c in ['|', ',', '#', 'a', ' '] {
        assert!(!is_allowed_tag_punctuation(c));
    }
    assert!(is_allowed_name_punctuation('_') && is_allowed_name_punctuation('.'));
    assert!(!is_allowed_name_punctuation('-') && !is_allowed_name_punctuation(':'));
    for c in ['\u{300}', '\u{36f}', '\u{1ab0}', '\u{1dff}', '\u{20f0}', '\u{fe20}', '\u{fe2f}'] {
        assert!(is_combining_mark(c));
    }
    for c in ['\u{2ff}', '\u{370}', '\u{1b00}', '\u{20f1}', '\u{fe30}', 'a', '_'] {
        assert!(!is_combining_mark(c));
    }
}

#[test]
fn metric_types_have_letters() {
    assert_eq!(MetricType::Counter.as_bytes(), *b"|c");
    assert_eq!(MetricType::Gauge.as_bytes(), *b"|g");
    assert_eq!(MetricType::Histogram.as_bytes(), *b"|h");
    assert_eq!(MetricType::Distribution.as_bytes(), *b"|d");
}

#[test]
fn keys_and_labels_hold_what_they_were_made_of() {
    let key = key("name", &[("k", "v"), ("bare", "")]);
    assert_eq!(key.name(), "name");
    let labels: Vec<(&str, &str)> =
        key.labels().iter().map(|label| (label.key(), label.value())).collect();
    assert_eq!(labels, [("k", "v"), ("bare", "")]);
    assert!(Key::from_name("name").labels().is_empty());
}
