//! What a metric is made of: its key, its type and its values.

use vstd::prelude::*;
use vstd::utf8::*;

use crate::utf8::append;

verus! {

/// The key and the value of a [`Label`].
#[verifier::ext_equal]
pub struct LabelView {
    pub key: Seq<char>,
    pub value: Seq<char>,
}

/// A key/value pair that describes a metric.
pub struct Label {
    key: String,
    value: String,
}

impl View for Label {
    type V = LabelView;

    closed spec fn view(&self) -> LabelView {
        LabelView { key: self.key@, value: self.value@ }
    }
}

impl Label {
    /// Creates a label from a key and a value.
    pub fn new(key: &str, value: &str) -> (label: Self)
        ensures
            label@ == (LabelView { key: key@, value: value@ }),
    {
        Label { key: key.to_owned(), value: value.to_owned() }
    }

    /// Key of this label.
    pub fn key(&self) -> (key: &str)
        ensures
            key@ == self@.key,
    {
        self.key.as_str()
    }

    /// Value of this label.
    pub fn value(&self) -> (value: &str)
        ensures
            value@ == self@.value,
    {
        self.value.as_str()
    }
}

/// What each of `labels` stands for.
pub open spec fn label_views(labels: Seq<Label>) -> Seq<LabelView> {
    labels.map_values(|label: Label| label@)
}

/// Copies `labels`.
pub(crate) fn copy_labels(labels: &[Label]) -> (copies: Vec<Label>)
    ensures
        label_views(copies@) == label_views(labels@),
{
    let mut copies: Vec<Label> = Vec::new();
    let mut i: usize = 0;
    while i < labels.len()
        invariant
            i <= labels@.len(),
            label_views(copies@) == label_views(labels@.take(i as int)),
        decreases labels@.len() - i,
    {
        let copy = Label::new(labels[i].key(), labels[i].value());
        proof {
            assert(labels@.take(i + 1) =~= labels@.take(i as int).push(labels@[i as int]));
            assert(label_views(copies@.push(copy)) =~= label_views(copies@).push(copy@));
            assert(label_views(labels@.take(i + 1)) =~= label_views(labels@.take(i as int)).push(
                labels@[i as int]@,
            ));
        }
        copies.push(copy);
        i += 1;
    }
    assert(labels@.take(labels@.len() as int) =~= labels@);
    copies
}

/// The name and the labels of a [`Key`].
#[verifier::ext_equal]
pub struct KeyView {
    pub name: Seq<char>,
    pub labels: Seq<LabelView>,
}

/// A metric identifier: the name and the labels of a metric.
pub struct Key {
    name: String,
    labels: Vec<Label>,
}

impl View for Key {
    type V = KeyView;

    closed spec fn view(&self) -> KeyView {
        KeyView { name: self.name@, labels: label_views(self.labels@) }
    }
}

impl Key {
    /// Creates a key from a name.
    pub fn from_name(name: &str) -> (key: Self)
        ensures
            key@ == (KeyView { name: name@, labels: Seq::empty() }),
    {
        let key = Key { name: name.to_owned(), labels: Vec::new() };
        assert(key@.labels =~= Seq::<LabelView>::empty());
        key
    }

    /// Creates a key from a name and a set of labels.
    pub fn from_parts(name: &str, labels: Vec<Label>) -> (key: Self)
        ensures
            key@ == (KeyView { name: name@, labels: label_views(labels@) }),
    {
        Key { name: name.to_owned(), labels }
    }

    /// Name of this key.
    pub fn name(&self) -> (name: &str)
        ensures
            name@ == self@.name,
    {
        self.name.as_str()
    }

    /// Labels of this key.
    pub fn labels(&self) -> (labels: &[Label])
        ensures
            label_views(labels@) == self@.labels,
    {
        self.labels.as_slice()
    }
}

/// Whether `byte` may stand in the text of a number.
#[verifier::allow_in_spec]
pub fn is_number_byte(byte: u8) -> bool
    returns
        ('0' as u8 <= byte && byte <= '9' as u8) || ('a' as u8 <= byte && byte <= 'z' as u8) || (
        'A' as u8 <= byte && byte <= 'Z' as u8) || byte == '.' as u8 || byte == '-' as u8,
{
    ('0' as u8 <= byte && byte <= '9' as u8) || ('a' as u8 <= byte && byte <= 'z' as u8) || ('A'
        as u8 <= byte && byte <= 'Z' as u8) || byte == '.' as u8 || byte == '-' as u8
}

/// Whether `text` can be the text of a number: digits, a sign, a decimal point, an exponent, or a
/// word such as `NaN` or `inf`. It is never empty.
pub open spec fn is_number_text(text: Seq<u8>) -> bool {
    &&& text.len() > 0
    &&& forall|i: int| 0 <= i < text.len() ==> is_number_byte(#[trigger] text[i])
}

/// A floating-point number in its printed form.
pub struct FloatText {
    text: Vec<u8>,
}

impl View for FloatText {
    type V = Seq<u8>;

    closed spec fn view(&self) -> Seq<u8> {
        self.text@
    }
}

impl FloatText {
    /// Whether the text can be that of a number.
    pub open spec fn wf(&self) -> bool {
        is_number_text(self@)
    }

    /// Takes the printed form of a floating-point number. Returns `None` if `text` is empty, or not
    /// made of the bytes that the printed form of a number may hold.
    pub fn new(text: &str) -> (number: Option<Self>)
        ensures
            number is Some <==> is_number_text(encode_utf8(text@)),
            number matches Some(number) ==> number.wf() && number@ == encode_utf8(text@),
    {
        let bytes = text.as_bytes();
        if bytes.len() == 0 {
            return None;
        }
        let mut i: usize = 0;
        while i < bytes.len()
            invariant
                i <= bytes@.len(),
                bytes@ == encode_utf8(text@),
                forall|j: int| 0 <= j < i ==> is_number_byte(#[trigger] bytes@[j]),
            decreases bytes@.len() - i,
        {
            if !is_number_byte(bytes[i]) {
                return None;
            }
            i += 1;
        }
        let mut copy: Vec<u8> = Vec::new();
        append(&mut copy, bytes);
        assert(copy@ =~= bytes@);
        Some(FloatText { text: copy })
    }

    /// The bytes of the printed form.
    pub fn as_bytes(&self) -> (bytes: &[u8])
        ensures
            bytes@ == self@,
    {
        self.text.as_slice()
    }
}

/// What each of `numbers` is printed as.
pub open spec fn number_texts(numbers: Seq<FloatText>) -> Seq<Seq<u8>> {
    numbers.map_values(|number: FloatText| number@)
}

/// The kind of a metric.
#[derive(Clone, Copy)]
pub enum MetricType {
    Counter,
    Gauge,
    Histogram,
    Distribution,
}

impl MetricType {
    /// The letter that stands for a type.
    pub open spec fn letter(self) -> char {
        match self {
            MetricType::Counter => 'c',
            MetricType::Gauge => 'g',
            MetricType::Histogram => 'h',
            MetricType::Distribution => 'd',
        }
    }

    /// The bytes that announce a type, after the values of a metric.
    pub fn as_bytes(self) -> (bytes: [u8; 2])
        ensures
            bytes@ == seq!['|' as u8, self.letter() as u8],
    {
        match self {
            MetricType::Counter => ['|' as u8, 'c' as u8],
            MetricType::Gauge => ['|' as u8, 'g' as u8],
            MetricType::Histogram => ['|' as u8, 'h' as u8],
            MetricType::Distribution => ['|' as u8, 'd' as u8],
        }
    }
}

/// The decimal digits of `n`, most significant first.
pub open spec fn decimal(n: nat) -> Seq<u8>
    decreases n,
{
    if n < 10 {
        seq![('0' as u8 + n) as u8]
    } else {
        decimal(n / 10).push(('0' as u8 + n % 10) as u8)
    }
}

/// Decimal digits are the text of a number.
pub proof fn lemma_decimal_is_number(n: nat)
    ensures
        is_number_text(decimal(n)),
    decreases n,
{
    if n >= 10 {
        lemma_decimal_is_number(n / 10);
    }
}

/// A value of a metric.
#[derive(Clone, Copy)]
pub enum MetricValue<'a> {
    Integer(u64),
    FloatingPoint(&'a FloatText),
}

impl<'a> MetricValue<'a> {
    /// The text of a value.
    pub open spec fn text(self) -> Seq<u8> {
        match self {
            MetricValue::Integer(value) => decimal(value as nat),
            MetricValue::FloatingPoint(value) => value@,
        }
    }
}

/// The buffer into which `itoa` prints integers.
#[verifier::external_type_specification]
#[verifier::external_body]
pub struct ExIntegerBuffer(itoa::Buffer);

/// `itoa::Buffer::new` makes an empty buffer. Nothing is claimed of it: what is read from a buffer
/// is what was printed into it last.
pub assume_specification[ itoa::Buffer::new ]() -> itoa::Buffer
;

/// Prints `value` into `buffer` by `itoa::Buffer::format`, which returns its decimal digits,
/// without leading zeros.
#[verifier::external_body]
fn print_integer<'a>(buffer: &'a mut itoa::Buffer, value: u64) -> (text: &'a [u8])
    ensures
        text@ == decimal(value as nat),
{
    buffer.format(value).as_bytes()
}

/// Prints the values of metrics.
pub(crate) struct MetricValueFormatter {
    int_writer: itoa::Buffer,
}

impl MetricValueFormatter {
    /// Creates a formatter.
    pub(crate) fn new() -> Self {
        MetricValueFormatter { int_writer: itoa::Buffer::new() }
    }

    /// Returns the text of `value`.
    pub(crate) fn format<'a>(&'a mut self, value: MetricValue<'a>) -> (text: &'a [u8])
        ensures
            text@ == value.text(),
    {
        match value {
            MetricValue::Integer(value) => print_integer(&mut self.int_writer, value),
            MetricValue::FloatingPoint(value) => value.as_bytes(),
        }
    }
}

} // verus!
