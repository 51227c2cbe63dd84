//! Points and their encoding as lines of the InfluxDB line protocol.

use crate::entries::{
    entries_view, lemma_sorted_entries_unique, lemma_upsert_sorted, put, sorted_by_key, upsert,
};
use crate::text::{is_digit, push_signed_decimal, signed_decimal};
use vstd::prelude::*;

verus! {

/// The text `s` with a backslash put before every space and every comma.
/// No other character is touched; an equals sign stays as it is.
pub open spec fn escaped(s: Seq<char>) -> Seq<char>
    decreases s.len(),
{
    if s.len() == 0 {
        seq![]
    } else if s.last() == ' ' || s.last() == ',' {
        escaped(s.drop_last()).push('\\').push(s.last())
    } else {
        escaped(s.drop_last()).push(s.last())
    }
}

/// The text `s` with a backslash put before every double quote. No other
/// character is touched; a line break stays as it is.
pub open spec fn quoted(s: Seq<char>) -> Seq<char>
    decreases s.len(),
{
    if s.len() == 0 {
        seq![]
    } else if s.last() == '"' {
        quoted(s.drop_last()).push('\\').push('"')
    } else {
        quoted(s.drop_last()).push(s.last())
    }
}

/// Escaping goes character by character: the escaped form of two texts
/// put together is their escaped forms put together.
pub proof fn lemma_escaped_concat(a: Seq<char>, b: Seq<char>)
    ensures
        escaped(a + b) == escaped(a) + escaped(b),
    decreases b.len(),
{
    if b.len() == 0 {
        assert(a + b =~= a);
        assert(escaped(a) + escaped(b) =~= escaped(a));
    } else {
        lemma_escaped_concat(a, b.drop_last());
        assert((a + b).drop_last() =~= a + b.drop_last());
        assert((a + b).last() == b.last());
        assert(escaped(a + b) =~= escaped(a) + escaped(b));
    }
}

/// In an escaped text no space and no comma stands bare: each has a
/// backslash before it.
pub proof fn lemma_escaped_marks(s: Seq<char>)
    ensures
        forall|i: int|
            0 <= i < escaped(s).len() && (#[trigger] escaped(s)[i] == ' ' || escaped(s)[i] == ',')
                ==> i > 0 && escaped(s)[i - 1] == '\\',
    decreases s.len(),
{
    if s.len() > 0 {
        lemma_escaped_marks(s.drop_last());
        let before = escaped(s.drop_last());
        assert forall|i: int|
            0 <= i < escaped(s).len() && (#[trigger] escaped(s)[i] == ' ' || escaped(s)[i]
                == ',') implies i > 0 && escaped(s)[i - 1] == '\\' by {
            if i < before.len() {
                assert(escaped(s)[i] == before[i]);
                assert(escaped(s)[i - 1] == before[i - 1]);
            }
        }
    }
}

/// A text without spaces and commas is its own escaped form.
pub proof fn lemma_escaped_plain(s: Seq<char>)
    requires
        forall|i: int| 0 <= i < s.len() ==> s[i] != ' ' && s[i] != ',',
    ensures
        escaped(s) == s,
    decreases s.len(),
{
    if s.len() > 0 {
        lemma_escaped_plain(s.drop_last());
        assert(escaped(s) =~= s);
    } else {
        assert(escaped(s) =~= s);
    }
}

/// Appends `s` to `out`, escaped.
pub fn push_escaped(out: &mut String, s: &str)
    ensures
        final(out)@ == old(out)@ + escaped(s@),
{
    proof {
        assert(out@ =~= old(out)@ + escaped(s@.take(0)));
    }
    for c in it: s.chars()
        invariant
            it.seq() == s@,
            out@ == old(out)@ + escaped(s@.take(it.index())),
    {
        proof {
            assert(s@.take(it.index() + 1).drop_last() =~= s@.take(it.index()));
        }
        if c == ' ' || c == ',' {
            out.push('\\');
        }
        out.push(c);
        proof {
            assert(out@ =~= old(out)@ + escaped(s@.take(it.index() + 1)));
        }
    }
    proof {
        assert(s@.take(s@.len() as int) =~= s@);
    }
}

/// Appends `s` to `out` with its double quotes escaped.
fn push_quoted(out: &mut String, s: &str)
    ensures
        final(out)@ == old(out)@ + quoted(s@),
{
    proof {
        assert(out@ =~= old(out)@ + quoted(s@.take(0)));
    }
    for c in it: s.chars()
        invariant
            it.seq() == s@,
            out@ == old(out)@ + quoted(s@.take(it.index())),
    {
        proof {
            assert(s@.take(it.index() + 1).drop_last() =~= s@.take(it.index()));
        }
        if c == '"' {
            out.push('\\');
        }
        out.push(c);
        proof {
            assert(out@ =~= old(out)@ + quoted(s@.take(it.index() + 1)));
        }
    }
    proof {
        assert(s@.take(s@.len() as int) =~= s@);
    }
}

/// Escapes a measurement name, a tag key, a tag value or a field key: every
/// space becomes `\ ` and every comma `\,`.
pub fn escape(s: &str) -> (r: String)
    ensures
        r@ == escaped(s@),
{
    let mut out = String::new();
    push_escaped(&mut out, s);
    proof {
        assert(out@ =~= escaped(s@));
    }
    out
}

/// True of a numeral with or without a fraction: digits, with at most one
/// point among them, which stands neither first nor last.
pub open spec fn is_unsigned_decimal(s: Seq<char>) -> bool {
    &&& s.len() > 0
    &&& is_digit(s[0])
    &&& is_digit(s.last())
    &&& forall|i: int| 0 <= i < s.len() ==> is_digit(#[trigger] s[i]) || s[i] == '.'
    &&& forall|i: int, j: int|
        0 <= i < j < s.len() && #[trigger] s[i] == '.' ==> #[trigger] s[j] != '.'
}

/// True of the texts that stand for a floating-point number: a numeral
/// with or without a fraction and with or without a minus sign before it,
/// and the three words `NaN`, `inf` and `-inf`. There is no exponent.
pub open spec fn is_float_text(s: Seq<char>) -> bool {
    ||| s == seq!['N', 'a', 'N']
    ||| s == seq!['i', 'n', 'f']
    ||| s == seq!['-', 'i', 'n', 'f']
    ||| is_unsigned_decimal(s)
    ||| (s.len() > 0 && s[0] == '-' && is_unsigned_decimal(s.skip(1)))
}

/// The characters of `s`, one by one.
fn chars_of(s: &str) -> (r: Vec<char>)
    ensures
        r@ == s@,
{
    let mut out: Vec<char> = Vec::new();
    for c in it: s.chars()
        invariant
            it.seq() == s@,
            out@ == s@.take(it.index()),
    {
        out.push(c);
        proof {
            assert(out@ =~= s@.take(it.index() + 1));
        }
    }
    proof {
        assert(s@.take(s@.len() as int) =~= s@);
    }
    out
}

/// Says whether the characters from `start` on are a numeral with or
/// without a fraction.
fn unsigned_decimal_from(chars: &Vec<char>, start: usize) -> (r: bool)
    requires
        start <= chars.len(),
    ensures
        r == is_unsigned_decimal(chars@.skip(start as int)),
{
    let ghost s = chars@.skip(start as int);
    let n = chars.len();
    if start == n {
        return false;
    }
    let first = chars[start];
    let last = chars[n - 1];
    proof {
        assert(s[0] == first);
        assert(s.last() == last);
    }
    if !(first >= '0' && first <= '9' && last >= '0' && last <= '9') {
        return false;
    }
    let mut seen_point = false;
    let ghost mut point_at: int = 0;
    let mut i: usize = start;
    while i < n
        invariant
            start <= i <= n,
            n == chars.len(),
            s == chars@.skip(start as int),
            forall|j: int| 0 <= j < i - start ==> is_digit(#[trigger] s[j]) || s[j] == '.',
            !seen_point ==> forall|j: int| 0 <= j < i - start ==> #[trigger] s[j] != '.',
            seen_point ==> 0 <= point_at < i - start && s[point_at] == '.' && forall|j: int|
                0 <= j < i - start && j != point_at ==> #[trigger] s[j] != '.',
        decreases n - i,
    {
        let c = chars[i];
        proof {
            assert(s[i - start] == c);
        }
        if c == '.' {
            if seen_point {
                return false;
            }
            seen_point = true;
            proof {
                point_at = i - start;
            }
        } else if !(c >= '0' && c <= '9') {
            return false;
        }
        i += 1;
    }
    true
}

/// The decimal text of a floating-point number, as Rust writes such a
/// number: digits with or without a fraction and a sign, or one of the
/// words `NaN`, `inf` and `-inf`.
#[derive(Debug)]
pub struct FloatText {
    text: String,
}

impl View for FloatText {
    type V = Seq<char>;

    closed spec fn view(&self) -> Seq<char> {
        self.text@
    }
}

impl FloatText {
    #[verifier::type_invariant]
    spec fn well_formed(&self) -> bool {
        is_float_text(self.text@)
    }

    /// Takes `text` for the text of a floating-point number if it is one.
    pub fn new(text: &str) -> (r: Option<FloatText>)
        ensures
            r is Some <==> is_float_text(text@),
            r matches Some(t) ==> t@ == text@,
    {
        let chars = chars_of(text);
        let n = chars.len();
        let word = (n == 3 && chars[0] == 'N' && chars[1] == 'a' && chars[2] == 'N') || (n == 3
            && chars[0] == 'i' && chars[1] == 'n' && chars[2] == 'f') || (n == 4 && chars[0] == '-'
            && chars[1] == 'i' && chars[2] == 'n' && chars[3] == 'f');
        proof {
            assert(word <==> (text@ =~= seq!['N', 'a', 'N'] || text@ =~= seq!['i', 'n', 'f']
                || text@ =~= seq!['-', 'i', 'n', 'f']));
            assert(chars@.skip(0) =~= text@);
        }
        let numeral = unsigned_decimal_from(&chars, 0) || (n > 0 && chars[0] == '-'
            && unsigned_decimal_from(&chars, 1));
        if word || numeral {
            Some(FloatText { text: text.to_owned() })
        } else {
            None
        }
    }

    /// The text of the number.
    pub fn as_str(&self) -> (r: &str)
        ensures
            r@ == self@,
            is_float_text(r@),
    {
        proof {
            use_type_invariant(self);
        }
        self.text.as_str()
    }
}

/// What a field value is: its kind and what it holds.
pub enum ValueView {
    /// A text.
    String(Seq<char>),
    /// A floating-point number, by its decimal text.
    Float(Seq<char>),
    /// An integer.
    Integer(int),
    /// A truth value.
    Boolean(bool),
}

/// The text that stands for a field value in a line: a string in double
/// quotes with its own quotes escaped, an integer as its numeral followed by
/// `i`, a float as its decimal text, a boolean as `t` or `f`.
pub open spec fn value_text(v: ValueView) -> Seq<char> {
    match v {
        ValueView::String(s) => seq!['"'] + quoted(s) + seq!['"'],
        ValueView::Float(t) => t,
        ValueView::Integer(i) => signed_decimal(i).push('i'),
        ValueView::Boolean(b) => if b {
            seq!['t']
        } else {
            seq!['f']
        },
    }
}

/// A boolean is written as `t` or as `f`, and the one letter tells which
/// it was.
pub proof fn lemma_boolean_text(b: bool)
    ensures
        value_text(ValueView::Boolean(b)) == seq!['t'] <==> b,
        value_text(ValueView::Boolean(b)) == seq!['f'] <==> !b,
{
    assert(seq!['t'][0] != seq!['f'][0]);
}

/// Point's field value.
#[derive(Debug)]
pub enum Value<'a> {
    /// String.
    String(&'a str),
    /// Floating point number, held as its decimal text.
    Float(FloatText),
    /// Integer number.
    Integer(i64),
    /// Boolean value.
    Boolean(bool),
}

impl<'a> View for Value<'a> {
    type V = ValueView;

    open spec fn view(&self) -> ValueView {
        match self {
            Value::String(s) => ValueView::String(s@),
            Value::Float(t) => ValueView::Float(t@),
            Value::Integer(i) => ValueView::Integer(*i as int),
            Value::Boolean(b) => ValueView::Boolean(*b),
        }
    }
}

/// Appends the text of `value` to `out`.
fn push_value(out: &mut String, value: &Value<'_>)
    ensures
        final(out)@ == old(out)@ + value_text(value@),
{
    match value {
        Value::String(s) => {
            out.push('"');
            push_quoted(out, s);
            out.push('"');
            proof {
                assert(out@ =~= old(out)@ + value_text(value@));
            }
        },
        Value::Float(t) => {
            out.append(t.as_str());
        },
        Value::Integer(i) => {
            push_signed_decimal(out, *i);
            out.push('i');
            proof {
                assert(out@ =~= old(out)@ + value_text(value@));
            }
        },
        Value::Boolean(b) => {
            if *b {
                out.push('t');
            } else {
                out.push('f');
            }
            proof {
                assert(out@ =~= old(out)@ + value_text(value@));
            }
        },
    }
}

impl<'a> Value<'a> {
    /// The text that stands for this value in a line.
    pub fn to_string(&self) -> (r: String)
        ensures
            r@ == value_text(self@),
    {
        let mut out = String::new();
        push_value(&mut out, self);
        proof {
            assert(out@ =~= value_text(self@));
        }
        out
    }
}

/// What a point holds: its measurement name, its timestamp if it has one,
/// and its tags and fields, each list in the order of its keys.
pub struct PointView {
    /// The measurement name.
    pub key: Seq<char>,
    /// Nanoseconds since the Unix epoch, when given.
    pub timestamp: Option<i64>,
    /// The tags, by key.
    pub tags: Seq<(Seq<char>, Seq<char>)>,
    /// The fields, by key.
    pub fields: Seq<(Seq<char>, ValueView)>,
}

/// The tags of a line: for each tag a comma, the escaped key, an equals
/// sign and the escaped value.
pub open spec fn tags_text(tags: Seq<(Seq<char>, Seq<char>)>) -> Seq<char>
    decreases tags.len(),
{
    if tags.len() == 0 {
        seq![]
    } else {
        tags_text(tags.drop_last()) + seq![','] + escaped(tags.last().0) + seq!['='] + escaped(
            tags.last().1,
        )
    }
}

/// The fields of a line, separated by commas: for each field the escaped
/// key, an equals sign and the text of the value.
pub open spec fn fields_text(fields: Seq<(Seq<char>, ValueView)>) -> Seq<char>
    decreases fields.len(),
{
    if fields.len() == 0 {
        seq![]
    } else if fields.len() == 1 {
        escaped(fields.last().0) + seq!['='] + value_text(fields.last().1)
    } else {
        fields_text(fields.drop_last()) + seq![','] + escaped(fields.last().0) + seq!['=']
            + value_text(fields.last().1)
    }
}

/// The end of a line: a space and the numeral of the timestamp, when the
/// point has one.
pub open spec fn timestamp_text(timestamp: Option<i64>) -> Seq<char> {
    match timestamp {
        Some(t) => seq![' '] + signed_decimal(t as int),
        None => seq![],
    }
}

/// The line that a point is written as: the escaped measurement name, the
/// tags, one space, the fields, and the timestamp when there is one.
pub open spec fn line_text(p: PointView) -> Seq<char> {
    escaped(p.key) + tags_text(p.tags) + seq![' '] + fields_text(p.fields) + timestamp_text(
        p.timestamp,
    )
}

/// The line of a point shows what the point holds and not how it came
/// about: two points of one name and timestamp that hold the same tags and
/// the same fields, each list in the strict order of its keys, are written
/// as the same line.
pub proof fn lemma_line_of_contents(p: PointView, q: PointView)
    requires
        sorted_by_key(p.tags),
        sorted_by_key(p.fields),
        sorted_by_key(q.tags),
        sorted_by_key(q.fields),
        p.key == q.key,
        p.timestamp == q.timestamp,
        forall|e: (Seq<char>, Seq<char>)| p.tags.contains(e) <==> q.tags.contains(e),
        forall|e: (Seq<char>, ValueView)| p.fields.contains(e) <==> q.fields.contains(e),
    ensures
        line_text(p) == line_text(q),
{
    lemma_sorted_entries_unique(p.tags, q.tags);
    lemma_sorted_entries_unique(p.fields, q.fields);
}

/// Point model.
#[derive(Debug)]
pub struct Point<'a> {
    /// Key.
    pub key: &'a str,
    /// Timestamp.
    pub timestamp: Option<i64>,
    /// Fields, in the order of their keys.
    fields: Vec<(String, Value<'a>)>,
    /// Tags, in the order of their keys.
    tags: Vec<(String, String)>,
}

/// Reads the system clock with `SystemTime::now` and measures it against
/// the Unix epoch with `duration_since`: `Ok` holds the nanoseconds that
/// have passed since the epoch, `Err` those that are still to pass where
/// the clock stands before it. Nothing is claimed of either number.
#[verifier::external_body]
fn unix_nanos() -> Result<u128, u128> {
    match std::time::SystemTime::now().duration_since(std::time::UNIX_EPOCH) {
        Ok(since) => Ok(since.as_nanos()),
        Err(before) => Err(before.duration().as_nanos()),
    }
}

/// The timestamp that a reading of the clock stands for: the nanoseconds
/// since the epoch cut to their lower 64 bits, and the same below zero for
/// a clock that stands before the epoch.
pub open spec fn timestamp_of_reading(reading: Result<u128, u128>) -> i64 {
    match reading {
        Ok(since) => since as i64,
        Err(before) => if before as i64 == i64::MIN {
            i64::MIN
        } else {
            (-(before as i64)) as i64
        },
    }
}

/// The timestamp for a reading of the clock: the nanoseconds since the
/// epoch, counted below zero before it, and cut to 64 bits.
fn clock_timestamp(reading: Result<u128, u128>) -> (r: i64)
    ensures
        r == timestamp_of_reading(reading),
{
    match reading {
        Ok(since) => #[verifier::truncate]
        (since as i64),
        Err(before) => 0i64.wrapping_sub(#[verifier::truncate] (before as i64)),
    }
}

impl<'a> View for Point<'a> {
    type V = PointView;

    closed spec fn view(&self) -> PointView {
        PointView {
            key: self.key@,
            timestamp: self.timestamp,
            tags: entries_view(self.tags@),
            fields: entries_view(self.fields@),
        }
    }
}

impl<'a> Point<'a> {
    /// The invariant of a point: tags and fields each stand in the strict
    /// order of their keys, so that no key occurs twice.
    pub open spec fn wf(&self) -> bool {
        &&& sorted_by_key(self@.tags)
        &&& sorted_by_key(self@.fields)
    }

    /// Constructs a new `Point` without tags, fields or timestamp.
    pub fn new(key: &'a str) -> (r: Point<'a>)
        ensures
            r@ == (PointView { key: key@, timestamp: None, tags: seq![], fields: seq![] }),
            r.wf(),
    {
        let r = Point { key, timestamp: None, fields: Vec::new(), tags: Vec::new() };
        proof {
            assert(r@.tags =~= seq![]);
            assert(r@.fields =~= seq![]);
        }
        r
    }

    /// Adds field to the Point. A field that the point already has under
    /// this key is replaced.
    pub fn field(self, field: &str, value: Value<'a>) -> (r: Point<'a>)
        requires
            self.wf(),
        ensures
            r@ == (PointView { fields: upsert(self@.fields, field@, value@), ..self@ }),
            r.wf(),
    {
        proof {
            lemma_upsert_sorted(self@.fields, field@, value@);
        }
        let mut point = self;
        put(&mut point.fields, field.to_owned(), value);
        point
    }

    /// Adds tag to the Point. A tag that the point already has under this
    /// key is replaced.
    pub fn tag(self, tag: &str, value: &str) -> (r: Point<'a>)
        requires
            self.wf(),
        ensures
            r@ == (PointView { tags: upsert(self@.tags, tag@, value@), ..self@ }),
            r.wf(),
    {
        proof {
            lemma_upsert_sorted(self@.tags, tag@, value@);
        }
        let mut point = self;
        put(&mut point.tags, tag.to_owned(), value.to_owned());
        point
    }

    /// Sets the timestamp of the Point. It should be unix timestamp in nanosecond
    pub fn timestamp(self, timestamp: i64) -> (r: Point<'a>)
        ensures
            r@ == (PointView { timestamp: Some(timestamp), ..self@ }),
            self.wf() ==> r.wf(),
    {
        let mut point = self;
        point.timestamp = Some(timestamp);
        point
    }

    /// Sets the timestamp of the Point as the current unix timestamp in nanosecond
    pub fn now(self) -> (r: Point<'a>)
        ensures
            r@.timestamp is Some,
            r@ == (PointView { timestamp: r@.timestamp, ..self@ }),
            self.wf() ==> r.wf(),
    {
        self.timestamp(clock_timestamp(unix_nanos()))
    }

    /// The line of the line protocol that this point is written as.
    pub fn to_string(&self) -> (r: String)
        ensures
            r@ == line_text(self@),
    {
        let ghost tags = self@.tags;
        let ghost fields = self@.fields;
        let mut line = String::new();
        push_escaped(&mut line, self.key);
        proof {
            assert(line@ =~= escaped(self@.key) + tags_text(tags.take(0)));
        }
        let mut i: usize = 0;
        while i < self.tags.len()
            invariant
                i <= self.tags.len(),
                tags == entries_view(self.tags@),
                line@ == escaped(self@.key) + tags_text(tags.take(i as int)),
            decreases self.tags.len() - i,
        {
            proof {
                assert(tags.take(i + 1).drop_last() =~= tags.take(i as int));
            }
            line.push(',');
            push_escaped(&mut line, self.tags[i].0.as_str());
            line.push('=');
            push_escaped(&mut line, self.tags[i].1.as_str());
            proof {
                assert(line@ =~= escaped(self@.key) + tags_text(tags.take(i + 1)));
            }
            i += 1;
        }
        line.push(' ');
        proof {
            assert(tags.take(i as int) =~= tags);
            assert(line@ =~= escaped(self@.key) + tags_text(tags) + seq![' '] + fields_text(
                fields.take(0),
            ));
        }
        let mut j: usize = 0;
        while j < self.fields.len()
            invariant
                j <= self.fields.len(),
                fields == entries_view(self.fields@),
                line@ == escaped(self@.key) + tags_text(tags) + seq![' '] + fields_text(
                    fields.take(j as int),
                ),
            decreases self.fields.len() - j,
        {
            proof {
                assert(fields.take(j + 1).drop_last() =~= fields.take(j as int));
            }
            if j > 0 {
                line.push(',');
            }
            push_escaped(&mut line, self.fields[j].0.as_str());
            line.push('=');
            push_value(&mut line, &self.fields[j].1);
            proof {
                assert(line@ =~= escaped(self@.key) + tags_text(tags) + seq![' '] + fields_text(
                    fields.take(j + 1),
                ));
            }
            j += 1;
        }
        proof {
            assert(fields.take(j as int) =~= fields);
        }
        match self.timestamp {
            Some(t) => {
                line.push(' ');
                push_signed_decimal(&mut line, t);
            },
            None => {},
        }
        proof {
            assert(line@ =~= line_text(self@));
        }
        line
    }
}

} // verus!
