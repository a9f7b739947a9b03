//! Typed field values and measurements, encoded as line-protocol text.

use vstd::prelude::*;
use vstd::string::StringExecFns;
use crate::num::{Decimal, decimal_text, digits, push_decimal, push_digits, push_signed, signed_digits};
use crate::text::{trim_str, trimmed, chars_of, chars_less, escaped, escaped_body, escaped_char, lemma_less_asymmetric, lemma_less_irreflexive, lemma_less_total, lemma_less_transitive, push_char, push_escaped, seq_less};
use crate::time::DateTime;
use crate::kp_data::Entry;

verus! {

/// A field value of a measurement.
#[derive(Clone, Debug, PartialEq, Eq)]
pub enum Value {
    Float(Decimal),
    Double(Decimal),
    Signed(i128),
    Unsigned(u128),
    String(String),
    True,
    False,
}

/// Line-protocol text of a value.
pub open spec fn value_text(v: Value) -> Seq<char> {
    match v {
        Value::Float(d) => decimal_text(d.mantissa as int, d.scale as nat),
        Value::Double(d) => decimal_text(d.mantissa as int, d.scale as nat),
        Value::Signed(s) => signed_digits(s as int).push('i'),
        Value::Unsigned(u) => digits(u as nat).push('u'),
        Value::String(s) => escaped(s@, false, false, false, true, true),
        Value::True => seq!['t', 'r', 'u', 'e'],
        Value::False => seq!['f', 'a', 'l', 's', 'e'],
    }
}

impl Value {
    /// Decimal values keep a scale that their mantissa can carry.
    pub open spec fn wf(&self) -> bool {
        match self {
            Value::Float(d) => d.wf(),
            Value::Double(d) => d.wf(),
            _ => true,
        }
    }

    /// Appends the line-protocol text of the value.
    pub fn push_to(&self, out: &mut String)
        requires
            self.wf(),
        ensures
            final(out)@ == old(out)@ + value_text(*self),
    {
        match self {
            Value::Float(d) => push_decimal(out, *d),
            Value::Double(d) => push_decimal(out, *d),
            Value::Signed(s) => {
                push_signed(out, *s);
                push_char(out, 'i');
            },
            Value::Unsigned(u) => {
                push_digits(out, *u);
                push_char(out, 'u');
            },
            Value::String(s) => push_escaped(out, s.as_str(), false, false, false, true, true),
            Value::True => {
                push_char(out, 't');
                push_char(out, 'r');
                push_char(out, 'u');
                push_char(out, 'e');
            },
            Value::False => {
                push_char(out, 'f');
                push_char(out, 'a');
                push_char(out, 'l');
                push_char(out, 's');
                push_char(out, 'e');
            },
        }
        assert(final(out)@ =~= old(out)@ + value_text(*self));
    }

    /// The line-protocol text of the value.
    pub fn to_string(&self) -> (r: String)
        requires
            self.wf(),
        ensures
            r@ == value_text(*self),
    {
        let mut out = String::new();
        self.push_to(&mut out);
        out
    }
}

impl From<i8> for Value {
    fn from(v: i8) -> Value {
        Value::Signed(v as i128)
    }
}

impl vstd::std_specs::convert::FromSpecImpl<i8> for Value {
    open spec fn obeys_from_spec() -> bool {
        true
    }

    open spec fn from_spec(v: i8) -> Value {
        Value::Signed(v as i128)
    }
}

impl From<i16> for Value {
    fn from(v: i16) -> Value {
        Value::Signed(v as i128)
    }
}

impl vstd::std_specs::convert::FromSpecImpl<i16> for Value {
    open spec fn obeys_from_spec() -> bool {
        true
    }

    open spec fn from_spec(v: i16) -> Value {
        Value::Signed(v as i128)
    }
}

impl From<i32> for Value {
    fn from(v: i32) -> Value {
        Value::Signed(v as i128)
    }
}

impl vstd::std_specs::convert::FromSpecImpl<i32> for Value {
    open spec fn obeys_from_spec() -> bool {
        true
    }

    open spec fn from_spec(v: i32) -> Value {
        Value::Signed(v as i128)
    }
}

impl From<i64> for Value {
    fn from(v: i64) -> Value {
        Value::Signed(v as i128)
    }
}

impl vstd::std_specs::convert::FromSpecImpl<i64> for Value {
    open spec fn obeys_from_spec() -> bool {
        true
    }

    open spec fn from_spec(v: i64) -> Value {
        Value::Signed(v as i128)
    }
}

impl From<i128> for Value {
    fn from(v: i128) -> Value {
        Value::Signed(v as i128)
    }
}

impl vstd::std_specs::convert::FromSpecImpl<i128> for Value {
    open spec fn obeys_from_spec() -> bool {
        true
    }

    open spec fn from_spec(v: i128) -> Value {
        Value::Signed(v as i128)
    }
}

impl From<u8> for Value {
    fn from(v: u8) -> Value {
        Value::Unsigned(v as u128)
    }
}

impl vstd::std_specs::convert::FromSpecImpl<u8> for Value {
    open spec fn obeys_from_spec() -> bool {
        true
    }

    open spec fn from_spec(v: u8) -> Value {
        Value::Unsigned(v as u128)
    }
}

impl From<u16> for Value {
    fn from(v: u16) -> Value {
        Value::Unsigned(v as u128)
    }
}

impl vstd::std_specs::convert::FromSpecImpl<u16> for Value {
    open spec fn obeys_from_spec() -> bool {
        true
    }

    open spec fn from_spec(v: u16) -> Value {
        Value::Unsigned(v as u128)
    }
}

impl From<u32> for Value {
    fn from(v: u32) -> Value {
        Value::Unsigned(v as u128)
    }
}

impl vstd::std_specs::convert::FromSpecImpl<u32> for Value {
    open spec fn obeys_from_spec() -> bool {
        true
    }

    open spec fn from_spec(v: u32) -> Value {
        Value::Unsigned(v as u128)
    }
}

impl From<u64> for Value {
    fn from(v: u64) -> Value {
        Value::Unsigned(v as u128)
    }
}

impl vstd::std_specs::convert::FromSpecImpl<u64> for Value {
    open spec fn obeys_from_spec() -> bool {
        true
    }

    open spec fn from_spec(v: u64) -> Value {
        Value::Unsigned(v as u128)
    }
}

impl From<u128> for Value {
    fn from(v: u128) -> Value {
        Value::Unsigned(v as u128)
    }
}

impl vstd::std_specs::convert::FromSpecImpl<u128> for Value {
    open spec fn obeys_from_spec() -> bool {
        true
    }

    open spec fn from_spec(v: u128) -> Value {
        Value::Unsigned(v as u128)
    }
}

impl From<bool> for Value {
    fn from(v: bool) -> Value {
        if v {
            Value::True
        } else {
            Value::False
        }
    }
}

impl vstd::std_specs::convert::FromSpecImpl<bool> for Value {
    open spec fn obeys_from_spec() -> bool {
        true
    }

    open spec fn from_spec(v: bool) -> Value {
        if v {
            Value::True
        } else {
            Value::False
        }
    }
}

impl From<Decimal> for Value {
    fn from(v: Decimal) -> Value {
        Value::Float(v)
    }
}

impl vstd::std_specs::convert::FromSpecImpl<Decimal> for Value {
    open spec fn obeys_from_spec() -> bool {
        true
    }

    open spec fn from_spec(v: Decimal) -> Value {
        Value::Float(v)
    }
}

impl Value {
    /// A string value holding a copy of `v`.
    pub fn text(v: &str) -> (r: Value)
        ensures
            r matches Value::String(s) && s@ == v@,
    {
        Value::String(String::from_str(v))
    }
}

/// Precision of the timestamp at the end of a line; `Omitted` leaves it out.
#[derive(Clone, Copy, Debug, PartialEq, Eq, Structural)]
pub enum TimestampFormat {
    Omitted,
    Ms,
    S,
    Us,
    Ns,
}

/// A named point: tags ordered by key, fields in insertion order, and an
/// optional time.
#[derive(Debug)]
pub struct Measurement {
    name: String,
    event_time: Option<DateTime>,
    values: Vec<(String, Value)>,
    tags: Vec<(String, String)>,
}

/// Index of the field keyed `k`, or -1.
pub open spec fn key_index(fs: Seq<(Seq<char>, Value)>, k: Seq<char>) -> int
    decreases fs.len(),
{
    if fs.len() == 0 {
        -1
    } else if fs.last().0 == k {
        fs.len() - 1
    } else {
        key_index(fs.drop_last(), k)
    }
}

/// Fields after adding `(k, v)`: appended when `k` is new, put in place of
/// the old value when `replace` is set, else left as they were.
pub open spec fn field_insert(fs: Seq<(Seq<char>, Value)>, k: Seq<char>, v: Value, replace: bool) -> Seq<
    (Seq<char>, Value),
> {
    let i = key_index(fs, k);
    if i < 0 {
        fs.push((k, v))
    } else if replace {
        fs.update(i, (k, v))
    } else {
        fs
    }
}

/// Number of leading tags whose key orders before `k`.
pub open spec fn lower_bound(ts: Seq<(Seq<char>, Seq<char>)>, k: Seq<char>) -> int
    decreases ts.len(),
{
    if ts.len() == 0 {
        0
    } else if seq_less(ts[0].0, k) {
        1 + lower_bound(ts.drop_first(), k)
    } else {
        0
    }
}

/// Tags after adding `(k, v)`: inserted at its place in key order when `k`
/// is new, put in place of the old value when `replace` is set, else left
/// as they were.
pub open spec fn tag_insert(
    ts: Seq<(Seq<char>, Seq<char>)>,
    k: Seq<char>,
    v: Seq<char>,
    replace: bool,
) -> Seq<(Seq<char>, Seq<char>)> {
    let i = lower_bound(ts, k);
    if i < ts.len() && ts[i].0 == k {
        if replace {
            ts.update(i, (k, v))
        } else {
            ts
        }
    } else {
        ts.insert(i, (k, v))
    }
}

/// Keys strictly ascending.
pub open spec fn tags_sorted(ts: Seq<(Seq<char>, Seq<char>)>) -> bool {
    forall|i: int, j: int| 0 <= i < j < ts.len() ==> seq_less(#[trigger] ts[i].0, #[trigger] ts[j].0)
}

/// No key twice.
pub open spec fn keys_unique(fs: Seq<(Seq<char>, Value)>) -> bool {
    forall|i: int, j: int| 0 <= i < j < fs.len() ==> #[trigger] fs[i].0 != #[trigger] fs[j].0
}

pub open spec fn tag_text(t: (Seq<char>, Seq<char>)) -> Seq<char> {
    seq![','] + escaped(t.0, true, true, true, true, false) + seq!['='] + escaped(
        t.1,
        true,
        true,
        true,
        true,
        false,
    )
}

/// `,key=value` for each tag in turn.
pub open spec fn tags_text(ts: Seq<(Seq<char>, Seq<char>)>) -> Seq<char>
    decreases ts.len(),
{
    if ts.len() == 0 {
        seq![]
    } else {
        tags_text(ts.drop_last()) + tag_text(ts.last())
    }
}

pub open spec fn field_text(f: (Seq<char>, Value)) -> Seq<char> {
    escaped(f.0, true, true, true, true, false) + seq!['='] + value_text(f.1)
}

/// `key=value` for each field, separated by commas.
pub open spec fn fields_text(fs: Seq<(Seq<char>, Value)>) -> Seq<char>
    decreases fs.len(),
{
    if fs.len() == 0 {
        seq![]
    } else if fs.len() == 1 {
        field_text(fs[0])
    } else {
        fields_text(fs.drop_last()) + seq![','] + field_text(fs.last())
    }
}

/// Units of the chosen precision in one second.
pub open spec fn per_second(f: TimestampFormat) -> int {
    match f {
        TimestampFormat::Ms => 1000,
        TimestampFormat::Us => 1000000,
        TimestampFormat::Ns => 1000000000,
        _ => 1,
    }
}

/// ` timestamp` in the chosen precision, or nothing.
pub open spec fn time_text(t: Option<DateTime>, f: TimestampFormat) -> Seq<char> {
    match t {
        Some(dt) => if f == TimestampFormat::Omitted {
            seq![]
        } else {
            seq![' '] + signed_digits(dt.seconds_since_epoch() * per_second(f))
        },
        None => seq![],
    }
}

proof fn lemma_key_index_absent(fs: Seq<(Seq<char>, Value)>, k: Seq<char>)
    requires
        key_index(fs, k) < 0,
    ensures
        forall|j: int| 0 <= j < fs.len() ==> (#[trigger] fs[j]).0 != k,
    decreases fs.len(),
{
    if fs.len() > 0 {
        lemma_key_index_absent(fs.drop_last(), k);
        assert forall|j: int| 0 <= j < fs.len() implies (#[trigger] fs[j]).0 != k by {
            if j < fs.len() - 1 {
                assert(fs.drop_last()[j] == fs[j]);
            }
        }
    }
}

impl Measurement {
    pub closed spec fn name_view(&self) -> Seq<char> {
        self.name@
    }

    pub closed spec fn time_view(&self) -> Option<DateTime> {
        self.event_time
    }

    /// Fields in insertion order.
    pub closed spec fn fields(&self) -> Seq<(Seq<char>, Value)> {
        self.values@.map_values(|p: (String, Value)| (p.0@, p.1))
    }

    /// Tags in key order.
    pub closed spec fn tags(&self) -> Seq<(Seq<char>, Seq<char>)> {
        self.tags@.map_values(|p: (String, String)| (p.0@, p.1@))
    }

    pub open spec fn wf(&self) -> bool {
        &&& tags_sorted(self.tags())
        &&& keys_unique(self.fields())
        &&& forall|i: int| 0 <= i < self.fields().len() ==> (#[trigger] self.fields()[i]).1.wf()
        &&& self.time_view() matches Some(t) ==> t.wf()
    }

    /// The whole line: name, tags, a space, fields, then the timestamp.
    pub open spec fn line(&self, f: TimestampFormat) -> Seq<char> {
        escaped(self.name_view(), false, true, true, true, false) + tags_text(self.tags()) + seq![
            ' ',
        ] + fields_text(self.fields()) + time_text(self.time_view(), f)
    }

    /// A measurement named `name`, with no time, fields or tags.
    pub fn new(name: &str) -> (r: Measurement)
        ensures
            r.wf(),
            r.name_view() == name@,
            r.time_view() is None,
            r.fields().len() == 0,
            r.tags().len() == 0,
    {
        let r = Measurement {
            name: String::from_str(name),
            event_time: None,
            values: Vec::new(),
            tags: Vec::new(),
        };
        assert(r.fields() =~= seq![]);
        assert(r.tags() =~= seq![]);
        r
    }

    pub fn name(&self) -> (r: &String)
        ensures
            r@ == self.name_view(),
    {
        &self.name
    }

    /// Sets the time of the point.
    pub fn set_time(&mut self, time: DateTime)
        requires
            old(self).wf(),
            time.wf(),
        ensures
            final(self).wf(),
            final(self).time_view() == Some(time),
            final(self).name_view() == old(self).name_view(),
            final(self).fields() == old(self).fields(),
            final(self).tags() == old(self).tags(),
    {
        self.event_time = Some(time);
    }

    /// The point as one line of line protocol, without a line break.
    /// Writing into a `String` cannot fail, so the result is always `Ok`.
    pub fn to_line_protocol(&self, timestamp_format: TimestampFormat) -> (r: Result<
        String,
        std::fmt::Error,
    >)
        requires
            self.wf(),
        ensures
            r matches Ok(s) && s@ == self.line(timestamp_format),
    {
        let mut buf = String::new();
        push_escaped(&mut buf, self.name.as_str(), false, true, true, true, false);
        let ghost head = buf@;
        let ghost ts = self.tags();
        let mut i: usize = 0;
        assert(ts.take(0) =~= seq![]);
        while i < self.tags.len()
            invariant
                i <= self.tags@.len(),
                ts == self.tags(),
                buf@ == head + tags_text(ts.take(i as int)),
            decreases self.tags@.len() - i,
        {
            push_char(&mut buf, ',');
            push_escaped(&mut buf, self.tags[i].0.as_str(), true, true, true, true, false);
            push_char(&mut buf, '=');
            push_escaped(&mut buf, self.tags[i].1.as_str(), true, true, true, true, false);
            assert(ts.take(i + 1).drop_last() =~= ts.take(i as int));
            assert(ts.take(i + 1).last() == ts[i as int]);
            i = i + 1;
            assert(buf@ =~= head + tags_text(ts.take(i as int)));
        }
        assert(ts.take(i as int) =~= ts);
        push_char(&mut buf, ' ');
        let ghost mid = buf@;
        let ghost fs = self.fields();
        let mut j: usize = 0;
        assert(fs.take(0) =~= seq![]);
        while j < self.values.len()
            invariant
                j <= self.values@.len(),
                fs == self.fields(),
                self.wf(),
                buf@ == mid + fields_text(fs.take(j as int)),
            decreases self.values@.len() - j,
        {
            let ghost before = buf@;
            if j > 0 {
                push_char(&mut buf, ',');
            }
            push_escaped(&mut buf, self.values[j].0.as_str(), true, true, true, true, false);
            push_char(&mut buf, '=');
            assert(fs[j as int].1 == self.values[j as int].1);
            self.values[j].1.push_to(&mut buf);
            assert(fs.take(j + 1).drop_last() =~= fs.take(j as int));
            assert(fs.take(j + 1).last() == fs[j as int]);
            assert(j == 0 ==> fs.take(j + 1)[0] == fs[j as int]);
            j = j + 1;
            assert(buf@ =~= mid + fields_text(fs.take(j as int)));
        }
        assert(fs.take(j as int) =~= fs);
        let ghost tail = buf@;
        match self.event_time {
            Some(t) => {
                if timestamp_format != TimestampFormat::Omitted {
                    push_char(&mut buf, ' ');
                    let secs = t.timestamp() as i128;
                    let per: i128 = match timestamp_format {
                        TimestampFormat::Ms => 1000,
                        TimestampFormat::Us => 1000000,
                        TimestampFormat::Ns => 1000000000,
                        _ => 1,
                    };
                    push_signed(&mut buf, secs * per);
                }
            },
            None => {},
        }
        assert(buf@ =~= tail + time_text(self.time_view(), timestamp_format));
        Ok(buf)
    }

    /// The point as a line with a millisecond timestamp.
    pub fn to_string(&self) -> (r: String)
        requires
            self.wf(),
        ensures
            r@ == self.line(TimestampFormat::Ms),
    {
        match self.to_line_protocol(TimestampFormat::Ms) {
            Ok(s) => s,
            Err(_) => String::new(),
        }
    }

    /// Adds field `key` (trimmed) with `value`. A key already present keeps
    /// its place, and its value changes only when `replace` is set.
    pub fn add_value(&mut self, key: &str, value: Value, replace: bool)
        requires
            old(self).wf(),
            value.wf(),
        ensures
            final(self).wf(),
            final(self).fields() == field_insert(old(self).fields(), trimmed(key@), value, replace),
            final(self).name_view() == old(self).name_view(),
            final(self).time_view() == old(self).time_view(),
            final(self).tags() == old(self).tags(),
    {
        let k = String::from_str(trim_str(key));
        let ghost fs = self.fields();
        let mut i: usize = self.values.len();
        assert(fs.take(fs.len() as int) =~= fs);
        while i > 0 && !(self.values[i - 1].0 == k)
            invariant
                i <= self.values@.len(),
                fs == self.fields(),
                key_index(fs, k@) == key_index(fs.take(i as int), k@),
            decreases i,
        {
            assert(fs.take(i as int).drop_last() =~= fs.take(i - 1));
            i = i - 1;
        }
        if i > 0 {
            assert(fs.take(i as int).last() == fs[i - 1]);
            if replace {
                self.values.set(i - 1, (k, value));
                assert(self.fields() =~= fs.update(i - 1, (k@, value)));
                assert forall|a: int, b: int| 0 <= a < b < self.fields().len() implies #[trigger] self.fields()[a].0 != #[trigger] self.fields()[b].0 by {
                    assert(fs[a].0 != fs[b].0);
                }
            }
        } else {
            proof {
                lemma_key_index_absent(fs, k@);
            }
            self.values.push((k, value));
            assert(self.fields() =~= fs.push((k@, value)));
        }
    }

    /// Adds tag `key` (trimmed) with `value`, at its place in key order. A
    /// key already present keeps its value unless `replace` is set.
    pub fn add_tag(&mut self, key: &str, value: &str, replace: bool)
        requires
            old(self).wf(),
        ensures
            final(self).wf(),
            final(self).tags() == tag_insert(old(self).tags(), trimmed(key@), value@, replace),
            final(self).name_view() == old(self).name_view(),
            final(self).time_view() == old(self).time_view(),
            final(self).fields() == old(self).fields(),
    {
        let tk = trim_str(key);
        let kc = chars_of(tk);
        let k = String::from_str(tk);
        let ghost ts = self.tags();
        let mut i: usize = 0;
        assert(ts.skip(0) =~= ts);
        while i < self.tags.len() && chars_less(&chars_of(self.tags[i].0.as_str()), &kc)
            invariant
                i <= self.tags@.len(),
                ts == self.tags(),
                kc@ == k@,
                lower_bound(ts, k@) == i + lower_bound(ts.skip(i as int), k@),
                forall|j: int| 0 <= j < i ==> seq_less(#[trigger] ts[j].0, k@),
            decreases self.tags@.len() - i,
        {
            assert(ts.skip(i as int).drop_first() =~= ts.skip(i + 1));
            assert(ts.skip(i as int)[0] == ts[i as int]);
            i = i + 1;
        }
        assert(i < ts.len() ==> ts.skip(i as int)[0] == ts[i as int]);
        assert(lower_bound(ts, k@) == i);
        if i < self.tags.len() && self.tags[i].0 == k {
            if replace {
                self.tags.set(i, (k, String::from_str(value)));
                assert(self.tags() =~= ts.update(i as int, (k@, value@)));
            }
        } else {
            self.tags.insert(i, (k, String::from_str(value)));
            let ghost nt = ts.insert(i as int, (k@, value@));
            assert(self.tags() =~= nt);
            assert forall|a: int, b: int| 0 <= a < b < nt.len() implies seq_less(#[trigger] nt[a].0, #[trigger] nt[b].0) by {
                if i < ts.len() {
                    lemma_less_total(ts[i as int].0, k@);
                }
                if b < i {
                    assert(seq_less(ts[a].0, ts[b].0));
                } else if b == i {
                } else if a < i {
                    assert(seq_less(ts[a].0, ts[b - 1].0));
                } else if a == i {
                    if b - 1 > i {
                        lemma_less_transitive(k@, ts[i as int].0, ts[b - 1].0);
                    }
                } else {
                    assert(seq_less(ts[a - 1].0, ts[b - 1].0));
                }
            }
        }
    }
}

impl Measurement {
    /// The point for one feed entry: named `iono_activity`, with fields
    /// `kp` and `ap`, tag `def` holding the definitive flag, at the entry's
    /// time.
    pub fn from_entry(e: &Entry) -> (r: Measurement)
        requires
            e.wf(),
        ensures
            r.wf(),
            r.name_view() == "iono_activity"@,
            r.fields() == seq![("kp"@, Value::Float(e.kp)), ("ap"@, Value::Signed(e.ap as i128))],
            r.tags() == seq![("def"@, signed_digits(e.d as int))],
            r.time_view() == Some(e.date),
    {
        let mut def = String::new();
        push_signed(&mut def, e.d as i128);
        let mut values: Vec<(String, Value)> = Vec::new();
        values.push((String::from_str("kp"), Value::Float(e.kp)));
        values.push((String::from_str("ap"), Value::Signed(e.ap as i128)));
        let mut tags: Vec<(String, String)> = Vec::new();
        tags.push((String::from_str("def"), def));
        let r = Measurement {
            name: String::from_str("iono_activity"),
            event_time: Some(e.date),
            values,
            tags,
        };
        proof {
            reveal_strlit("kp");
            reveal_strlit("ap");
        }
        assert(r.fields() =~= seq![("kp"@, Value::Float(e.kp)), ("ap"@, Value::Signed(e.ap as i128))]);
        assert(r.tags() =~= seq![("def"@, signed_digits(e.d as int))]);
        assert("kp"@[0] == 'k' && "ap"@[0] == 'a');
        assert(r.fields()[0].0 != r.fields()[1].0);
        r
    }
}

/// Signed values end in `i`, unsigned ones in `u`, and booleans are exactly
/// `true` and `false`.
pub proof fn lemma_value_suffixes(v: Value)
    ensures
        v is Signed ==> value_text(v).last() == 'i',
        v is Unsigned ==> value_text(v).last() == 'u',
        v is True ==> value_text(v) == seq!['t', 'r', 'u', 'e'],
        v is False ==> value_text(v) == seq!['f', 'a', 'l', 's', 'e'],
{
}

/// A string value is wrapped in double quotes, and each double quote
/// inside it is written with a backslash in front.
pub proof fn lemma_string_value_quoted(s: String)
    ensures
        value_text(Value::String(s)) == seq!['"'] + escaped_body(s@, false, false, false, true)
            + seq!['"'],
        value_text(Value::String(s))[0] == '"',
        value_text(Value::String(s)).last() == '"',
        escaped_char('"', false, false, false, true) == seq!['\\', '"'],
{
}

/// Tags of a measurement always stand in ascending key order, whatever
/// order they were added in.
pub proof fn lemma_tags_ascending(m: Measurement)
    requires
        m.wf(),
    ensures
        forall|i: int, j: int|
            0 <= i < j < m.tags().len() ==> seq_less(#[trigger] m.tags()[i].0, #[trigger] m.tags()[j].0),
{
}

proof fn lemma_key_index_found(fs: Seq<(Seq<char>, Value)>, k: Seq<char>, j: int)
    requires
        0 <= j < fs.len(),
        fs[j].0 == k,
    ensures
        0 <= key_index(fs, k) < fs.len(),
        fs[key_index(fs, k)].0 == k,
    decreases fs.len(),
{
    if fs.last().0 != k {
        lemma_key_index_found(fs.drop_last(), k, j);
    }
}

proof fn lemma_lower_bound_found(ts: Seq<(Seq<char>, Seq<char>)>, k: Seq<char>, j: int)
    requires
        tags_sorted(ts),
        0 <= j < ts.len(),
        ts[j].0 == k,
    ensures
        lower_bound(ts, k) == j,
    decreases ts.len(),
{
    if j == 0 {
        lemma_less_irreflexive(k);
    } else {
        assert(seq_less(ts[0].0, ts[j].0));
        let rest = ts.drop_first();
        assert forall|a: int, b: int| 0 <= a < b < rest.len() implies seq_less(#[trigger] rest[a].0, #[trigger] rest[b].0) by {
            assert(seq_less(ts[a + 1].0, ts[b + 1].0));
        }
        lemma_lower_bound_found(rest, k, j - 1);
    }
}

/// Adding a field whose key is present changes nothing unless `replace` is
/// set; with `replace` the key then holds the new value.
pub proof fn lemma_field_insert_keeps_or_replaces(
    fs: Seq<(Seq<char>, Value)>,
    k: Seq<char>,
    v: Value,
    j: int,
)
    requires
        0 <= j < fs.len(),
        fs[j].0 == k,
    ensures
        field_insert(fs, k, v, false) == fs,
        field_insert(fs, k, v, true)[key_index(fs, k)] == (k, v),
        field_insert(fs, k, v, true).len() == fs.len(),
{
    lemma_key_index_found(fs, k, j);
}

/// Adding a new field appends it, whatever `replace` says.
pub proof fn lemma_field_insert_new(fs: Seq<(Seq<char>, Value)>, k: Seq<char>, v: Value, replace: bool)
    requires
        forall|i: int| 0 <= i < fs.len() ==> (#[trigger] fs[i]).0 != k,
    ensures
        field_insert(fs, k, v, replace) == fs.push((k, v)),
{
    if key_index(fs, k) >= 0 {
        lemma_key_index_bounds(fs, k);
    }
}

proof fn lemma_key_index_bounds(fs: Seq<(Seq<char>, Value)>, k: Seq<char>)
    ensures
        key_index(fs, k) >= 0 ==> key_index(fs, k) < fs.len() && fs[key_index(fs, k)].0 == k,
        key_index(fs, k) >= -1,
    decreases fs.len(),
{
    if fs.len() > 0 && fs.last().0 != k {
        lemma_key_index_bounds(fs.drop_last(), k);
    }
}

/// Adding a tag whose key is present changes nothing unless `replace` is
/// set; with `replace` the key then holds the new value, in the same place.
pub proof fn lemma_tag_insert_keeps_or_replaces(
    ts: Seq<(Seq<char>, Seq<char>)>,
    k: Seq<char>,
    v: Seq<char>,
    j: int,
)
    requires
        tags_sorted(ts),
        0 <= j < ts.len(),
        ts[j].0 == k,
    ensures
        tag_insert(ts, k, v, false) == ts,
        tag_insert(ts, k, v, true) == ts.update(j, (k, v)),
{
    lemma_lower_bound_found(ts, k, j);
}

proof fn lemma_lower_bound_props(ts: Seq<(Seq<char>, Seq<char>)>, k: Seq<char>)
    ensures
        0 <= lower_bound(ts, k) <= ts.len(),
        forall|j: int| 0 <= j < lower_bound(ts, k) ==> seq_less(#[trigger] ts[j].0, k),
        lower_bound(ts, k) < ts.len() ==> !seq_less(ts[lower_bound(ts, k)].0, k),
    decreases ts.len(),
{
    if ts.len() > 0 && seq_less(ts[0].0, k) {
        let rest = ts.drop_first();
        lemma_lower_bound_props(rest, k);
        assert forall|j: int| 0 <= j < lower_bound(ts, k) implies seq_less(#[trigger] ts[j].0, k) by {
            if j > 0 {
                assert(ts[j] == rest[j - 1]);
            }
        }
        if lower_bound(ts, k) < ts.len() {
            assert(ts[lower_bound(ts, k)] == rest[lower_bound(rest, k)]);
        }
    }
}

/// Adding a tag whose key is absent inserts it and keeps the key order.
proof fn lemma_tag_insert_absent(ts: Seq<(Seq<char>, Seq<char>)>, k: Seq<char>, v: Seq<char>, replace: bool)
    requires
        tags_sorted(ts),
        forall|i: int| 0 <= i < ts.len() ==> (#[trigger] ts[i]).0 != k,
    ensures
        tags_sorted(tag_insert(ts, k, v, replace)),
        forall|x: (Seq<char>, Seq<char>)|
            #[trigger] tag_insert(ts, k, v, replace).contains(x) <==> (ts.contains(x) || x == (k,
                v)),
{
    lemma_lower_bound_props(ts, k);
    let i = lower_bound(ts, k);
    let nt = ts.insert(i, (k, v));
    assert(tag_insert(ts, k, v, replace) == nt);
    if i < ts.len() {
        lemma_less_total(ts[i].0, k);
    }
    assert forall|a: int, b: int| 0 <= a < b < nt.len() implies seq_less(#[trigger] nt[a].0, #[trigger] nt[b].0) by {
        if b < i {
            assert(seq_less(ts[a].0, ts[b].0));
        } else if b == i {
        } else if a < i {
            assert(seq_less(ts[a].0, ts[b - 1].0));
        } else if a == i {
            if b - 1 > i {
                lemma_less_transitive(k, ts[i].0, ts[b - 1].0);
            }
        } else {
            assert(seq_less(ts[a - 1].0, ts[b - 1].0));
        }
    }
    assert forall|x: (Seq<char>, Seq<char>)| nt.contains(x) <==> (ts.contains(x) || x == (k, v)) by {
        if nt.contains(x) {
            let m = choose|m: int| 0 <= m < nt.len() && nt[m] == x;
            if m < i {
                assert(ts[m] == x);
            } else if m > i {
                assert(ts[m - 1] == x);
            }
        }
        if ts.contains(x) {
            let m = choose|m: int| 0 <= m < ts.len() && ts[m] == x;
            if m < i {
                assert(nt[m] == x);
            } else {
                assert(nt[m + 1] == x);
            }
        }
        if x == (k, v) {
            assert(nt[i] == x);
        }
    }
}

/// Two tag lists in strict key order that hold the same tags are equal.
proof fn lemma_sorted_tags_unique(a: Seq<(Seq<char>, Seq<char>)>, b: Seq<(Seq<char>, Seq<char>)>)
    requires
        tags_sorted(a),
        tags_sorted(b),
        forall|x: (Seq<char>, Seq<char>)| a.contains(x) <==> b.contains(x),
    ensures
        a == b,
    decreases a.len(),
{
    if a.len() == 0 {
        if b.len() > 0 {
            assert(b.contains(b[0]));
        }
        assert(a =~= b);
    } else {
        assert(a.contains(a[0]));
        assert(b.len() > 0);
        assert(b.contains(b[0]));
        let j = choose|j: int| 0 <= j < b.len() && b[j] == a[0];
        let i = choose|i: int| 0 <= i < a.len() && a[i] == b[0];
        if i > 0 && j > 0 {
            assert(seq_less(b[0].0, b[j].0));
            assert(seq_less(a[0].0, a[i].0));
            lemma_less_asymmetric(a[0].0, b[0].0);
        }
        assert(a[0] == b[0]);
        let ra = a.drop_first();
        let rb = b.drop_first();
        assert forall|x: (Seq<char>, Seq<char>)| ra.contains(x) <==> rb.contains(x) by {
            if ra.contains(x) {
                let m = choose|m: int| 0 <= m < ra.len() && ra[m] == x;
                assert(a[m + 1] == x);
                assert(seq_less(a[0].0, x.0));
                lemma_less_irreflexive(x.0);
                assert(b.contains(x));
                let n = choose|n: int| 0 <= n < b.len() && b[n] == x;
                assert(n != 0);
                assert(rb[n - 1] == x);
            }
            if rb.contains(x) {
                let m = choose|m: int| 0 <= m < rb.len() && rb[m] == x;
                assert(b[m + 1] == x);
                assert(seq_less(b[0].0, x.0));
                lemma_less_irreflexive(x.0);
                assert(a.contains(x));
                let n = choose|n: int| 0 <= n < a.len() && a[n] == x;
                assert(n != 0);
                assert(ra[n - 1] == x);
            }
        }
        assert forall|p: int, q: int| 0 <= p < q < ra.len() implies seq_less(#[trigger] ra[p].0, #[trigger] ra[q].0) by {
            assert(seq_less(a[p + 1].0, a[q + 1].0));
        }
        assert forall|p: int, q: int| 0 <= p < q < rb.len() implies seq_less(#[trigger] rb[p].0, #[trigger] rb[q].0) by {
            assert(seq_less(b[p + 1].0, b[q + 1].0));
        }
        lemma_sorted_tags_unique(ra, rb);
        assert(a =~= seq![a[0]] + ra);
        assert(b =~= seq![b[0]] + rb);
    }
}

/// Tags with different keys, none present yet, end up the same whichever
/// is added first.
pub proof fn lemma_tag_order_independent(
    ts: Seq<(Seq<char>, Seq<char>)>,
    k1: Seq<char>,
    v1: Seq<char>,
    r1: bool,
    k2: Seq<char>,
    v2: Seq<char>,
    r2: bool,
)
    requires
        tags_sorted(ts),
        k1 != k2,
        forall|i: int| 0 <= i < ts.len() ==> (#[trigger] ts[i]).0 != k1 && ts[i].0 != k2,
    ensures
        tag_insert(tag_insert(ts, k1, v1, r1), k2, v2, r2) == tag_insert(
            tag_insert(ts, k2, v2, r2),
            k1,
            v1,
            r1,
        ),
{
    let a = tag_insert(ts, k1, v1, r1);
    let b = tag_insert(ts, k2, v2, r2);
    lemma_tag_insert_absent(ts, k1, v1, r1);
    lemma_tag_insert_absent(ts, k2, v2, r2);
    assert forall|i: int| 0 <= i < a.len() implies (#[trigger] a[i]).0 != k2 by {
        assert(a.contains(a[i]));
        if ts.contains(a[i]) {
            let m = choose|m: int| 0 <= m < ts.len() && ts[m] == a[i];
            assert(ts[m].0 != k2);
        }
    }
    assert forall|i: int| 0 <= i < b.len() implies (#[trigger] b[i]).0 != k1 by {
        assert(b.contains(b[i]));
        if ts.contains(b[i]) {
            let m = choose|m: int| 0 <= m < ts.len() && ts[m] == b[i];
            assert(ts[m].0 != k1);
        }
    }
    lemma_tag_insert_absent(a, k2, v2, r2);
    lemma_tag_insert_absent(b, k1, v1, r1);
    let ab = tag_insert(a, k2, v2, r2);
    let ba = tag_insert(b, k1, v1, r1);
    assert forall|x: (Seq<char>, Seq<char>)| ab.contains(x) <==> ba.contains(x) by {
        assert(ab.contains(x) <==> (a.contains(x) || x == (k2, v2)));
        assert(a.contains(x) <==> (ts.contains(x) || x == (k1, v1)));
        assert(ba.contains(x) <==> (b.contains(x) || x == (k1, v1)));
        assert(b.contains(x) <==> (ts.contains(x) || x == (k2, v2)));
    }
    lemma_sorted_tags_unique(ab, ba);
}

} // verus!
