//! Records of the Kp and ap index feed: parsing a feed into a snapshot of
//! entries, and picking the entries that a newer snapshot adds.

use vstd::prelude::*;
use crate::num::{
    Decimal,
    decimal_syntax,
    decimal_value,
    int_syntax,
    int_value,
    parse_decimal,
    parse_int,
    pow10,
    pow10_exec,
    lemma_pow10_mono,
    lemma_pow10_38,
};
use crate::text::{chars_of, is_space, is_space_char};
use crate::time::{DateTime, valid_ymd};

verus! {

/// Pieces of `s` between line breaks, empty ones included.
pub open spec fn lines(s: Seq<char>) -> Seq<Seq<char>>
    decreases s.len(),
{
    if s.len() == 0 {
        seq![seq![]]
    } else {
        let p = lines(s.drop_last());
        if s.last() == '\n' {
            p.push(seq![])
        } else {
            p.update(p.len() - 1, p.last().push(s.last()))
        }
    }
}

/// Words of `s` found so far, and the word still being read.
pub open spec fn word_state(s: Seq<char>) -> (Seq<Seq<char>>, Seq<char>)
    decreases s.len(),
{
    if s.len() == 0 {
        (seq![], seq![])
    } else {
        let (w, cur) = word_state(s.drop_last());
        if !is_space(s.last()) {
            (w, cur.push(s.last()))
        } else if cur.len() > 0 {
            (w.push(cur), seq![])
        } else {
            (w, cur)
        }
    }
}

/// Maximal runs of non-space characters of `s`, in order.
pub open spec fn words(s: Seq<char>) -> Seq<Seq<char>> {
    let (w, cur) = word_state(s);
    if cur.len() > 0 {
        w.push(cur)
    } else {
        w
    }
}

/// The lines of `s`, each as its characters.
fn split_lines(s: &Vec<char>) -> (r: Vec<Vec<char>>)
    ensures
        r@.map_values(|l: Vec<char>| l@) == lines(s@),
{
    let mut done: Vec<Vec<char>> = Vec::new();
    let mut cur: Vec<char> = Vec::new();
    let mut i: usize = 0;
    assert(s@.take(0) =~= seq![]);
    assert(done@.map_values(|l: Vec<char>| l@).push(cur@) =~= lines(s@.take(0)));
    while i < s.len()
        invariant
            i <= s@.len(),
            done@.map_values(|l: Vec<char>| l@).push(cur@) == lines(s@.take(i as int)),
        decreases s@.len() - i,
    {
        let ghost prev = lines(s@.take(i as int));
        assert(s@.take(i + 1).drop_last() =~= s@.take(i as int));
        let c = s[i];
        if c == '\n' {
            let ghost old_done = done@;
            done.push(cur);
            cur = Vec::new();
            assert(done@.map_values(|l: Vec<char>| l@) =~= old_done.map_values(|l: Vec<char>| l@).push(prev.last()));
            assert(done@.map_values(|l: Vec<char>| l@).push(cur@) =~= prev.push(seq![]));
        } else {
            cur.push(c);
            assert(done@.map_values(|l: Vec<char>| l@).push(cur@) =~= prev.update(prev.len() - 1, prev.last().push(c)));
        }
        i = i + 1;
    }
    assert(s@.take(i as int) =~= s@);
    done.push(cur);
    done
}

/// The words of `s`, each as its characters.
fn split_words(s: &Vec<char>) -> (r: Vec<Vec<char>>)
    ensures
        r@.map_values(|w: Vec<char>| w@) == words(s@),
{
    let mut done: Vec<Vec<char>> = Vec::new();
    let mut cur: Vec<char> = Vec::new();
    let mut i: usize = 0;
    assert(s@.take(0) =~= seq![]);
    assert(done@.map_values(|w: Vec<char>| w@) =~= seq![]);
    while i < s.len()
        invariant
            i <= s@.len(),
            word_state(s@.take(i as int)) == (done@.map_values(|w: Vec<char>| w@), cur@),
        decreases s@.len() - i,
    {
        assert(s@.take(i + 1).drop_last() =~= s@.take(i as int));
        let c = s[i];
        let ghost old_done = done@;
        if !is_space_char(c) {
            cur.push(c);
        } else if cur.len() > 0 {
            done.push(cur);
            cur = Vec::new();
            assert(done@.map_values(|w: Vec<char>| w@) =~= old_done.map_values(|w: Vec<char>| w@).push(word_state(s@.take(i as int)).1));
        }
        i = i + 1;
    }
    assert(s@.take(i as int) =~= s@);
    if cur.len() > 0 {
        let ghost old_done = done@;
        done.push(cur);
        assert(done@.map_values(|w: Vec<char>| w@) =~= old_done.map_values(|w: Vec<char>| w@).push(word_state(s@).1));
    }
    done
}

/// Why a line or a feed could not be read.
#[derive(Clone, Copy, Debug, PartialEq, Eq, Structural)]
pub enum ParseError {
    /// The line does not have ten columns; holds the number it has.
    Columns(usize),
    /// The column at this position is not an integer of its type.
    ParseInt(usize),
    /// The column at this position is not a decimal number.
    ParseFloat(usize),
    /// The columns name no existing date and time of day.
    Date,
}

/// One record of the feed.
#[derive(Clone, Copy, Debug, PartialEq, Eq, Structural)]
pub struct Entry {
    /// Date and time read from the date columns and the fractional hour.
    pub date: DateTime,
    /// The Kp index.
    pub kp: Decimal,
    /// The ap index.
    pub ap: i8,
    /// 1 for a definitive value, 0 for a provisional one.
    pub d: i8,
}

impl Entry {
    pub open spec fn wf(&self) -> bool {
        self.date.wf() && self.kp.wf()
    }

    /// The feed marks a value that is not yet known with a negative number.
    pub open spec fn is_sentinel(&self) -> bool {
        self.kp.mantissa < 0 || self.ap < 0
    }
}

/// An integer of the column, within `lo..=hi`.
pub open spec fn int_in(s: Seq<char>, lo: int, hi: int) -> bool {
    int_syntax(s) && lo <= int_value(s) <= hi
}

/// An unsigned integer of the column, at most `hi`; a `-` sign is refused
/// even before zero.
pub open spec fn uint_in(s: Seq<char>, hi: int) -> bool {
    !(s.len() > 0 && s[0] == '-') && int_in(s, 0, hi)
}

/// Whole hours of a fractional hour.
pub open spec fn hour_of(h: Decimal) -> int {
    (h.mantissa as int) / (pow10(h.scale as nat) as int)
}

/// Whole minutes of the fraction of a fractional hour.
pub open spec fn minute_of(h: Decimal) -> int {
    ((h.mantissa as int) % (pow10(h.scale as nat) as int)) * 60 / (pow10(h.scale as nat) as int)
}

/// Whether the date columns and the fractional hour name a real instant.
pub open spec fn date_ok(t: Seq<Seq<char>>) -> bool {
    let h = decimal_value(t[4]);
    &&& h.mantissa >= 0
    &&& hour_of(h) < 24
    &&& valid_ymd(int_value(t[0]), int_value(t[1]), int_value(t[2]))
}

/// The entry that the ten columns `t` describe: year, month and day in
/// columns 0 to 2, the fractional hour in column 4,
/// Kp, ap and the definitive flag in columns 7 to 9.
pub open spec fn entry_from_words(t: Seq<Seq<char>>) -> Result<Entry, ParseError> {
    if t.len() != 10 {
        Err(ParseError::Columns(t.len() as usize))
    } else if !decimal_syntax(t[4]) {
        Err(ParseError::ParseFloat(4))
    } else if !int_in(t[0], i32::MIN as int, i32::MAX as int) {
        Err(ParseError::ParseInt(0))
    } else if !uint_in(t[1], u32::MAX as int) {
        Err(ParseError::ParseInt(1))
    } else if !uint_in(t[2], u32::MAX as int) {
        Err(ParseError::ParseInt(2))
    } else if !date_ok(t) {
        Err(ParseError::Date)
    } else if !decimal_syntax(t[7]) {
        Err(ParseError::ParseFloat(7))
    } else if !int_in(t[8], -128, 127) {
        Err(ParseError::ParseInt(8))
    } else if !int_in(t[9], -128, 127) {
        Err(ParseError::ParseInt(9))
    } else {
        let h = decimal_value(t[4]);
        Ok(
            Entry {
                date: DateTime {
                    year: int_value(t[0]) as i32,
                    month: int_value(t[1]) as u32,
                    day: int_value(t[2]) as u32,
                    hour: hour_of(h) as u32,
                    minute: minute_of(h) as u32,
                    second: 0,
                },
                kp: decimal_value(t[7]),
                ap: int_value(t[8]) as i8,
                d: int_value(t[9]) as i8,
            },
        )
    }
}

/// Reads the integer column `i` of `t`, within `lo..=hi`.
fn int_column(t: &Vec<Vec<char>>, i: usize, lo: i128, hi: i128) -> (r: Result<i128, ParseError>)
    requires
        i < t@.len(),
    ensures
        r is Ok <==> int_in(t@[i as int]@, lo as int, hi as int),
        r matches Ok(v) ==> v == int_value(t@[i as int]@),
        r matches Err(e) ==> e == ParseError::ParseInt(i),
{
    match parse_int(&t[i]) {
        Some(v) => {
            if lo <= v && v <= hi {
                Ok(v)
            } else {
                Err(ParseError::ParseInt(i))
            }
        },
        None => Err(ParseError::ParseInt(i)),
    }
}

/// Reads the unsigned 32-bit column `i` of `t`.
fn uint_column(t: &Vec<Vec<char>>, i: usize) -> (r: Result<i128, ParseError>)
    requires
        i < t@.len(),
    ensures
        r is Ok <==> uint_in(t@[i as int]@, u32::MAX as int),
        r matches Ok(v) ==> v == int_value(t@[i as int]@),
        r matches Err(e) ==> e == ParseError::ParseInt(i),
{
    if t[i].len() > 0 && t[i][0] == '-' {
        return Err(ParseError::ParseInt(i));
    }
    int_column(t, i, 0, u32::MAX as i128)
}

/// Reads the decimal column `i` of `t`.
fn decimal_column(t: &Vec<Vec<char>>, i: usize) -> (r: Result<Decimal, ParseError>)
    requires
        i < t@.len(),
    ensures
        r is Ok <==> decimal_syntax(t@[i as int]@),
        r matches Ok(v) ==> v == decimal_value(t@[i as int]@) && v.wf(),
        r matches Err(e) ==> e == ParseError::ParseFloat(i),
{
    match parse_decimal(&t[i]) {
        Some(v) => Ok(v),
        None => Err(ParseError::ParseFloat(i)),
    }
}

/// The entry that the columns `t` describe.
fn entry_from_columns(t: &Vec<Vec<char>>) -> (r: Result<Entry, ParseError>)
    ensures
        r == entry_from_words(t@.map_values(|w: Vec<char>| w@)),
        r matches Ok(e) ==> e.wf(),
{
    let ghost tv = t@.map_values(|w: Vec<char>| w@);
    if t.len() != 10 {
        return Err(ParseError::Columns(t.len()));
    }
    assert(forall|i: int| 0 <= i < 10 ==> tv[i] == #[trigger] t@[i]@);
    let h = match decimal_column(t, 4) {
        Ok(v) => v,
        Err(e) => return Err(e),
    };
    let year = match int_column(t, 0, i32::MIN as i128, i32::MAX as i128) {
        Ok(v) => v,
        Err(e) => return Err(e),
    };
    let month = match uint_column(t, 1) {
        Ok(v) => v,
        Err(e) => return Err(e),
    };
    let day = match uint_column(t, 2) {
        Ok(v) => v,
        Err(e) => return Err(e),
    };
    if h.mantissa < 0 {
        return Err(ParseError::Date);
    }
    proof {
        lemma_pow10_mono(h.scale as nat, 36);
        lemma_pow10_mono(0, h.scale as nat);
        lemma_pow10_38();
        assert(decimal_syntax(tv[4]));
    }
    let p = pow10_exec(h.scale);
    let m = h.mantissa as u128;
    let hour = m / p;
    let minute = (m % p) * 60 / p;
    proof {
        let r = (m % p) as int;
        let q = p as int;
        assert(r * 60 / q < 60) by (nonlinear_arith)
            requires
                0 <= r < q,
        ;
    }
    if hour >= 24 {
        return Err(ParseError::Date);
    }
    let date = match DateTime::new(year as i32, month as u32, day as u32, hour as u32, minute as u32, 0) {
        Some(dt) => dt,
        None => return Err(ParseError::Date),
    };
    let kp = match decimal_column(t, 7) {
        Ok(v) => v,
        Err(e) => return Err(e),
    };
    let ap = match int_column(t, 8, -128, 127) {
        Ok(v) => v,
        Err(e) => return Err(e),
    };
    let d = match int_column(t, 9, -128, 127) {
        Ok(v) => v,
        Err(e) => return Err(e),
    };
    Ok(Entry { date, kp, ap: ap as i8, d: d as i8 })
}

impl Entry {
    /// Reads one line of the feed: ten columns separated by spaces.
    pub fn parse(line: &str) -> (r: Result<Entry, ParseError>)
        ensures
            r == entry_from_words(words(line@)),
            r matches Ok(e) ==> e.wf(),
    {
        let cs = chars_of(line);
        let t = split_words(&cs);
        entry_from_columns(&t)
    }
}

/// A blank line, or one whose first non-space character is `#`.
pub open spec fn is_skipped(ws: Seq<Seq<char>>) -> bool {
    ws.len() == 0 || (ws[0].len() > 0 && ws[0][0] == '#')
}

/// Entries of the lines `ls`, in order: skipped lines and sentinel rows
/// left out, the first malformed line failing the whole.
pub open spec fn parse_lines(ls: Seq<Seq<char>>) -> Result<Seq<Entry>, ParseError>
    decreases ls.len(),
{
    if ls.len() == 0 {
        Ok(seq![])
    } else {
        match parse_lines(ls.drop_last()) {
            Err(e) => Err(e),
            Ok(es) => {
                let ws = words(ls.last());
                if is_skipped(ws) {
                    Ok(es)
                } else {
                    match entry_from_words(ws) {
                        Err(e) => Err(e),
                        Ok(e) => if e.is_sentinel() {
                            Ok(es)
                        } else {
                            Ok(es.push(e))
                        },
                    }
                }
            },
        }
    }
}

/// Position of the last definitive entry, or -1.
pub open spec fn last_final(es: Seq<Entry>) -> int
    decreases es.len(),
{
    if es.len() == 0 {
        -1
    } else if es.last().d == 1 {
        es.len() - 1
    } else {
        last_final(es.drop_last())
    }
}

/// Position of the first entry strictly after `w`, or the length.
pub open spec fn first_after(es: Seq<Entry>, w: DateTime) -> int
    decreases es.len(),
{
    if es.len() == 0 || es[0].date.after(&w) {
        0
    } else {
        1 + first_after(es.drop_first(), w)
    }
}

/// Entries of `cur` that `prev` does not hold yet: all of them when `prev`
/// is empty, else those from the first one after `prev`'s last date.
pub open spec fn new_entries(cur: Seq<Entry>, prev: Seq<Entry>) -> Seq<Entry> {
    if prev.len() == 0 {
        cur
    } else {
        cur.skip(first_after(cur, prev.last().date))
    }
}

/// The parsed content of a feed.
#[derive(Clone, Debug)]
pub struct KpFile {
    pub entries: Vec<Entry>,
    /// Position of the last definitive entry, if there is one.
    pub last_final_idx: Option<usize>,
}

impl KpFile {
    /// The entries, in feed order.
    pub open spec fn entries_view(&self) -> Seq<Entry> {
        self.entries@
    }

    pub open spec fn last_final_view(&self) -> int {
        match self.last_final_idx {
            Some(i) => i as int,
            None => -1,
        }
    }

    /// Entries are well formed, carry no sentinel, and the stored position
    /// is that of the last definitive one.
    pub open spec fn wf(&self) -> bool {
        &&& forall|i: int|
            0 <= i < self.entries_view().len() ==> (#[trigger] self.entries_view()[i]).wf()
                && !self.entries_view()[i].is_sentinel()
        &&& self.last_final_view() == last_final(self.entries_view())
    }

    /// A snapshot with no entries.
    pub fn new() -> (r: KpFile)
        ensures
            r.wf(),
            r.entries_view().len() == 0,
    {
        let r = KpFile { entries: Vec::new(), last_final_idx: None };
        assert(r.entries_view() =~= seq![]);
        r
    }

    /// Position of the last definitive entry, if there is one.
    pub fn last_final_idx(&self) -> (r: Option<usize>)
        ensures
            match r {
                Some(i) => i as int == self.last_final_view(),
                None => self.last_final_view() == -1,
            },
    {
        self.last_final_idx
    }

    /// Reads a whole feed. Blank lines and lines starting with `#` are
    /// skipped; rows with a negative Kp or ap are left out; any malformed
    /// line fails the whole.
    pub fn parse(text: &str) -> (r: Result<KpFile, ParseError>)
        ensures
            match parse_lines(lines(text@)) {
                Ok(es) => r matches Ok(f) && f.entries_view() == es && f.wf(),
                Err(e) => r == Err::<KpFile, ParseError>(e),
            },
    {
        let cs = chars_of(text);
        let ls = split_lines(&cs);
        let ghost lv = ls@.map_values(|l: Vec<char>| l@);
        let mut file = KpFile::new();
        let mut i: usize = 0;
        assert(file.entries@ =~= seq![]);
        assert(lv.take(0) =~= seq![]);
        while i < ls.len()
            invariant
                i <= ls@.len(),
                lv == ls@.map_values(|l: Vec<char>| l@),
                lv == lines(text@),
                lv.len() == ls@.len(),
                file.wf(),
                parse_lines(lv.take(i as int)) == Ok::<Seq<Entry>, ParseError>(file.entries@),
            decreases ls@.len() - i,
        {
            assert(lv.take(i + 1).drop_last() =~= lv.take(i as int));
            assert(lv.take(i + 1).last() == ls@[i as int]@);
            let ws = split_words(&ls[i]);
            let ghost wv = ws@.map_values(|w: Vec<char>| w@);
            let skipped = ws.len() == 0 || (ws[0].len() > 0 && ws[0][0] == '#');
            assert(ws.len() > 0 ==> wv[0] == ws@[0]@);
            if !skipped {
                match entry_from_columns(&ws) {
                    Ok(entry) => {
                        if !(entry.kp.is_negative() || entry.ap < 0) {
                            let ghost before = file.entries@;
                            if entry.d == 1 {
                                file.last_final_idx = Some(file.entries.len());
                            }
                            file.entries.push(entry);
                            assert(file.entries@.drop_last() =~= before);
                            assert forall|j: int| 0 <= j < file.entries_view().len() implies (#[trigger] file.entries_view()[j]).wf()
                                && !file.entries_view()[j].is_sentinel() by {
                                if j < before.len() {
                                    assert(file.entries_view()[j] == before[j]);
                                }
                            }
                        }
                    },
                    Err(e) => {
                        assert(parse_lines(lv.take(i + 1)) == Err::<Seq<Entry>, ParseError>(e));
                        proof {
                            lemma_parse_lines_err_sticks(lv, i as int + 1);
                        }
                        return Err(e);
                    },
                }
            }
            i = i + 1;
        }
        assert(lv.take(i as int) =~= lv);
        Ok(file)
    }

    /// The entries of `self` that `previous` does not hold yet: all of them
    /// when `previous` is empty, else those from the first one strictly
    /// after the last date of `previous`. Both are meant to be ascending.
    pub fn get_new_entries<'a>(&'a self, previous: &KpFile) -> (r: &'a [Entry])
        ensures
            r@ == new_entries(self.entries_view(), previous.entries_view()),
    {
        if previous.entries.len() == 0 {
            return self.entries.as_slice();
        }
        let w = previous.entries[previous.entries.len() - 1].date;
        let ghost es = self.entries@;
        let mut idx: usize = 0;
        assert(es.skip(0) =~= es);
        while idx < self.entries.len() && !self.entries[idx].date.is_after(&w)
            invariant
                idx <= es.len(),
                es == self.entries@,
                first_after(es, w) == idx + first_after(es.skip(idx as int), w),
            decreases es.len() - idx,
        {
            assert(es.skip(idx as int).drop_first() =~= es.skip(idx + 1));
            assert(es.skip(idx as int)[0] == es[idx as int]);
            idx = idx + 1;
        }
        assert(idx < es.len() ==> es.skip(idx as int)[0] == es[idx as int]);
        &self.entries.as_slice()[idx..self.entries.len()]
    }
}

proof fn lemma_parse_lines_err_sticks(ls: Seq<Seq<char>>, k: int)
    requires
        0 <= k <= ls.len(),
        parse_lines(ls.take(k)) is Err,
    ensures
        parse_lines(ls) == parse_lines(ls.take(k)),
    decreases ls.len() - k,
{
    if k < ls.len() {
        assert(ls.take(k + 1).drop_last() =~= ls.take(k));
        lemma_parse_lines_err_sticks(ls, k + 1);
    } else {
        assert(ls.take(k) =~= ls);
    }
}

impl std::str::FromStr for Entry {
    type Err = ParseError;

    fn from_str(line: &str) -> Result<Entry, ParseError> {
        Entry::parse(line)
    }
}

impl std::str::FromStr for KpFile {
    type Err = ParseError;

    fn from_str(text: &str) -> Result<KpFile, ParseError> {
        KpFile::parse(text)
    }
}

/// Dates never go backwards along `es`.
pub open spec fn ascending(es: Seq<Entry>) -> bool {
    forall|i: int, j: int| 0 <= i < j < es.len() ==> !(#[trigger] es[i]).date.after(&(#[trigger] es[j]).date)
}

/// Against an empty previous snapshot every entry is new, in order.
pub proof fn lemma_new_entries_from_empty(cur: Seq<Entry>, prev: Seq<Entry>)
    requires
        prev.len() == 0,
    ensures
        new_entries(cur, prev) == cur,
{
}

proof fn lemma_first_after_none(es: Seq<Entry>, w: DateTime)
    requires
        forall|i: int| 0 <= i < es.len() ==> !(#[trigger] es[i]).date.after(&w),
    ensures
        first_after(es, w) == es.len(),
    decreases es.len(),
{
    if es.len() > 0 {
        let rest = es.drop_first();
        assert forall|i: int| 0 <= i < rest.len() implies !(#[trigger] rest[i]).date.after(&w) by {
            assert(rest[i] == es[i + 1]);
        }
        lemma_first_after_none(rest, w);
    }
}

/// Against a previous snapshot that reaches as far as the current one (its
/// last date the same or later), nothing is new.
pub proof fn lemma_new_entries_when_caught_up(cur: Seq<Entry>, prev: Seq<Entry>)
    requires
        prev.len() > 0,
        ascending(cur),
        cur.len() > 0 ==> !cur.last().date.after(&prev.last().date),
    ensures
        new_entries(cur, prev).len() == 0,
{
    let w = prev.last().date;
    assert forall|i: int| 0 <= i < cur.len() implies !(#[trigger] cur[i]).date.after(&w) by {
        if i < cur.len() - 1 {
            assert(!cur[i].date.after(&cur[cur.len() - 1].date));
        }
    }
    lemma_first_after_none(cur, w);
}

/// What `last_final` points at: the last definitive entry, or -1 when there
/// is none.
pub proof fn lemma_last_final(es: Seq<Entry>)
    ensures
        -1 <= last_final(es) < es.len(),
        last_final(es) >= 0 ==> es[last_final(es)].d == 1,
        forall|j: int| last_final(es) < j < es.len() ==> (#[trigger] es[j]).d != 1,
    decreases es.len(),
{
    if es.len() > 0 && es.last().d != 1 {
        lemma_last_final(es.drop_last());
        assert forall|j: int| last_final(es) < j < es.len() implies (#[trigger] es[j]).d != 1 by {
            if j < es.len() - 1 {
                assert(es.drop_last()[j] == es[j]);
            }
        }
    }
}

/// A parsed feed holds no sentinel row.
pub proof fn lemma_parse_drops_sentinels(ls: Seq<Seq<char>>)
    ensures
        parse_lines(ls) matches Ok(es) ==> forall|i: int|
            0 <= i < es.len() ==> !(#[trigger] es[i]).is_sentinel(),
    decreases ls.len(),
{
    if ls.len() > 0 {
        lemma_parse_drops_sentinels(ls.drop_last());
        if let Ok(es) = parse_lines(ls) {
            if let Ok(prev) = parse_lines(ls.drop_last()) {
                assert forall|i: int| 0 <= i < es.len() implies !(#[trigger] es[i]).is_sentinel() by {
                    if i < prev.len() {
                        assert(es[i] == prev[i]);
                    }
                }
            }
        }
    }
}

/// Of a feed with sentinel and valid rows, the snapshot keeps only the valid
/// ones, and its last definitive position points at the latest row whose
/// flag is 1.
pub proof fn lemma_snapshot_rows(f: KpFile)
    requires
        f.wf(),
    ensures
        forall|i: int| 0 <= i < f.entries_view().len() ==> !(#[trigger] f.entries_view()[i]).is_sentinel(),
        f.last_final_view() >= 0 ==> f.entries_view()[f.last_final_view()].d == 1,
        forall|j: int| f.last_final_view() < j < f.entries_view().len() ==> (#[trigger] f.entries_view()[j]).d != 1,
{
    lemma_last_final(f.entries_view());
}

} // verus!
