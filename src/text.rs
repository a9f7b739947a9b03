//! Character-level helpers: pushing characters, ordering keys, and the
//! context-dependent escaping used by the line protocol.

use vstd::prelude::*;
use vstd::std_specs::iter::IteratorSpec;
use vstd::string::StrSliceExecFns;

verus! {

/// The error type of `std::fmt`, carried through unchanged.
#[verifier::external_type_specification]
#[verifier::external_body]
pub struct ExFmtError(std::fmt::Error);

/// Relies on `String::push`: appends one character at the end.
#[verifier::external_body]
pub(crate) fn push_char(s: &mut String, c: char)
    ensures
        final(s)@ == old(s)@.push(c),
{
    s.push(c)
}

/// The characters of `s`, in order.
pub fn chars_of(s: &str) -> (r: Vec<char>)
    ensures
        r@ == s@,
{
    broadcast use vstd::string::group_string_axioms;
    let n = s.unicode_len();
    let mut out: Vec<char> = Vec::new();
    let mut it = s.chars();
    while out.len() < n
        invariant
            out@ + it.remaining() == s@,
            it.obeys_prophetic_iter_laws(),
            n == s@.len(),
        decreases n - out@.len(),
    {
        match it.next() {
            Some(c) => {
                out.push(c);
            },
            None => {},
        }
    }
    assert(out@ =~= s@);
    out
}

/// What one character becomes under the given escaping flags.
pub open spec fn escaped_char(
    c: char,
    equal: bool,
    commas: bool,
    spaces: bool,
    double_quotes: bool,
) -> Seq<char> {
    if c == '\n' {
        seq!['\\', 'n']
    } else if c == '\r' {
        seq!['\\', 'r']
    } else if c == '\t' {
        seq!['\\', 't']
    } else if (c == '=' && equal) || (c == ',' && commas) || (c == ' ' && spaces) || (c == '"'
        && double_quotes) {
        seq!['\\', c]
    } else {
        seq![c]
    }
}

/// Every character of `s` escaped in turn.
pub open spec fn escaped_body(
    s: Seq<char>,
    equal: bool,
    commas: bool,
    spaces: bool,
    double_quotes: bool,
) -> Seq<char>
    decreases s.len(),
{
    if s.len() == 0 {
        seq![]
    } else {
        escaped_body(s.drop_last(), equal, commas, spaces, double_quotes) + escaped_char(
            s.last(),
            equal,
            commas,
            spaces,
            double_quotes,
        )
    }
}

/// The escaped text, delimited by double quotes when `quoted` is set.
pub open spec fn escaped(
    s: Seq<char>,
    equal: bool,
    commas: bool,
    spaces: bool,
    double_quotes: bool,
    quoted: bool,
) -> Seq<char> {
    if quoted {
        seq!['"'] + escaped_body(s, equal, commas, spaces, double_quotes) + seq!['"']
    } else {
        escaped_body(s, equal, commas, spaces, double_quotes)
    }
}

/// Appends one character escaped under the given flags to `out`.
fn push_escaped_char(
    out: &mut String,
    c: char,
    equal: bool,
    commas: bool,
    spaces: bool,
    double_quotes: bool,
)
    ensures
        final(out)@ == old(out)@ + escaped_char(c, equal, commas, spaces, double_quotes),
{
    if c == '\n' {
        push_char(out, '\\');
        push_char(out, 'n');
    } else if c == '\r' {
        push_char(out, '\\');
        push_char(out, 'r');
    } else if c == '\t' {
        push_char(out, '\\');
        push_char(out, 't');
    } else if (c == '=' && equal) || (c == ',' && commas) || (c == ' ' && spaces) || (c == '"'
        && double_quotes) {
        push_char(out, '\\');
        push_char(out, c);
    } else {
        push_char(out, c);
    }
    assert(final(out)@ =~= old(out)@ + escaped_char(c, equal, commas, spaces, double_quotes));
}

/// Appends `value` escaped under the given flags to `out`.
pub fn push_escaped(
    out: &mut String,
    value: &str,
    equal: bool,
    commas: bool,
    spaces: bool,
    double_quotes: bool,
    str_escape: bool,
)
    ensures
        final(out)@ == old(out)@ + escaped(
            value@,
            equal,
            commas,
            spaces,
            double_quotes,
            str_escape,
        ),
{
    let chars = chars_of(value);
    let ghost start = out@;
    if str_escape {
        push_char(out, '"');
    }
    let ghost body_start = out@;
    let mut i: usize = 0;
    while i < chars.len()
        invariant
            0 <= i <= chars@.len(),
            chars@ == value@,
            out@ == body_start + escaped_body(
                value@.subrange(0, i as int),
                equal,
                commas,
                spaces,
                double_quotes,
            ),
        decreases chars@.len() - i,
    {
        let c = chars[i];
        push_escaped_char(out, c, equal, commas, spaces, double_quotes);
        proof {
            let p = value@.subrange(0, i + 1);
            assert(p.drop_last() =~= value@.subrange(0, i as int));
            assert(p.last() == c);
        }
        i = i + 1;
    }
    proof {
        assert(value@.subrange(0, i as int) =~= value@);
    }
    if str_escape {
        push_char(out, '"');
    }
    assert(out@ =~= old(out)@ + escaped(value@, equal, commas, spaces, double_quotes, str_escape));
}

/// Escapes `value` for the line protocol. Newline, carriage return and tab
/// always become backslash escapes; `=`, `,`, space and `"` are escaped
/// with a backslash when their flag is set; `str_escape` wraps the result
/// in double quotes. Writing into a `String` cannot fail, so the result is
/// always `Ok`.
pub fn escape(
    value: &str,
    equal: bool,
    commas: bool,
    spaces: bool,
    double_quotes: bool,
    str_escape: bool,
) -> (r: Result<String, std::fmt::Error>)
    ensures
        r matches Ok(s) && s@ == escaped(value@, equal, commas, spaces, double_quotes, str_escape),
{
    let mut res = String::new();
    push_escaped(&mut res, value, equal, commas, spaces, double_quotes, str_escape);
    Ok(res)
}

/// Lexicographic order of character sequences, by code point.
pub open spec fn seq_less(a: Seq<char>, b: Seq<char>) -> bool
    decreases a.len(),
{
    if a.len() == 0 {
        b.len() > 0
    } else if b.len() == 0 {
        false
    } else if a[0] != b[0] {
        a[0] < b[0]
    } else {
        seq_less(a.drop_first(), b.drop_first())
    }
}

pub proof fn lemma_less_irreflexive(a: Seq<char>)
    ensures
        !seq_less(a, a),
    decreases a.len(),
{
    if a.len() > 0 {
        lemma_less_irreflexive(a.drop_first());
    }
}

pub proof fn lemma_less_total(a: Seq<char>, b: Seq<char>)
    ensures
        a == b || seq_less(a, b) || seq_less(b, a),
    decreases a.len(),
{
    if a.len() > 0 && b.len() > 0 && a[0] == b[0] {
        lemma_less_total(a.drop_first(), b.drop_first());
        if a.drop_first() == b.drop_first() {
            assert(a =~= seq![a[0]] + a.drop_first());
            assert(b =~= seq![b[0]] + b.drop_first());
        }
    } else if a.len() == 0 && b.len() == 0 {
        assert(a =~= b);
    }
}

pub proof fn lemma_less_asymmetric(a: Seq<char>, b: Seq<char>)
    ensures
        !(seq_less(a, b) && seq_less(b, a)),
    decreases a.len(),
{
    if a.len() > 0 && b.len() > 0 && a[0] == b[0] {
        lemma_less_asymmetric(a.drop_first(), b.drop_first());
    }
}

pub proof fn lemma_less_transitive(a: Seq<char>, b: Seq<char>, c: Seq<char>)
    requires
        seq_less(a, b),
        seq_less(b, c),
    ensures
        seq_less(a, c),
    decreases a.len(),
{
    if a.len() > 0 && b.len() > 0 && c.len() > 0 && a[0] == b[0] && b[0] == c[0] {
        lemma_less_transitive(a.drop_first(), b.drop_first(), c.drop_first());
    }
}

/// Whether `a` orders strictly before `b`.
pub fn chars_less(a: &Vec<char>, b: &Vec<char>) -> (r: bool)
    ensures
        r == seq_less(a@, b@),
{
    let mut i: usize = 0;
    assert(a@.skip(0) =~= a@);
    assert(b@.skip(0) =~= b@);
    while i < a.len() && i < b.len() && a[i] == b[i]
        invariant
            i <= a@.len(),
            i <= b@.len(),
            seq_less(a@, b@) == seq_less(a@.skip(i as int), b@.skip(i as int)),
        decreases a@.len() - i,
    {
        proof {
            assert(a@.skip(i as int).drop_first() =~= a@.skip(i + 1));
            assert(b@.skip(i as int).drop_first() =~= b@.skip(i + 1));
        }
        i = i + 1;
    }
    if i == a.len() {
        i < b.len()
    } else if i == b.len() {
        false
    } else {
        a[i] < b[i]
    }
}

/// Newline, carriage return and tab always turn into a backslash and a
/// letter, whatever the flags, so none of them is left in escaped text.
pub proof fn lemma_escape_controls(
    s: Seq<char>,
    equal: bool,
    commas: bool,
    spaces: bool,
    double_quotes: bool,
)
    ensures
        escaped_char('\n', equal, commas, spaces, double_quotes) == seq!['\\', 'n'],
        escaped_char('\r', equal, commas, spaces, double_quotes) == seq!['\\', 'r'],
        escaped_char('\t', equal, commas, spaces, double_quotes) == seq!['\\', 't'],
        forall|i: int|
            0 <= i < escaped_body(s, equal, commas, spaces, double_quotes).len() ==> {
                let c = #[trigger] escaped_body(s, equal, commas, spaces, double_quotes)[i];
                c != '\n' && c != '\r' && c != '\t'
            },
    decreases s.len(),
{
    if s.len() > 0 {
        lemma_escape_controls(s.drop_last(), equal, commas, spaces, double_quotes);
        let a = escaped_body(s.drop_last(), equal, commas, spaces, double_quotes);
        let b = escaped_char(s.last(), equal, commas, spaces, double_quotes);
        assert forall|i: int| 0 <= i < (a + b).len() implies {
            let c = #[trigger] (a + b)[i];
            c != '\n' && c != '\r' && c != '\t'
        } by {
            if i >= a.len() {
                assert(b[i - a.len()] == (a + b)[i]);
            } else {
                assert(a[i] == (a + b)[i]);
            }
        }
    }
}

/// Unicode whitespace (the `White_Space` property), as `char::is_whitespace`
/// defines it.
pub open spec fn is_space(c: char) -> bool {
    ('\u{9}' <= c && c <= '\u{d}') || c == ' ' || c == '\u{85}' || c == '\u{a0}' || c
        == '\u{1680}' || ('\u{2000}' <= c && c <= '\u{200a}') || c == '\u{2028}' || c == '\u{2029}'
        || c == '\u{202f}' || c == '\u{205f}' || c == '\u{3000}'
}

/// Whether `c` is whitespace.
pub fn is_space_char(c: char) -> (r: bool)
    ensures
        r == is_space(c),
{
    ('\u{9}' <= c && c <= '\u{d}') || c == ' ' || c == '\u{85}' || c == '\u{a0}' || c
        == '\u{1680}' || ('\u{2000}' <= c && c <= '\u{200a}') || c == '\u{2028}' || c == '\u{2029}'
        || c == '\u{202f}' || c == '\u{205f}' || c == '\u{3000}'
}

/// `s` without its leading whitespace.
pub open spec fn trim_start(s: Seq<char>) -> Seq<char>
    decreases s.len(),
{
    if s.len() > 0 && is_space(s[0]) {
        trim_start(s.drop_first())
    } else {
        s
    }
}

/// `s` without its trailing whitespace.
pub open spec fn trim_end(s: Seq<char>) -> Seq<char>
    decreases s.len(),
{
    if s.len() > 0 && is_space(s.last()) {
        trim_end(s.drop_last())
    } else {
        s
    }
}

/// `s` without leading and trailing whitespace.
pub open spec fn trimmed(s: Seq<char>) -> Seq<char> {
    trim_end(trim_start(s))
}

/// Relies on `str::trim`: the text without leading and trailing whitespace,
/// whitespace being what `char::is_whitespace` accepts.
#[verifier::external_body]
pub(crate) fn trim_str(s: &str) -> (r: &str)
    ensures
        r@ == trimmed(s@),
{
    s.trim()
}

} // verus!
