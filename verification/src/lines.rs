//! Lines and their terminators.
use vstd::prelude::*;

verus! {

/// Line feed.
pub const LF: u8 = 10;

/// Carriage return.
pub const CR: u8 = 13;

/// What a parser made of the bytes it was given.
#[derive(Debug, PartialEq, Eq)]
pub enum Parse<'a, T> {
    /// It matched: the bytes it left, and what it read.
    Done(&'a [u8], T),
    /// The bytes end before the parser could decide.
    Incomplete,
    /// The bytes cannot be matched, whatever follows them.
    Error,
}

/// What a grammar says of a byte string.
pub enum Parsed<T> {
    /// The first `used` bytes match and stand for `out`.
    Done { used: int, out: T },
    /// The string ends before the grammar can decide.
    Incomplete,
    /// The string does not match, whatever follows it.
    Error,
}

impl<'a, T: View> Parse<'a, T> {
    /// This result is what `decision`, the word of a grammar on `input`, asks
    /// for.
    pub open spec fn is_result(self, input: Seq<u8>, decision: Parsed<T::V>) -> bool {
        match decision {
            Parsed::Done { used, out } => {
                &&& 0 <= used <= input.len()
                &&& self matches Parse::Done(rest, o)
                &&& rest@ == input.skip(used)
                &&& o@ == out
            },
            Parsed::Incomplete => self is Incomplete,
            Parsed::Error => self is Error,
        }
    }
}

/// The byte is part of a line terminator.
pub open spec fn is_eol(b: u8) -> bool {
    b == LF || b == CR
}

/// The number of bytes before the first line feed or carriage return of
/// `s`, or the length of `s` where it has neither.
pub open spec fn line_len(s: Seq<u8>) -> nat
    decreases s.len(),
{
    if s.len() == 0 || is_eol(s[0]) {
        0
    } else {
        1 + line_len(s.skip(1))
    }
}

/// The content of a line: the bytes up to a line terminator, which must be
/// a line feed or a carriage return with a line feed. The terminator is
/// left. Where no terminator is in sight, the whole string is content.
pub open spec fn spec_not_line_ending(s: Seq<u8>) -> Parsed<Seq<u8>> {
    let n = line_len(s) as int;
    if n < s.len() && s[n] == CR {
        if n + 1 == s.len() {
            Parsed::Incomplete
        } else if s[n + 1] == LF {
            Parsed::Done { used: n, out: s.take(n) }
        } else {
            Parsed::Error
        }
    } else {
        Parsed::Done { used: n, out: s.take(n) }
    }
}

/// A line terminator: a line feed, or a carriage return and a line feed.
pub open spec fn spec_line_ending(s: Seq<u8>) -> Parsed<Seq<u8>> {
    if s.len() == 0 {
        Parsed::Incomplete
    } else if s[0] == LF {
        Parsed::Done { used: 1, out: s.take(1) }
    } else if s[0] != CR {
        Parsed::Error
    } else if s.len() == 1 {
        Parsed::Incomplete
    } else if s[1] == LF {
        Parsed::Done { used: 2, out: s.take(2) }
    } else {
        Parsed::Error
    }
}

/// A whole line: its content, then its terminator.
pub open spec fn spec_line(s: Seq<u8>) -> Parsed<Seq<u8>> {
    match spec_not_line_ending(s) {
        Parsed::Done { used, out } => match spec_line_ending(s.skip(used)) {
            Parsed::Done { used: ending, .. } => Parsed::Done { used: used + ending, out },
            Parsed::Incomplete => Parsed::Incomplete,
            Parsed::Error => Parsed::Error,
        },
        Parsed::Incomplete => Parsed::Incomplete,
        Parsed::Error => Parsed::Error,
    }
}

/// `nom::not_line_ending` on a byte slice: it looks for the first line feed
/// or carriage return. Without one it matches the whole input. At a line
/// feed, or a carriage return followed by a line feed, it matches what
/// comes before. At a carriage return that ends the input it is incomplete,
/// and at one followed by another byte it fails.
#[verifier::external_body]
pub(crate) fn not_line_ending<'a>(input: &'a [u8]) -> (r: Parse<'a, &'a [u8]>)
    ensures
        r.is_result(input@, spec_not_line_ending(input@)),
{
    match nom::not_line_ending(input) {
        nom::IResult::Done(rest, content) => Parse::Done(rest, content),
        nom::IResult::Incomplete(_) => Parse::Incomplete,
        nom::IResult::Error(_) => Parse::Error,
    }
}

/// `nom::line_ending` on a byte slice: it matches a leading line feed, or a
/// leading carriage return and line feed. It is incomplete on empty input
/// and on a lone carriage return, and fails on anything else.
#[verifier::external_body]
pub(crate) fn line_ending<'a>(input: &'a [u8]) -> (r: Parse<'a, &'a [u8]>)
    ensures
        r.is_result(input@, spec_line_ending(input@)),
{
    match nom::line_ending(input) {
        nom::IResult::Done(rest, ending) => Parse::Done(rest, ending),
        nom::IResult::Incomplete(_) => Parse::Incomplete,
        nom::IResult::Error(_) => Parse::Error,
    }
}

/// Reads one line: its content, then its terminator.
pub fn read_line<'a>(input: &'a [u8]) -> (r: Parse<'a, &'a [u8]>)
    ensures
        r.is_result(input@, spec_line(input@)),
{
    match not_line_ending(input) {
        Parse::Done(rest, content) => match line_ending(rest) {
            Parse::Done(after, _) => {
                proof {
                    let used = spec_not_line_ending(input@)->used;
                    let ending = spec_line_ending(input@.skip(used))->used;
                    assert(input@.skip(used).skip(ending) =~= input@.skip(used + ending));
                }
                Parse::Done(after, content)
            },
            Parse::Incomplete => Parse::Incomplete,
            Parse::Error => Parse::Error,
        },
        Parse::Incomplete => Parse::Incomplete,
        Parse::Error => Parse::Error,
    }
}

/// No byte of `s` is part of a line terminator.
pub open spec fn is_plain(s: Seq<u8>) -> bool {
    forall|i: int| 0 <= i < s.len() ==> !is_eol(#[trigger] s[i])
}

/// `line_len(s)` is the index of the first terminator byte of `s`, or its
/// length.
pub proof fn lemma_line_len(s: Seq<u8>)
    ensures
        line_len(s) <= s.len(),
        is_plain(s.take(line_len(s) as int)),
        line_len(s) < s.len() ==> is_eol(s[line_len(s) as int]),
    decreases s.len(),
{
    if s.len() != 0 && !is_eol(s[0]) {
        let rest = s.skip(1);
        lemma_line_len(rest);
        let n = line_len(s) as int;
        assert forall|i: int| 0 <= i < n implies !is_eol(#[trigger] s.take(n)[i]) by {
            if i > 0 {
                assert(s.take(n)[i] == rest.take(n - 1)[i - 1]);
            }
        }
    }
}

/// An index with no terminator byte before it, which is the length of `s`
/// or the place of a terminator byte, is `line_len(s)`.
pub proof fn lemma_line_len_is(s: Seq<u8>, n: int)
    requires
        0 <= n <= s.len(),
        is_plain(s.take(n)),
        n < s.len() ==> is_eol(s[n]),
    ensures
        line_len(s) == n,
    decreases s.len(),
{
    if n == 0 {
    } else {
        assert(s[0] == s.take(n)[0]);
        let rest = s.skip(1);
        assert forall|i: int| 0 <= i < n - 1 implies !is_eol(#[trigger] rest.take(n - 1)[i]) by {
            assert(rest.take(n - 1)[i] == s.take(n)[i + 1]);
        }
        lemma_line_len_is(rest, n - 1);
    }
}

/// A line that is matched ends within the string, and its content holds no
/// terminator byte.
pub proof fn lemma_line_done(s: Seq<u8>)
    requires
        spec_line(s) is Done,
    ensures
        ({
            let n = line_len(s) as int;
            &&& spec_line(s)->out == s.take(n)
            &&& is_plain(s.take(n))
            &&& n < spec_line(s)->used <= s.len()
            &&& spec_line(s)->used <= n + 2
        }),
{
    lemma_line_len(s);
}

/// What the grammar of a line terminator decides on a string, it decides
/// on every string that begins with it.
pub proof fn lemma_line_ending_extends(s: Seq<u8>, t: Seq<u8>)
    requires
        s.is_prefix_of(t),
        !(spec_line_ending(s) is Incomplete),
    ensures
        spec_line_ending(t) == spec_line_ending(s),
{
    if spec_line_ending(s) is Done {
        let used = spec_line_ending(s)->used;
        assert(s.take(used) =~= t.take(used));
    }
}

/// A line terminator matched in a string is matched alike in each of its
/// prefixes that holds the terminator.
pub proof fn lemma_line_ending_local(s: Seq<u8>, t: Seq<u8>)
    requires
        s.is_prefix_of(t),
        spec_line_ending(t) is Done,
        spec_line_ending(t)->used <= s.len(),
    ensures
        spec_line_ending(s) == spec_line_ending(t),
{
    let used = spec_line_ending(t)->used;
    assert(s.take(used) =~= t.take(used));
}

/// What the grammar of a line decides on a string, it decides on every
/// string that begins with it.
pub proof fn lemma_line_extends(s: Seq<u8>, t: Seq<u8>)
    requires
        s.is_prefix_of(t),
        !(spec_line(s) is Incomplete),
    ensures
        spec_line(t) == spec_line(s),
{
    lemma_line_len(s);
    let n = line_len(s) as int;
    assert(s.take(n) =~= t.take(n));
    lemma_line_len_is(t, n);
    if spec_not_line_ending(s) is Done {
        lemma_line_ending_extends(s.skip(n), t.skip(n));
    }
}

/// A line matched in a string is matched alike in each of its prefixes
/// that holds the whole line.
pub proof fn lemma_line_local(s: Seq<u8>, t: Seq<u8>)
    requires
        s.is_prefix_of(t),
        spec_line(t) is Done,
        spec_line(t)->used <= s.len(),
    ensures
        spec_line(s) == spec_line(t),
{
    lemma_line_len(t);
    let n = line_len(t) as int;
    assert(s.take(n) =~= t.take(n));
    lemma_line_len_is(s, n);
    lemma_line_ending_local(s.skip(n), t.skip(n));
}

/// The bytes of a line terminator: a line feed, after a carriage return
/// where `crlf` says so.
pub open spec fn eol(crlf: bool) -> Seq<u8> {
    if crlf {
        seq![CR, LF]
    } else {
        seq![LF]
    }
}

/// A string that begins with plain content and a line terminator has that
/// content as its first line.
pub proof fn lemma_line_of(content: Seq<u8>, crlf: bool, tail: Seq<u8>)
    requires
        is_plain(content),
    ensures
        spec_line(content + eol(crlf) + tail) == (Parsed::Done {
            used: (content + eol(crlf)).len() as int,
            out: content,
        }),
{
    let s = content + eol(crlf) + tail;
    let n = content.len() as int;
    assert(s.take(n) =~= content);
    lemma_line_len_is(s, n);
}

} // verus!
