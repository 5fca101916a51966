//! Sequences of characters and bytes: splitting at a separator, trimming
//! white space, and conversion between bytes and text.

use vstd::prelude::*;
use vstd::string::*;
use vstd::utf8::*;

verus! {

/// The line feed, as a character.
pub const LINE_FEED: char = '\n';

/// The line feed, as a byte.
pub const LINE_FEED_BYTE: u8 = 10;

/// The carriage return, as a byte.
pub const CARRIAGE_RETURN_BYTE: u8 = 13;

/// Whether `c` has the Unicode property `White_Space`.
pub open spec fn is_whitespace(c: char) -> bool {
    let u = c as u32;
    ||| 0x09 <= u <= 0x0D
    ||| u == 0x20
    ||| u == 0x85
    ||| u == 0xA0
    ||| u == 0x1680
    ||| 0x2000 <= u <= 0x200A
    ||| u == 0x2028
    ||| u == 0x2029
    ||| u == 0x202F
    ||| u == 0x205F
    ||| u == 0x3000
}

/// `s` without its leading white space.
pub open spec fn trim_start(s: Seq<char>) -> Seq<char>
    decreases s.len(),
{
    if s.len() > 0 && is_whitespace(s.first()) {
        trim_start(s.drop_first())
    } else {
        s
    }
}

/// `s` without its trailing white space.
pub open spec fn trim_end(s: Seq<char>) -> Seq<char>
    decreases s.len(),
{
    if s.len() > 0 && is_whitespace(s.last()) {
        trim_end(s.drop_last())
    } else {
        s
    }
}

/// `s` without the white space on either side.
pub open spec fn trim(s: Seq<char>) -> Seq<char> {
    trim_end(trim_start(s))
}

/// The index of the first `x` in `s`, or the length of `s` where it holds none.
pub open spec fn first_index_of<T>(s: Seq<T>, x: T) -> nat
    decreases s.len(),
{
    if s.len() == 0 || s.first() == x {
        0
    } else {
        1 + first_index_of(s.drop_first(), x)
    }
}

/// The pieces that the separator `sep` cuts `s` into, in order. There is one
/// more piece than there are separators in `s`, so there is always at least
/// one, and pieces may be empty.
pub open spec fn segments<T>(s: Seq<T>, sep: T) -> Seq<Seq<T>>
    decreases s.len(),
{
    let k = first_index_of(s, sep) as int;
    if k >= s.len() {
        seq![s]
    } else {
        seq![s.take(k)] + segments(s.skip(k + 1), sep)
    }
}

/// The views of the strings of `v`, in order.
pub open spec fn texts(v: Seq<String>) -> Seq<Seq<char>> {
    v.map_values(|s: String| s@)
}

/// `first_index_of` is at most the length, and nothing before it is `x`.
pub proof fn lemma_first_index_bounds<T>(s: Seq<T>, x: T)
    ensures
        first_index_of(s, x) <= s.len(),
        forall|i: int| 0 <= i < first_index_of(s, x) ==> s[i] != x,
        first_index_of(s, x) < s.len() ==> s[first_index_of(s, x) as int] == x,
    decreases s.len(),
{
    if s.len() == 0 || s.first() == x {
    } else {
        let rest = s.drop_first();
        lemma_first_index_bounds(rest, x);
        let f = first_index_of(s, x) as int;
        assert(f == first_index_of(rest, x) + 1);
        assert forall|i: int| 0 <= i < f implies s[i] != x by {
            if i > 0 {
                assert(s[i] == rest[i - 1]);
            }
        }
        if f < s.len() {
            assert(s[f] == rest[f - 1]);
        }
    }
}

/// A position that is the end of `s` or holds `x`, with no `x` before it, is
/// `first_index_of(s, x)`.
pub proof fn lemma_first_index_is<T>(s: Seq<T>, x: T, k: int)
    requires
        0 <= k <= s.len(),
        forall|i: int| 0 <= i < k ==> s[i] != x,
        k < s.len() ==> s[k] == x,
    ensures
        first_index_of(s, x) == k,
{
    lemma_first_index_bounds(s, x);
    let f = first_index_of(s, x) as int;
    if f < k {
        assert(s[f] != x);
    } else if k < f {
        assert(s[k] == x);
    }
}

/// Whether `c` is white space.
pub fn whitespace(c: char) -> (r: bool)
    ensures
        r == is_whitespace(c),
{
    let u: u32 = c as u32;
    (0x09 <= u && u <= 0x0D) || u == 0x20 || u == 0x85 || u == 0xA0 || u == 0x1680 || (0x2000 <= u
        && u <= 0x200A) || u == 0x2028 || u == 0x2029 || u == 0x202F || u == 0x205F || u == 0x3000
}

/// The characters of `s`, in order.
pub fn to_chars(s: &str) -> (r: Vec<char>)
    ensures
        r@ == s@,
{
    let mut out: Vec<char> = Vec::new();
    for c in it: s.chars()
        invariant
            it.seq() == s@,
            out@ == it.seq().take(it.index() as int),
    {
        out.push(c);
    }
    out
}

/// The bounds of what trimming leaves of `chars[from..to]`.
pub fn trim_range(chars: &Vec<char>, from: usize, to: usize) -> (r: (usize, usize))
    requires
        from <= to <= chars.len(),
    ensures
        from <= r.0 <= r.1 <= to,
        chars@.subrange(r.0 as int, r.1 as int) == trim(chars@.subrange(from as int, to as int)),
{
    let mut a: usize = from;
    while a < to && whitespace(chars[a])
        invariant
            from <= a <= to <= chars.len(),
            trim_start(chars@.subrange(from as int, to as int)) == trim_start(
                chars@.subrange(a as int, to as int),
            ),
        decreases to - a,
    {
        assert(chars@.subrange(a as int, to as int).drop_first() == chars@.subrange(
            a + 1,
            to as int,
        ));
        a += 1;
    }
    let mut b: usize = to;
    while b > a && whitespace(chars[b - 1])
        invariant
            a <= b <= to <= chars.len(),
            trim_end(chars@.subrange(a as int, to as int)) == trim_end(
                chars@.subrange(a as int, b as int),
            ),
        decreases b - a,
    {
        assert(chars@.subrange(a as int, b as int).drop_last() == chars@.subrange(
            a as int,
            b - 1,
        ));
        b -= 1;
    }
    (a, b)
}

/// What the bytes spell as UTF-8, or `None` where they are not valid UTF-8.
///
/// Trusted: this is `std::str::from_utf8`, which accepts exactly the
/// well-formed UTF-8 byte sequences and yields the text that they encode.
#[verifier::external_body]
pub(crate) fn decode_text(bytes: &[u8]) -> (r: Option<String>)
    ensures
        r is Some <==> valid_utf8(bytes@),
        r matches Some(s) ==> s@ == decode_utf8(bytes@),
{
    match std::str::from_utf8(bytes) {
        Ok(s) => Some(s.to_string()),
        Err(_) => None,
    }
}

} // verus!
