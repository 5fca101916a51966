//! One probe of one target: the script that is fed to the probing tool, and
//! the reading of what the tool printed.
//!
//! A line of the tool's output is a hit where it holds the word `success` in
//! any mix of upper and lower case. What such a line reports is what follows
//! the last such word on it, without the white space around it.

use crate::text::{decode_text, segments, texts, to_chars, trim, trim_range};
use crate::text::{lemma_first_index_is, LINE_FEED};
use vstd::prelude::*;
use vstd::string::*;
use vstd::utf8::*;

verus! {

/// The number of letters of the word that marks a hit.
pub const KEYWORD_LEN: usize = 7;

/// The word that marks a hit, in lower case.
pub open spec fn keyword() -> Seq<char> {
    seq!['s', 'u', 'c', 'c', 'e', 's', 's']
}

/// Whether `c` is the lower-case ASCII letter `letter` or its capital.
pub open spec fn is_letter(c: char, letter: char) -> bool {
    c == letter || c as u32 + 32 == letter as u32
}

/// Whether `word` is the keyword in some mix of upper and lower case.
pub open spec fn spells_keyword(word: Seq<char>) -> bool {
    &&& word.len() == KEYWORD_LEN
    &&& forall|i: int| 0 <= i < KEYWORD_LEN ==> is_letter(#[trigger] word[i], keyword()[i])
}

/// Whether the keyword stands in `line` at position `p`.
pub open spec fn matches_at(line: Seq<char>, p: int) -> bool {
    0 <= p <= line.len() - KEYWORD_LEN && spells_keyword(line.subrange(p, p + KEYWORD_LEN))
}

/// Whether `line` is a hit.
pub open spec fn is_hit(line: Seq<char>) -> bool {
    exists|p: int| matches_at(line, p)
}

/// Whether the last keyword of `line` stands at `p`.
pub open spec fn is_last_match(line: Seq<char>, p: int) -> bool {
    matches_at(line, p) && forall|q: int| matches_at(line, q) ==> q <= p
}

/// Where the last keyword of a hit stands.
pub open spec fn last_match(line: Seq<char>) -> int {
    choose|p: int| is_last_match(line, p)
}

/// What a hit reports.
pub open spec fn description(line: Seq<char>) -> Seq<char> {
    trim(line.skip(last_match(line) + KEYWORD_LEN))
}

/// What `line` reports if it is a hit.
pub open spec fn hit_description(line: Seq<char>) -> Option<Seq<char>> {
    if is_hit(line) {
        Some(description(line))
    } else {
        None
    }
}

/// What the hits among the lines of `text` report, in the order of the lines.
pub open spec fn descriptions(text: Seq<char>) -> Seq<Seq<char>> {
    segments(text, LINE_FEED).filter_map(|line: Seq<char>| hit_description(line))
}

/// The script up to the target.
pub open spec fn script_head() -> Seq<char> {
    "use scanners/autopwn\nset target "@
}

/// The script after the target.
pub open spec fn script_tail() -> Seq<char> {
    "\nrun\nexit\n"@
}

/// Why a probe gave no outcome.
#[derive(Clone, Copy, Debug, PartialEq, Eq, Structural)]
pub enum ProbeError {
    /// The probing tool could not be started.
    Launch,
    /// What the tool printed is not text.
    NotText,
}

impl ProbeError {
    /// What the error says.
    pub open spec fn text(self) -> Seq<char> {
        match self {
            ProbeError::Launch => "the probing tool could not be started"@,
            ProbeError::NotText => "the output of the probing tool is not valid UTF-8"@,
        }
    }

    /// The error in words.
    pub fn message(&self) -> (r: String)
        ensures
            r@ == self.text(),
    {
        match self {
            ProbeError::Launch => String::from_str("the probing tool could not be started"),
            ProbeError::NotText => String::from_str(
                "the output of the probing tool is not valid UTF-8",
            ),
        }
    }
}

/// What one probe came to: what its hits report, in order, or why there is
/// nothing to read. No hit at all is an outcome, not an error.
pub type ProbeOutcome = Result<Vec<String>, ProbeError>;

/// Where the last keyword of one line stands is determined by the line.
pub proof fn lemma_last_match_unique(line: Seq<char>, p: int)
    requires
        is_last_match(line, p),
    ensures
        is_hit(line),
        last_match(line) == p,
{
    let q = last_match(line);
    assert(is_last_match(line, q));
}

/// Reading the same text twice gives the same descriptions: whatever two
/// readings return, if each is what `extract_successes` promises of the text,
/// they are equal.
pub proof fn lemma_reading_is_a_function(
    text: Seq<char>,
    first: Seq<Seq<char>>,
    second: Seq<Seq<char>>,
)
    requires
        first == descriptions(text),
        second == descriptions(text),
    ensures
        first == second,
{
}

/// The four lines that make the probing tool scan `target` with its autopwn
/// scanner and leave: select the scanner, set the target, run, exit.
pub fn probe_script(target: &str) -> (r: String)
    ensures
        r@ == script_head() + target@ + script_tail(),
{
    let mut script = String::from_str("use scanners/autopwn\nset target ");
    script.append(target);
    script.append("\nrun\nexit\n");
    script
}

/// Whether `c` is the lower-case ASCII letter `letter` or its capital.
fn same_letter(c: char, letter: char) -> (r: bool)
    ensures
        r == is_letter(c, letter),
{
    c == letter || (c as u32) + 32 == (letter as u32)
}

/// Whether the keyword stands in `chars` at `p`.
fn keyword_at(chars: &Vec<char>, p: usize) -> (r: bool)
    requires
        p + KEYWORD_LEN <= chars.len(),
    ensures
        r == spells_keyword(chars@.subrange(p as int, p + KEYWORD_LEN)),
{
    let ghost word = chars@.subrange(p as int, p + KEYWORD_LEN);
    assert(forall|i: int| 0 <= i < KEYWORD_LEN ==> word[i] == chars@[p + i]);
    let r = same_letter(chars[p], 's') && same_letter(chars[p + 1], 'u') && same_letter(
        chars[p + 2],
        'c',
    ) && same_letter(chars[p + 3], 'c') && same_letter(chars[p + 4], 'e') && same_letter(
        chars[p + 5],
        's',
    ) && same_letter(chars[p + 6], 's');
    proof {
        if r {
            assert forall|i: int| 0 <= i < KEYWORD_LEN implies is_letter(
                #[trigger] word[i],
                keyword()[i],
            ) by {
                if i == 0 {
                } else if i == 1 {
                } else if i == 2 {
                } else if i == 3 {
                } else if i == 4 {
                } else if i == 5 {
                } else {
                }
            }
        } else {
            assert(is_letter(word[0], keyword()[0]) ==> is_letter(chars@[p + 0], 's'));
            assert(is_letter(word[1], keyword()[1]) ==> is_letter(chars@[p + 1], 'u'));
            assert(is_letter(word[2], keyword()[2]) ==> is_letter(chars@[p + 2], 'c'));
            assert(is_letter(word[3], keyword()[3]) ==> is_letter(chars@[p + 3], 'c'));
            assert(is_letter(word[4], keyword()[4]) ==> is_letter(chars@[p + 4], 'e'));
            assert(is_letter(word[5], keyword()[5]) ==> is_letter(chars@[p + 5], 's'));
            assert(is_letter(word[6], keyword()[6]) ==> is_letter(chars@[p + 6], 's'));
        }
    }
    r
}

/// Where the last keyword of the line `chars[start..end]` stands, if the line
/// is a hit.
fn find_last_match(chars: &Vec<char>, start: usize, end: usize) -> (r: Option<usize>)
    requires
        start <= end <= chars.len(),
    ensures
        match r {
            Some(p) => start <= p && p + KEYWORD_LEN <= end && is_last_match(
                chars@.subrange(start as int, end as int),
                p - start,
            ),
            None => !is_hit(chars@.subrange(start as int, end as int)),
        },
{
    let ghost line = chars@.subrange(start as int, end as int);
    if end - start < KEYWORD_LEN {
        return None;
    }
    let mut p: usize = end - KEYWORD_LEN;
    loop
        invariant
            start <= p,
            p + KEYWORD_LEN <= end <= chars.len(),
            line == chars@.subrange(start as int, end as int),
            forall|q: int| p - start < q ==> !matches_at(line, q),
        decreases p - start,
    {
        assert(line.subrange(p - start, p - start + KEYWORD_LEN) == chars@.subrange(
            p as int,
            p + KEYWORD_LEN,
        ));
        if keyword_at(chars, p) {
            return Some(p);
        }
        if p == start {
            return None;
        }
        p -= 1;
    }
}

/// What the hits among the lines of `text` report, in the order of the lines.
/// A line is a hit where it holds the keyword in any mix of upper and lower
/// case, and reports what follows its last keyword, trimmed.
pub fn extract_successes(text: &str) -> (r: Vec<String>)
    ensures
        texts(r@) == descriptions(text@),
{
    let chars = to_chars(text);
    let n = chars.len();
    let ghost lines = segments(text@, LINE_FEED);
    let ghost report = |line: Seq<char>| hit_description(line);
    let ghost mut i: int = 0;
    let mut out: Vec<String> = Vec::new();
    let mut pos: usize = 0;
    let mut done = false;
    proof {
        assert(chars@.skip(0) == text@);
        assert(lines.skip(0) == lines);
    }
    while !done
        invariant
            chars@ == text@,
            n == chars.len(),
            pos <= n,
            lines == segments(text@, LINE_FEED),
            report == |line: Seq<char>| hit_description(line),
            0 <= i <= lines.len(),
            !done ==> i < lines.len() && segments(chars@.skip(pos as int), LINE_FEED)
                == lines.skip(i),
            done ==> i == lines.len(),
            texts(out@) == lines.take(i).filter_map(report),
        decreases n - pos + (if done { 0int } else { 1int }),
    {
        let mut end: usize = pos;
        while end < n && chars[end] != LINE_FEED
            invariant
                pos <= end <= n,
                n == chars.len(),
                forall|j: int| pos <= j < end ==> chars@[j] != LINE_FEED,
            decreases n - end,
        {
            end += 1;
        }
        let ghost rest = chars@.skip(pos as int);
        let ghost line = chars@.subrange(pos as int, end as int);
        proof {
            lemma_first_index_is(rest, LINE_FEED, end - pos);
            assert(lines[i] == lines.skip(i)[0]);
            if end < n {
                assert(rest.take(end - pos) == line);
                assert(rest.skip(end - pos + 1) == chars@.skip(end + 1));
                assert(lines.skip(i + 1) == lines.skip(i).drop_first());
                assert(lines.skip(i).drop_first() == segments(chars@.skip(end + 1), LINE_FEED));
            } else {
                assert(rest == line);
                assert(lines.skip(i).len() == 1);
            }
            assert(lines[i] == line);
            lines.lemma_filter_map_take_succ(report, i);
        }
        match find_last_match(&chars, pos, end) {
            Some(p) => {
                let (a, b) = trim_range(&chars, p + KEYWORD_LEN, end);
                let found = text.substring_char(a, b).to_owned();
                proof {
                    lemma_last_match_unique(line, p - pos);
                    assert(line.skip(p - pos + KEYWORD_LEN) == chars@.subrange(
                        p + KEYWORD_LEN,
                        end as int,
                    ));
                    assert(found@ == description(line));
                    assert(texts(out@.push(found)) == texts(out@) + seq![found@]);
                }
                out.push(found);
            },
            None => {},
        }
        proof {
            i = i + 1;
        }
        if end == n {
            done = true;
        } else {
            pos = end + 1;
        }
    }
    assert(lines.take(i) == lines);
    out
}

/// The outcome of a probe whose tool printed `output`: what its hits report,
/// or `NotText` where the output is not valid UTF-8. How the tool ended plays
/// no part: its output alone is read.
pub fn read_output(output: &[u8]) -> (r: ProbeOutcome)
    ensures
        match r {
            Ok(found) => valid_utf8(output@) && texts(found@) == descriptions(
                decode_utf8(output@),
            ),
            Err(e) => !valid_utf8(output@) && e == ProbeError::NotText,
        },
{
    match decode_text(output) {
        Some(text) => Ok(extract_successes(text.as_str())),
        None => Err(ProbeError::NotText),
    }
}

} // verus!
