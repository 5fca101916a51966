//! The list of targets.
//!
//! The list is a text file with one target on each line. A line ends at a
//! line feed, and a carriage return just before that line feed belongs to
//! the line's end too; the last line may do without either. A line that is
//! not valid UTF-8 is left out and the rest is still read. Nothing else is
//! looked at: a target is taken as it stands, empty or twice as it may be.

use crate::text::{decode_text, segments, texts};
use crate::text::{lemma_first_index_is, CARRIAGE_RETURN_BYTE, LINE_FEED_BYTE};
use vstd::prelude::*;
use vstd::slice::*;
use vstd::utf8::*;

verus! {

/// `line` without the carriage return at its end, if there is one.
pub open spec fn without_carriage_return(line: Seq<u8>) -> Seq<u8> {
    if line.len() > 0 && line.last() == CARRIAGE_RETURN_BYTE {
        line.drop_last()
    } else {
        line
    }
}

/// The lines of a file that holds `bytes`: what stands before each line
/// feed, without a carriage return at its end, and what follows the last
/// line feed, if anything does.
pub open spec fn lines(bytes: Seq<u8>) -> Seq<Seq<u8>> {
    let pieces = segments(bytes, LINE_FEED_BYTE);
    let ended = pieces.drop_last().map_values(|piece: Seq<u8>| without_carriage_return(piece));
    if pieces.last().len() == 0 {
        ended
    } else {
        ended.push(pieces.last())
    }
}

/// The text of `line`, where it is valid UTF-8.
pub open spec fn decoded(line: Seq<u8>) -> Option<Seq<char>> {
    if valid_utf8(line) {
        Some(decode_utf8(line))
    } else {
        None
    }
}

/// The targets that a file with `bytes` lists: its lines that are valid
/// UTF-8, as text and in their order.
pub open spec fn targets(bytes: Seq<u8>) -> Seq<Seq<char>> {
    lines(bytes).filter_map(|line: Seq<u8>| decoded(line))
}

/// As many targets are loaded as the file has lines that are valid UTF-8:
/// the other lines are left out, and no line is added, merged or split.
pub proof fn lemma_one_target_per_valid_line(bytes: Seq<u8>)
    ensures
        targets(bytes).len() == lines(bytes).filter(|line: Seq<u8>| valid_utf8(line)).len(),
{
    lemma_decoded_count(lines(bytes));
}

/// In any sequence of lines, as many are decoded as are valid UTF-8.
proof fn lemma_decoded_count(all: Seq<Seq<u8>>)
    ensures
        all.filter_map(|line: Seq<u8>| decoded(line)).len() == all.filter(
            |line: Seq<u8>| valid_utf8(line),
        ).len(),
    decreases all.len(),
{
    reveal(Seq::filter);
    if all.len() > 0 {
        lemma_decoded_count(all.drop_last());
    }
}

/// `line` without the carriage return at its end, if there is one.
fn strip_carriage_return(line: &[u8]) -> (r: &[u8])
    ensures
        r@ == without_carriage_return(line@),
{
    let n = line.len();
    if n > 0 && line[n - 1] == CARRIAGE_RETURN_BYTE {
        slice_subrange(line, 0, n - 1)
    } else {
        line
    }
}

/// The targets that a file with `bytes` lists, in the order of its lines.
pub fn load_targets(bytes: &[u8]) -> (r: Vec<String>)
    ensures
        texts(r@) == targets(bytes@),
{
    let n = bytes.len();
    let ghost pieces = segments(bytes@, LINE_FEED_BYTE);
    let ghost ended = pieces.drop_last().map_values(
        |piece: Seq<u8>| without_carriage_return(piece),
    );
    let ghost read = |line: Seq<u8>| decoded(line);
    let ghost mut i: int = 0;
    let mut out: Vec<String> = Vec::new();
    let mut pos: usize = 0;
    let mut done = false;
    proof {
        assert(bytes@.skip(0) == bytes@);
        assert(pieces.skip(0) == pieces);
    }
    while !done
        invariant
            n == bytes.len(),
            pos <= n,
            pieces == segments(bytes@, LINE_FEED_BYTE),
            ended == pieces.drop_last().map_values(
                |piece: Seq<u8>| without_carriage_return(piece),
            ),
            read == |line: Seq<u8>| decoded(line),
            0 <= i < pieces.len(),
            !done ==> segments(bytes@.skip(pos as int), LINE_FEED_BYTE) == pieces.skip(i),
            !done ==> texts(out@) == ended.take(i).filter_map(read),
            done ==> texts(out@) == targets(bytes@),
        decreases n - pos + (if done { 0int } else { 1int }),
    {
        let mut end: usize = pos;
        while end < n && bytes[end] != LINE_FEED_BYTE
            invariant
                pos <= end <= n,
                n == bytes.len(),
                forall|j: int| pos <= j < end ==> bytes@[j] != LINE_FEED_BYTE,
            decreases n - end,
        {
            end += 1;
        }
        let ghost rest = bytes@.skip(pos as int);
        let ghost piece = bytes@.subrange(pos as int, end as int);
        proof {
            lemma_first_index_is(rest, LINE_FEED_BYTE, end - pos);
            assert(pieces[i] == pieces.skip(i)[0]);
            if end < n {
                assert(rest.take(end - pos) == piece);
                assert(rest.skip(end - pos + 1) == bytes@.skip(end + 1));
                assert(pieces.skip(i + 1) == pieces.skip(i).drop_first());
                assert(pieces.skip(i).drop_first() == segments(
                    bytes@.skip(end + 1),
                    LINE_FEED_BYTE,
                ));
                assert(pieces.skip(i).len() >= 2);
            } else {
                assert(rest == piece);
                assert(pieces.skip(i).len() == 1);
            }
            assert(pieces[i] == piece);
        }
        if end < n {
            let line = strip_carriage_return(slice_subrange(bytes, pos, end));
            proof {
                assert(ended[i] == line@);
                ended.lemma_filter_map_take_succ(read, i);
            }
            match decode_text(line) {
                Some(target) => {
                    assert(texts(out@.push(target)) == texts(out@) + seq![target@]);
                    out.push(target);
                },
                None => {},
            }
            proof {
                i = i + 1;
            }
            pos = end + 1;
        } else {
            proof {
                assert(ended.take(i) == ended);
                assert(pieces.last() == piece);
            }
            if end > pos {
                let line = slice_subrange(bytes, pos, end);
                proof {
                    assert(lines(bytes@) == ended.push(piece));
                    assert(ended.push(piece).drop_last() == ended);
                }
                match decode_text(line) {
                    Some(target) => {
                        assert(texts(out@.push(target)) == texts(out@) + seq![target@]);
                        out.push(target);
                    },
                    None => {},
                }
            }
            done = true;
        }
    }
    out
}

} // verus!
