//! Reading a batch file: one `a,b,c,d` table per line.

use vstd::prelude::*;
use vstd::string::StringSliceAdditionalSpecFns;
use vstd::utf8::{decode_utf8, valid_utf8};
use crate::table::{parse_table, reads_table, TableError};
use crate::text::{
    lemma_split_pieces_concat, lemma_split_pieces_nonempty, lemma_split_pieces_single,
    split_pieces,
};

verus! {

broadcast use vstd::utf8::encode_utf8_decode_utf8;

/// Whether `b` is ASCII whitespace as `u8::is_ascii_whitespace` has it:
/// space, tab, line feed, form feed or carriage return.
pub open spec fn is_ascii_white_space(b: u8) -> bool {
    b == 0x20 || b == 0x09 || b == 0x0a || b == 0x0c || b == 0x0d
}

/// `s` without its leading ASCII whitespace.
pub open spec fn trim_ascii_start(s: Seq<u8>) -> Seq<u8>
    decreases s.len(),
{
    if s.len() > 0 && is_ascii_white_space(s[0]) {
        trim_ascii_start(s.drop_first())
    } else {
        s
    }
}

/// `s` without its trailing ASCII whitespace.
pub open spec fn trim_ascii_end(s: Seq<u8>) -> Seq<u8>
    decreases s.len(),
{
    if s.len() > 0 && is_ascii_white_space(s.last()) {
        trim_ascii_end(s.drop_last())
    } else {
        s
    }
}

/// `s` without leading and trailing ASCII whitespace.
pub open spec fn trimmed_ascii(s: Seq<u8>) -> Seq<u8> {
    trim_ascii_end(trim_ascii_start(s))
}

fn ascii_white_space(b: u8) -> (r: bool)
    ensures
        r == is_ascii_white_space(b),
{
    b == 0x20 || b == 0x09 || b == 0x0a || b == 0x0c || b == 0x0d
}

/// The part of `s` left once leading and trailing ASCII whitespace is removed.
pub fn trim_ascii(s: &[u8]) -> (r: &[u8])
    ensures
        r@ == trimmed_ascii(s@),
        exists|i: int, j: int|
            0 <= i <= j <= s@.len() && r@ == s@.subrange(i, j) && (forall|k: int|
                0 <= k < i ==> is_ascii_white_space(#[trigger] s@[k])) && (forall|k: int|
                j <= k < s@.len() ==> is_ascii_white_space(#[trigger] s@[k])) && (i < j
                ==> !is_ascii_white_space(s@[i]) && !is_ascii_white_space(s@[j - 1])),
{
    let mut i: usize = 0;
    assert(s@.subrange(0, s.len() as int) =~= s@);
    while i < s.len() && ascii_white_space(s[i])
        invariant
            i <= s.len(),
            trim_ascii_start(s@) == trim_ascii_start(s@.subrange(i as int, s.len() as int)),
            forall|k: int| 0 <= k < i ==> is_ascii_white_space(#[trigger] s@[k]),
        decreases s.len() - i,
    {
        assert(s@.subrange(i as int, s.len() as int).drop_first() =~= s@.subrange(
            i + 1,
            s.len() as int,
        ));
        i = i + 1;
    }
    assert(trim_ascii_start(s@) == s@.subrange(i as int, s.len() as int));
    let mut j: usize = s.len();
    while j > i && ascii_white_space(s[j - 1])
        invariant
            i <= j <= s.len(),
            i < s.len() ==> !is_ascii_white_space(s@[i as int]),
            trimmed_ascii(s@) == trim_ascii_end(s@.subrange(i as int, j as int)),
            forall|k: int| j <= k < s@.len() ==> is_ascii_white_space(#[trigger] s@[k]),
        decreases j - i,
    {
        assert(s@.subrange(i as int, j as int).drop_last() =~= s@.subrange(i as int, j - 1));
        j = j - 1;
    }
    let r = &s[i..j];
    assert(r@ == s@.subrange(i as int, j as int));
    r
}

/// ASCII whitespace is exactly the five bytes that `u8::is_ascii_whitespace`
/// names: space, tab, line feed, form feed and carriage return.
pub proof fn lemma_ascii_white_space_bytes(b: u8)
    ensures
        is_ascii_white_space(b) <==> (b == 0x20u8 || b == 0x09u8 || b == 0x0au8 || b == 0x0cu8
            || b == 0x0du8),
        !is_ascii_white_space(0x2cu8),
        forall|d: u8| 0x30u8 <= d <= 0x39u8 ==> !#[trigger] is_ascii_white_space(d),
{
}

/// The lines that are left non-empty once trimmed, in order.
pub open spec fn nonempty_lines(lines: Seq<Seq<u8>>) -> Seq<Seq<u8>>
    decreases lines.len(),
{
    if lines.len() == 0 {
        Seq::empty()
    } else {
        let init = nonempty_lines(lines.drop_last());
        let t = trimmed_ascii(lines.last());
        if t.len() > 0 {
            init.push(t)
        } else {
            init
        }
    }
}

/// The table lines of a batch file: the file cut at every line feed, each
/// line trimmed of ASCII whitespace, the lines left empty dropped.
pub open spec fn batch_lines(bytes: Seq<u8>) -> Seq<Seq<u8>> {
    nonempty_lines(split_pieces(bytes, 0x0au8))
}

/// The table lines of a batch file, in the order they stand in it.
pub fn batch_table_lines(bytes: &[u8]) -> (r: Vec<&[u8]>)
    ensures
        r@.len() == batch_lines(bytes@).len(),
        forall|k: int| 0 <= k < r@.len() ==> (#[trigger] r@[k])@ == batch_lines(bytes@)[k],
{
    let mut r: Vec<&[u8]> = Vec::new();
    let mut start: usize = 0;
    let mut i: usize = 0;
    while i < bytes.len()
        invariant
            start <= i <= bytes.len(),
            split_pieces(bytes@.take(i as int), 0x0au8).len() >= 1,
            bytes@.subrange(start as int, i as int) == split_pieces(bytes@.take(i as int), 0x0au8).last(),
            r@.len() == nonempty_lines(split_pieces(bytes@.take(i as int), 0x0au8).drop_last()).len(),
            forall|k: int| 0 <= k < r@.len() ==> (#[trigger] r@[k])@ == nonempty_lines(
                split_pieces(bytes@.take(i as int), 0x0au8).drop_last(),
            )[k],
        decreases bytes.len() - i,
    {
        let ghost prev = split_pieces(bytes@.take(i as int), 0x0au8);
        let ghost prev_r = r@;
        proof {
            assert(bytes@.take(i + 1).drop_last() =~= bytes@.take(i as int));
            assert(bytes@.take(i + 1).last() == bytes@[i as int]);
        }
        let ghost next = split_pieces(bytes@.take(i + 1), 0x0au8);
        proof {
            lemma_split_pieces_nonempty(bytes@.take(i + 1), 0x0au8);
        }
        if bytes[i] == 0x0a {
            let line = trim_ascii(&bytes[start..i]);
            proof {
                assert(next == prev.push(Seq::<u8>::empty()));
                assert(next.drop_last() =~= prev.drop_last().push(prev.last()));
                assert(next.drop_last().drop_last() =~= prev.drop_last());
                assert(next.drop_last().last() == prev.last());
                assert(line@ == trimmed_ascii(prev.last()));
                assert(nonempty_lines(next.drop_last()) == if line@.len() > 0 {
                    nonempty_lines(prev.drop_last()).push(line@)
                } else {
                    nonempty_lines(prev.drop_last())
                });
            }
            if line.len() > 0 {
                r.push(line);
                proof {
                    assert forall|k: int| 0 <= k < r@.len() implies (#[trigger] r@[k])@
                        == nonempty_lines(next.drop_last())[k] by {
                        if k < prev_r.len() {
                            assert(r@[k] == prev_r[k]);
                        }
                    }
                }
            }
            start = i + 1;
            proof {
                assert(bytes@.subrange(start as int, i + 1) =~= Seq::<u8>::empty());
            }
        } else {
            proof {
                assert(next == prev.update(prev.len() - 1, prev.last().push(bytes@[i as int])));
                assert(next.drop_last() =~= prev.drop_last());
                assert(bytes@.subrange(start as int, i + 1) =~= bytes@.subrange(
                    start as int,
                    i as int,
                ).push(bytes@[i as int]));
            }
        }
        i = i + 1;
    }
    let ghost pieces = split_pieces(bytes@, 0x0au8);
    let ghost prev_r = r@;
    proof {
        assert(bytes@.take(i as int) =~= bytes@);
        assert(pieces =~= pieces.drop_last().push(pieces.last()));
    }
    let line = trim_ascii(&bytes[start..i]);
    proof {
        assert(line@ == trimmed_ascii(pieces.last()));
        assert(batch_lines(bytes@) == if line@.len() > 0 {
            nonempty_lines(pieces.drop_last()).push(line@)
        } else {
            nonempty_lines(pieces.drop_last())
        });
    }
    if line.len() > 0 {
        r.push(line);
        proof {
            assert forall|k: int| 0 <= k < r@.len() implies (#[trigger] r@[k])@ == batch_lines(
                bytes@,
            )[k] by {
                if k < prev_r.len() {
                    assert(r@[k] == prev_r[k]);
                }
            }
        }
    }
    r
}

/// The text that `bytes` encode, when they are valid UTF-8
/// (`std::str::from_utf8`). The text is the bytes themselves, read as UTF-8.
#[verifier::external_body]
fn utf8_text(bytes: &[u8]) -> (r: Option<&str>)
    ensures
        r is Some <==> valid_utf8(bytes@),
        r matches Some(t) ==> t.spec_bytes() == bytes@,
{
    std::str::from_utf8(bytes).ok()
}

/// Why a line of a batch file could not be read as a table.
#[derive(Debug, PartialEq, Eq)]
pub enum BatchLineError {
    /// The line is not valid UTF-8.
    NotUtf8,
    /// The line is text, but not a table spec.
    Table(TableError),
}

/// Read one table line of a batch file: it must be UTF-8 text, and that text
/// a table spec as `parse_table` reads it.
pub fn parse_batch_line(line: &[u8]) -> (r: Result<(u64, u64, u64, u64), BatchLineError>)
    ensures
        match r {
            Err(BatchLineError::NotUtf8) => !valid_utf8(line@),
            Ok(t) => valid_utf8(line@) && reads_table(decode_utf8(line@), Ok(t)),
            Err(BatchLineError::Table(e)) => valid_utf8(line@) && reads_table(
                decode_utf8(line@),
                Err(e),
            ),
        },
{
    match utf8_text(line) {
        None => Err(BatchLineError::NotUtf8),
        Some(text) => {
            proof {
                assert(text@ == decode_utf8(line@));
            }
            match parse_table(text) {
                Ok(t) => Ok(t),
                Err(e) => Err(BatchLineError::Table(e)),
            }
        },
    }
}

/// Trimming leaves no whitespace at either end.
pub open spec fn ascii_trimmed_ends(t: Seq<u8>) -> bool {
    t.len() > 0 ==> !is_ascii_white_space(t[0]) && !is_ascii_white_space(t.last())
}

proof fn lemma_trim_ascii_start_shape(s: Seq<u8>)
    ensures
        trim_ascii_start(s).len() > 0 ==> !is_ascii_white_space(trim_ascii_start(s)[0]),
        trim_ascii_start(s).len() <= s.len(),
    decreases s.len(),
{
    if s.len() > 0 && is_ascii_white_space(s[0]) {
        lemma_trim_ascii_start_shape(s.drop_first());
    }
}

proof fn lemma_trim_ascii_end_shape(t: Seq<u8>)
    ensures
        trim_ascii_end(t).len() > 0 ==> !is_ascii_white_space(trim_ascii_end(t).last()),
        trim_ascii_end(t).len() <= t.len(),
        trim_ascii_end(t) == t.take(trim_ascii_end(t).len() as int),
        t.len() > 0 && !is_ascii_white_space(t[0]) ==> trim_ascii_end(t).len() > 0,
    decreases t.len(),
{
    if t.len() > 0 && is_ascii_white_space(t.last()) {
        lemma_trim_ascii_end_shape(t.drop_last());
        assert(t.drop_last().take(trim_ascii_end(t).len() as int) =~= t.take(
            trim_ascii_end(t).len() as int,
        ));
    } else {
        assert(t.take(t.len() as int) =~= t);
    }
}

/// What `trim_ascii` returns has no ASCII whitespace at either end, and
/// trimming it again changes nothing.
pub proof fn lemma_trim_ascii_idempotent(s: Seq<u8>)
    ensures
        ascii_trimmed_ends(trimmed_ascii(s)),
        trimmed_ascii(trimmed_ascii(s)) == trimmed_ascii(s),
{
    let t = trim_ascii_start(s);
    lemma_trim_ascii_start_shape(s);
    lemma_trim_ascii_end_shape(t);
    let r = trim_ascii_end(t);
    if r.len() > 0 {
        assert(r[0] == t[0]);
    }
    assert(trim_ascii_start(r) == r);
    assert(trim_ascii_end(r) == r);
}

proof fn lemma_trim_ascii_start_split(s: Seq<u8>) -> (i: int)
    ensures
        0 <= i <= s.len(),
        trim_ascii_start(s) == s.subrange(i, s.len() as int),
        forall|k: int| 0 <= k < i ==> is_ascii_white_space(#[trigger] s[k]),
        i < s.len() ==> !is_ascii_white_space(s[i]),
    decreases s.len(),
{
    if s.len() > 0 && is_ascii_white_space(s[0]) {
        let i0 = lemma_trim_ascii_start_split(s.drop_first());
        assert(s.drop_first().subrange(i0, s.len() - 1) =~= s.subrange(i0 + 1, s.len() as int));
        assert forall|k: int| 0 <= k < i0 + 1 implies is_ascii_white_space(#[trigger] s[k]) by {
            if k > 0 {
                assert(s[k] == s.drop_first()[k - 1]);
            }
        }
        i0 + 1
    } else {
        assert(s.subrange(0, s.len() as int) =~= s);
        0
    }
}

proof fn lemma_trim_ascii_end_split(s: Seq<u8>) -> (j: int)
    ensures
        0 <= j <= s.len(),
        trim_ascii_end(s) == s.subrange(0, j),
        forall|k: int| j <= k < s.len() ==> is_ascii_white_space(#[trigger] s[k]),
        j > 0 ==> !is_ascii_white_space(s[j - 1]),
    decreases s.len(),
{
    if s.len() > 0 && is_ascii_white_space(s.last()) {
        let j0 = lemma_trim_ascii_end_split(s.drop_last());
        assert(s.drop_last().subrange(0, j0) =~= s.subrange(0, j0));
        assert forall|k: int| j0 <= k < s.len() implies is_ascii_white_space(#[trigger] s[k]) by {
            if k < s.len() - 1 {
                assert(s[k] == s.drop_last()[k]);
            }
        }
        j0
    } else {
        assert(s.subrange(0, s.len() as int) =~= s);
        s.len() as int
    }
}

/// Trimming a line removes exactly the ASCII whitespace at both ends: the
/// result is the slice `s[i..j]`, every byte before `i` and from `j` on is
/// ASCII whitespace, and the result neither begins nor ends with it. A line
/// whose ends are not whitespace, such as one of digits and commas, is kept
/// whole.
pub proof fn lemma_trimmed_ascii_characterized(s: Seq<u8>) -> (r: (int, int))
    ensures
        0 <= r.0 <= r.1 <= s.len(),
        trimmed_ascii(s) == s.subrange(r.0, r.1),
        forall|k: int| 0 <= k < r.0 ==> is_ascii_white_space(#[trigger] s[k]),
        forall|k: int| r.1 <= k < s.len() ==> is_ascii_white_space(#[trigger] s[k]),
        r.0 < r.1 ==> !is_ascii_white_space(s[r.0]) && !is_ascii_white_space(s[r.1 - 1]),
        s.len() > 0 && !is_ascii_white_space(s[0]) && !is_ascii_white_space(s.last())
            ==> trimmed_ascii(s) == s,
{
    let i = lemma_trim_ascii_start_split(s);
    let t = s.subrange(i, s.len() as int);
    let j = lemma_trim_ascii_end_split(t);
    assert(t.subrange(0, j) =~= s.subrange(i, i + j));
    assert forall|k: int| i + j <= k < s.len() implies is_ascii_white_space(#[trigger] s[k]) by {
        assert(s[k] == t[k - i]);
    }
    if j > 0 {
        assert(s[i] == t[0]);
        assert(s[i + j - 1] == t[j - 1]);
    }
    if s.len() > 0 && !is_ascii_white_space(s[0]) && !is_ascii_white_space(s.last()) {
        assert(i == 0);
        assert(i + j == s.len());
        assert(s.subrange(0, s.len() as int) =~= s);
    }
    (i, i + j)
}

proof fn lemma_nonempty_lines_concat(a: Seq<Seq<u8>>, b: Seq<Seq<u8>>)
    ensures
        nonempty_lines(a + b) == nonempty_lines(a) + nonempty_lines(b),
    decreases b.len(),
{
    if b.len() == 0 {
        assert(a + b =~= a);
        assert(nonempty_lines(a) + nonempty_lines(b) =~= nonempty_lines(a));
    } else {
        lemma_nonempty_lines_concat(a, b.drop_last());
        assert((a + b).drop_last() =~= a + b.drop_last());
        assert((a + b).last() == b.last());
        let t = trimmed_ascii(b.last());
        if t.len() > 0 {
            assert((nonempty_lines(a) + nonempty_lines(b.drop_last())).push(t) =~= nonempty_lines(
                a,
            ) + nonempty_lines(b.drop_last()).push(t));
        }
    }
}

/// A batch file is read line by line: the table lines of `x`, a line feed,
/// then `y` are the table lines of `x` followed by those of `y`. Every line
/// counts on its own, repeated lines included.
pub proof fn lemma_batch_lines_concat(x: Seq<u8>, y: Seq<u8>)
    ensures
        batch_lines(x + seq![0x0au8] + y) == batch_lines(x) + batch_lines(y),
{
    lemma_split_pieces_concat(x, y, 0x0au8);
    lemma_nonempty_lines_concat(split_pieces(x, 0x0au8), split_pieces(y, 0x0au8));
}

/// A single line without a line feed is one table line, trimmed, when it
/// holds anything but whitespace, and no table line otherwise. A line that
/// neither begins nor ends with whitespace is its own table line, unchanged.
pub proof fn lemma_batch_lines_single(s: Seq<u8>)
    requires
        forall|k: int| 0 <= k < s.len() ==> s[k] != 0x0au8,
    ensures
        (exists|k: int| 0 <= k < s.len() && !is_ascii_white_space(#[trigger] s[k]))
            ==> batch_lines(s) == seq![trimmed_ascii(s)],
        (forall|k: int| 0 <= k < s.len() ==> is_ascii_white_space(#[trigger] s[k]))
            ==> batch_lines(s) == Seq::<Seq<u8>>::empty(),
        s.len() > 0 && !is_ascii_white_space(s[0]) && !is_ascii_white_space(s.last())
            ==> batch_lines(s) == seq![s],
{
    lemma_split_pieces_single(s, 0x0au8);
    let r = lemma_trimmed_ascii_characterized(s);
    let lines = seq![s];
    assert(lines.drop_last() =~= Seq::<Seq<u8>>::empty());
    assert(nonempty_lines(lines.drop_last()) == Seq::<Seq<u8>>::empty());
    if exists|k: int| 0 <= k < s.len() && !is_ascii_white_space(#[trigger] s[k]) {
        let k = choose|k: int| 0 <= k < s.len() && !is_ascii_white_space(#[trigger] s[k]);
        assert(r.0 <= k < r.1);
        assert(Seq::<Seq<u8>>::empty().push(trimmed_ascii(s)) =~= seq![trimmed_ascii(s)]);
    }
    if forall|k: int| 0 <= k < s.len() ==> is_ascii_white_space(#[trigger] s[k]) {
        if r.0 < r.1 {
            assert(is_ascii_white_space(s[r.0]));
        }
    }
    if s.len() > 0 && !is_ascii_white_space(s[0]) && !is_ascii_white_space(s.last()) {
        assert(!is_ascii_white_space(s[0]));
        assert(Seq::<Seq<u8>>::empty().push(s) =~= seq![s]);
    }
}

} // verus!
