//! Text primitives shared by the table and batch readers.

use vstd::prelude::*;

verus! {

broadcast use vstd::string::group_string_axioms;

/// The characters of `s`, in order.
pub fn chars_of(s: &str) -> (cs: Vec<char>)
    ensures
        cs@ == s@,
{
    let mut cs: Vec<char> = Vec::new();
    for c in it: s.chars()
        invariant
            it.seq() == s@,
            cs@ == it.seq().take(it.index() as int),
    {
        assert(it.seq().take(it.index() + 1) == cs@.push(c));
        cs.push(c);
    }
    cs
}

/// The pieces of `s` between the occurrences of `sep`, as `split` cuts them:
/// `n` separators give `n + 1` pieces, empty pieces included.
pub open spec fn split_pieces<T>(s: Seq<T>, sep: T) -> Seq<Seq<T>>
    decreases s.len(),
{
    if s.len() == 0 {
        seq![Seq::<T>::empty()]
    } else {
        let init = split_pieces(s.drop_last(), sep);
        if s.last() == sep {
            init.push(Seq::<T>::empty())
        } else {
            init.update(init.len() - 1, init.last().push(s.last()))
        }
    }
}

/// Splitting always yields at least one piece.
pub proof fn lemma_split_pieces_nonempty<T>(s: Seq<T>, sep: T)
    ensures
        split_pieces(s, sep).len() >= 1,
    decreases s.len(),
{
    if s.len() > 0 {
        lemma_split_pieces_nonempty(s.drop_last(), sep);
    }
}

/// Whether `c` has the Unicode property White_Space, the whitespace that
/// `str::trim` removes.
pub open spec fn is_white_space(c: char) -> bool {
    let u = c as u32;
    ||| 0x09 <= u <= 0x0d
    ||| u == 0x20
    ||| u == 0x85
    ||| u == 0xa0
    ||| u == 0x1680
    ||| 0x2000 <= u <= 0x200a
    ||| u == 0x2028
    ||| u == 0x2029
    ||| u == 0x202f
    ||| u == 0x205f
    ||| u == 0x3000
}

/// `s` without its leading whitespace.
pub open spec fn trim_start(s: Seq<char>) -> Seq<char>
    decreases s.len(),
{
    if s.len() > 0 && is_white_space(s[0]) {
        trim_start(s.drop_first())
    } else {
        s
    }
}

/// `s` without its trailing whitespace.
pub open spec fn trim_end(s: Seq<char>) -> Seq<char>
    decreases s.len(),
{
    if s.len() > 0 && is_white_space(s.last()) {
        trim_end(s.drop_last())
    } else {
        s
    }
}

/// `s` without leading and trailing whitespace.
pub open spec fn trim_white_space(s: Seq<char>) -> Seq<char> {
    trim_end(trim_start(s))
}

/// Whether `c` is an ASCII decimal digit `0`..=`9`.
pub open spec fn is_decimal_digit(c: char) -> bool {
    '0' as u32 <= c as u32 <= '9' as u32
}

/// The number that a string of decimal digits writes.
pub open spec fn digits_value(d: Seq<char>) -> int
    decreases d.len(),
{
    if d.len() == 0 {
        0
    } else {
        digits_value(d.drop_last()) * 10 + (d.last() as u32 - '0' as u32)
    }
}

/// The digits of an unsigned decimal: the text after an optional `+`.
pub open spec fn unsigned_digits(s: Seq<char>) -> Seq<char> {
    if s.len() > 0 && s[0] == '+' {
        s.drop_first()
    } else {
        s
    }
}

/// The `u64` that `s` writes in decimal, as `str::parse::<u64>` reads it: an
/// optional `+` and then one or more ASCII digits, with a value that fits.
pub open spec fn decimal_u64(s: Seq<char>) -> Option<u64> {
    decimal_u64_digits(unsigned_digits(s))
}

/// A string of digits writes at least what each of its prefixes writes.
pub proof fn lemma_digits_value_prefix(d: Seq<char>, k: int)
    requires
        0 <= k <= d.len(),
        forall|i: int| 0 <= i < d.len() ==> is_decimal_digit(#[trigger] d[i]),
    ensures
        0 <= digits_value(d.take(k)) <= digits_value(d),
    decreases d.len(),
{
    if k < d.len() {
        assert(d.drop_last().take(k) =~= d.take(k));
        lemma_digits_value_prefix(d.drop_last(), k);
    } else {
        assert(d.take(k) =~= d);
        lemma_digits_value_nonneg(d);
    }
}

proof fn lemma_digits_value_nonneg(d: Seq<char>)
    requires
        forall|i: int| 0 <= i < d.len() ==> is_decimal_digit(#[trigger] d[i]),
    ensures
        digits_value(d) >= 0,
    decreases d.len(),
{
    if d.len() > 0 {
        lemma_digits_value_nonneg(d.drop_last());
    }
}

/// Whether `c` is whitespace in the sense of `is_white_space`.
pub fn white_space(c: char) -> (b: bool)
    ensures
        b == is_white_space(c),
{
    let u = c as u32;
    (0x09 <= u && u <= 0x0d) || u == 0x20 || u == 0x85 || u == 0xa0 || u == 0x1680 || (0x2000
        <= u && u <= 0x200a) || u == 0x2028 || u == 0x2029 || u == 0x202f || u == 0x205f || u
        == 0x3000
}

/// The bounds of `cs[lo..hi]` without leading and trailing whitespace.
pub fn trim_bounds(cs: &Vec<char>, lo: usize, hi: usize) -> (r: (usize, usize))
    requires
        lo <= hi <= cs.len(),
    ensures
        lo <= r.0 <= r.1 <= hi,
        cs@.subrange(r.0 as int, r.1 as int) == trim_white_space(cs@.subrange(lo as int, hi as int)),
        forall|k: int| lo <= k < r.0 ==> is_white_space(#[trigger] cs@[k]),
        forall|k: int| r.1 <= k < hi ==> is_white_space(#[trigger] cs@[k]),
        r.0 < r.1 ==> !is_white_space(cs@[r.0 as int]) && !is_white_space(cs@[r.1 - 1]),
{
    let mut i = lo;
    while i < hi && white_space(cs[i])
        invariant
            lo <= i <= hi <= cs.len(),
            trim_start(cs@.subrange(lo as int, hi as int)) == trim_start(
                cs@.subrange(i as int, hi as int),
            ),
            forall|k: int| lo <= k < i ==> is_white_space(#[trigger] cs@[k]),
        decreases hi - i,
    {
        assert(cs@.subrange(i as int, hi as int).drop_first() =~= cs@.subrange(i + 1, hi as int));
        i = i + 1;
    }
    assert(trim_start(cs@.subrange(lo as int, hi as int)) == cs@.subrange(i as int, hi as int));
    let mut j = hi;
    while j > i && white_space(cs[j - 1])
        invariant
            lo <= i <= j <= hi <= cs.len(),
            i < hi ==> !is_white_space(cs@[i as int]),
            trim_white_space(cs@.subrange(lo as int, hi as int)) == trim_end(
                cs@.subrange(i as int, j as int),
            ),
            forall|k: int| j <= k < hi ==> is_white_space(#[trigger] cs@[k]),
        decreases j - i,
    {
        assert(cs@.subrange(i as int, j as int).drop_last() =~= cs@.subrange(i as int, j - 1));
        j = j - 1;
    }
    (i, j)
}

proof fn lemma_trim_start_shape(s: Seq<char>) -> (i: int)
    ensures
        0 <= i <= s.len(),
        trim_start(s) == s.subrange(i, s.len() as int),
        forall|k: int| 0 <= k < i ==> is_white_space(#[trigger] s[k]),
        i < s.len() ==> !is_white_space(s[i]),
    decreases s.len(),
{
    if s.len() > 0 && is_white_space(s[0]) {
        let i0 = lemma_trim_start_shape(s.drop_first());
        assert(s.drop_first().subrange(i0, s.len() - 1) =~= s.subrange(i0 + 1, s.len() as int));
        assert forall|k: int| 0 <= k < i0 + 1 implies is_white_space(#[trigger] s[k]) by {
            if k > 0 {
                assert(s[k] == s.drop_first()[k - 1]);
            }
        }
        i0 + 1
    } else {
        assert(s.subrange(0, s.len() as int) =~= s);
        0
    }
}

proof fn lemma_trim_end_shape(s: Seq<char>) -> (j: int)
    ensures
        0 <= j <= s.len(),
        trim_end(s) == s.subrange(0, j),
        forall|k: int| j <= k < s.len() ==> is_white_space(#[trigger] s[k]),
        j > 0 ==> !is_white_space(s[j - 1]),
    decreases s.len(),
{
    if s.len() > 0 && is_white_space(s.last()) {
        let j0 = lemma_trim_end_shape(s.drop_last());
        assert(s.drop_last().subrange(0, j0) =~= s.subrange(0, j0));
        assert forall|k: int| j0 <= k < s.len() implies is_white_space(#[trigger] s[k]) by {
            if k < s.len() - 1 {
                assert(s[k] == s.drop_last()[k]);
            }
        }
        j0
    } else {
        assert(s.subrange(0, s.len() as int) =~= s);
        s.len() as int
    }
}

/// Trimming removes exactly the whitespace at both ends of `s`: the result
/// is the slice `s[i..j]`, every character before `i` and from `j` on is
/// whitespace, and the result neither begins nor ends with whitespace.
pub proof fn lemma_trim_white_space_characterized(s: Seq<char>) -> (r: (int, int))
    ensures
        0 <= r.0 <= r.1 <= s.len(),
        trim_white_space(s) == s.subrange(r.0, r.1),
        forall|k: int| 0 <= k < r.0 ==> is_white_space(#[trigger] s[k]),
        forall|k: int| r.1 <= k < s.len() ==> is_white_space(#[trigger] s[k]),
        r.0 < r.1 ==> !is_white_space(s[r.0]) && !is_white_space(s[r.1 - 1]),
{
    let i = lemma_trim_start_shape(s);
    let t = s.subrange(i, s.len() as int);
    let j = lemma_trim_end_shape(t);
    assert(t.subrange(0, j) =~= s.subrange(i, i + j));
    assert forall|k: int| i + j <= k < s.len() implies is_white_space(#[trigger] s[k]) by {
        assert(s[k] == t[k - i]);
    }
    if j > 0 {
        assert(s[i] == t[0]);
        assert(s[i + j - 1] == t[j - 1]);
    }
    (i, i + j)
}

/// Trimming twice is trimming once, and whitespace runs of any length around
/// a trimmed text all go: `trim_white_space(w1 + t + w2) == t`.
pub proof fn lemma_trim_white_space_strips_runs(w1: Seq<char>, t: Seq<char>, w2: Seq<char>)
    requires
        forall|k: int| 0 <= k < w1.len() ==> is_white_space(#[trigger] w1[k]),
        forall|k: int| 0 <= k < w2.len() ==> is_white_space(#[trigger] w2[k]),
        t.len() > 0 ==> !is_white_space(t[0]) && !is_white_space(t.last()),
    ensures
        trim_white_space(w1 + t + w2) == t,
{
    let s = w1 + t + w2;
    let r = lemma_trim_white_space_characterized(s);
    if t.len() > 0 {
        // the first non-whitespace character of `s` is `t[0]`, the last `t.last()`
        assert(s[w1.len() as int] == t[0]);
        assert(s[w1.len() + t.len() - 1] == t.last());
        if r.0 > w1.len() {
            assert(is_white_space(s[w1.len() as int]));
        }
        if r.0 < w1.len() {
            if r.0 < r.1 {
                assert(s[r.0] == w1[r.0]);
            } else {
                assert(is_white_space(s[w1.len() as int]));
            }
        }
        if r.1 < w1.len() + t.len() {
            assert(is_white_space(s[w1.len() + t.len() - 1]));
        }
        if r.1 > w1.len() + t.len() {
            assert(s[r.1 - 1] == w2[r.1 - 1 - w1.len() - t.len()]);
        }
        assert(s.subrange(r.0, r.1) =~= t);
    } else {
        if r.0 < r.1 {
            if r.0 < w1.len() {
                assert(s[r.0] == w1[r.0]);
            } else {
                assert(s[r.0] == w2[r.0 - w1.len()]);
            }
        }
        assert(s.subrange(r.0, r.1) =~= t);
    }
}

/// The `u64` that `cs[lo..hi]` writes in decimal, if it writes one.
pub fn read_decimal(cs: &Vec<char>, lo: usize, hi: usize) -> (r: Option<u64>)
    requires
        lo <= hi <= cs.len(),
    ensures
        r == decimal_u64(cs@.subrange(lo as int, hi as int)),
{
    let ghost s = cs@.subrange(lo as int, hi as int);
    let mut p = lo;
    if p < hi && cs[p] == '+' {
        p = p + 1;
    }
    let ghost d = cs@.subrange(p as int, hi as int);
    assert(unsigned_digits(s) =~= d);
    if p == hi {
        return None;
    }
    let mut acc: u64 = 0;
    let mut k = p;
    while k < hi
        invariant
            lo <= p < hi <= cs.len(),
            p <= k <= hi,
            d == cs@.subrange(p as int, hi as int),
            unsigned_digits(cs@.subrange(lo as int, hi as int)) == d,
            forall|i: int| 0 <= i < k - p ==> is_decimal_digit(#[trigger] d[i]),
            acc == digits_value(d.take(k - p)),
        decreases hi - k,
    {
        let u = cs[k] as u32;
        if u < 0x30 || u > 0x39 {
            assert(!is_decimal_digit(d[k - p]));
            return None;
        }
        assert(d.take(k - p + 1).drop_last() =~= d.take(k - p));
        let step = acc.checked_mul(10);
        match step {
            None => {
                proof {
                    assert(is_decimal_digit(d[k - p]));
                    assert(forall|i: int| 0 <= i < k - p + 1 ==> is_decimal_digit(#[trigger] d[i]));
                    lemma_overflow_is_final(d, k - p + 1);
                }
                return None;
            },
            Some(m) => {
                match m.checked_add((u - 0x30) as u64) {
                    None => {
                        proof {
                            assert(forall|i: int| 0 <= i < k - p + 1 ==> is_decimal_digit(#[trigger] d[i]));
                            lemma_overflow_is_final(d, k - p + 1);
                        }
                        return None;
                    },
                    Some(v) => {
                        acc = v;
                    },
                }
            },
        }
        k = k + 1;
    }
    assert(d.take(k - p) =~= d);
    Some(acc)
}

/// Once a prefix of digits writes more than `u64::MAX`, the text cannot
/// write a `u64`.
proof fn lemma_overflow_is_final(d: Seq<char>, k: int)
    requires
        0 < k <= d.len(),
        forall|i: int| 0 <= i < k ==> is_decimal_digit(#[trigger] d[i]),
        digits_value(d.take(k)) > u64::MAX,
    ensures
        decimal_u64_digits(d) is None,
{
    if forall|i: int| 0 <= i < d.len() ==> is_decimal_digit(#[trigger] d[i]) {
        lemma_digits_value_prefix(d, k);
    }
}

/// What `decimal_u64` makes of text that has no sign.
pub open spec fn decimal_u64_digits(d: Seq<char>) -> Option<u64> {
    if d.len() > 0 && (forall|i: int| 0 <= i < d.len() ==> is_decimal_digit(#[trigger] d[i]))
        && digits_value(d) <= u64::MAX {
        Some(digits_value(d) as u64)
    } else {
        None
    }
}

/// Whether each bound in `b` cuts out of `cs` the piece of the same index,
/// and ends no later than `end`.
pub open spec fn bounds_cut(cs: Seq<char>, b: Seq<(usize, usize)>, pieces: Seq<Seq<char>>, end: int) -> bool {
    forall|k: int|
        0 <= k < b.len() ==> {
            &&& (#[trigger] b[k]).0 <= b[k].1 <= end
            &&& cs.subrange(b[k].0 as int, b[k].1 as int) == pieces[k]
        }
}

/// Where each piece of `cs` between the occurrences of `sep` begins and
/// ends, in order.
pub fn piece_bounds(cs: &Vec<char>, sep: char) -> (b: Vec<(usize, usize)>)
    ensures
        b.len() == split_pieces(cs@, sep).len(),
        bounds_cut(cs@, b@, split_pieces(cs@, sep), cs.len() as int),
{
    let mut b: Vec<(usize, usize)> = Vec::new();
    let mut start: usize = 0;
    let mut i: usize = 0;
    while i < cs.len()
        invariant
            start <= i <= cs.len(),
            b.len() + 1 == split_pieces(cs@.take(i as int), sep).len(),
            bounds_cut(cs@, b@, split_pieces(cs@.take(i as int), sep), i as int),
            cs@.subrange(start as int, i as int) == split_pieces(cs@.take(i as int), sep).last(),
        decreases cs.len() - i,
    {
        let ghost prev = split_pieces(cs@.take(i as int), sep);
        let ghost prev_b = b@;
        proof {
            lemma_split_pieces_nonempty(cs@.take(i as int), sep);
            assert(cs@.take(i + 1).drop_last() =~= cs@.take(i as int));
            assert(cs@.take(i + 1).last() == cs@[i as int]);
        }
        let ghost next = split_pieces(cs@.take(i + 1), sep);
        if cs[i] == sep {
            b.push((start, i));
            start = i + 1;
            proof {
                assert(next == prev.push(Seq::<char>::empty()));
                assert(cs@.subrange(start as int, i + 1) =~= Seq::<char>::empty());
                assert forall|k: int| 0 <= k < b.len() implies {
                    &&& (#[trigger] b@[k]).0 <= b@[k].1 <= i + 1
                    &&& cs@.subrange(b@[k].0 as int, b@[k].1 as int) == next[k]
                } by {
                    if k < prev_b.len() {
                        assert(b@[k] == prev_b[k]);
                    }
                }
            }
        } else {
            proof {
                assert(next == prev.update(prev.len() - 1, prev.last().push(cs@[i as int])));
                assert(cs@.subrange(start as int, i + 1) =~= cs@.subrange(start as int, i as int).push(cs@[i as int]));
                assert forall|k: int| 0 <= k < b.len() implies {
                    &&& (#[trigger] b@[k]).0 <= b@[k].1 <= i + 1
                    &&& cs@.subrange(b@[k].0 as int, b@[k].1 as int) == next[k]
                } by {
                    assert(b@[k] == prev_b[k]);
                }
            }
        }
        i = i + 1;
    }
    let ghost prev_b = b@;
    b.push((start, i));
    proof {
        assert(cs@.take(i as int) =~= cs@);
        lemma_split_pieces_nonempty(cs@, sep);
        assert forall|k: int| 0 <= k < b.len() implies {
            &&& (#[trigger] b@[k]).0 <= b@[k].1 <= cs.len()
            &&& cs@.subrange(b@[k].0 as int, b@[k].1 as int) == split_pieces(cs@, sep)[k]
        } by {
            if k < prev_b.len() {
                assert(b@[k] == prev_b[k]);
            }
        }
    }
    b
}

/// The character of a decimal digit.
pub open spec fn digit_char(d: int) -> char {
    if d <= 0 {
        '0'
    } else if d == 1 {
        '1'
    } else if d == 2 {
        '2'
    } else if d == 3 {
        '3'
    } else if d == 4 {
        '4'
    } else if d == 5 {
        '5'
    } else if d == 6 {
        '6'
    } else if d == 7 {
        '7'
    } else if d == 8 {
        '8'
    } else {
        '9'
    }
}

/// `v` written in decimal, without sign or leading zeros.
pub open spec fn decimal_text(v: nat) -> Seq<char>
    decreases v,
{
    if v < 10 {
        seq![digit_char(v as int)]
    } else {
        decimal_text(v / 10).push(digit_char((v % 10) as int))
    }
}

/// The decimal text of `v` is a non-empty string of digits that writes `v`.
pub proof fn lemma_decimal_text_value(v: nat)
    ensures
        decimal_text(v).len() > 0,
        forall|i: int|
            0 <= i < decimal_text(v).len() ==> is_decimal_digit(#[trigger] decimal_text(v)[i]),
        digits_value(decimal_text(v)) == v,
    decreases v,
{
    let t = decimal_text(v);
    if v < 10 {
        assert(t.drop_last() =~= Seq::<char>::empty());
        assert(digits_value(t.drop_last()) == 0);
        assert(t.last() == digit_char(v as int));
        assert(digit_char(v as int) as u32 - '0' as u32 == v);
    } else {
        lemma_decimal_text_value(v / 10);
        let d = (v % 10) as int;
        assert(t.drop_last() =~= decimal_text(v / 10));
        assert(digit_char(d) as u32 - '0' as u32 == d);
        assert(t.last() == digit_char(d));
        assert(v == (v / 10) * 10 + d);
        assert forall|i: int| 0 <= i < t.len() implies is_decimal_digit(#[trigger] t[i]) by {
            if i < t.len() - 1 {
                assert(t[i] == decimal_text(v / 10)[i]);
            }
        }
    }
}

/// Cutting `x`, a separator, then `y` gives the pieces of `x` followed by the
/// pieces of `y`.
pub proof fn lemma_split_pieces_concat<T>(x: Seq<T>, y: Seq<T>, sep: T)
    ensures
        split_pieces(x + seq![sep] + y, sep) == split_pieces(x, sep) + split_pieces(y, sep),
    decreases y.len(),
{
    let z = x + seq![sep] + y;
    lemma_split_pieces_nonempty(x, sep);
    if y.len() == 0 {
        assert(z.drop_last() =~= x);
        assert(split_pieces(y, sep) =~= seq![Seq::<T>::empty()]);
        assert(split_pieces(x, sep).push(Seq::<T>::empty()) =~= split_pieces(x, sep)
            + split_pieces(y, sep));
    } else {
        lemma_split_pieces_concat(x, y.drop_last(), sep);
        lemma_split_pieces_nonempty(y.drop_last(), sep);
        assert(z.drop_last() =~= x + seq![sep] + y.drop_last());
        assert(z.last() == y.last());
        let a = split_pieces(x, sep);
        let b = split_pieces(y.drop_last(), sep);
        if y.last() == sep {
            assert((a + b).push(Seq::<T>::empty()) =~= a + b.push(Seq::<T>::empty()));
        } else {
            assert((a + b).update((a + b).len() - 1, (a + b).last().push(y.last())) =~= a
                + b.update(b.len() - 1, b.last().push(y.last())));
        }
    }
}

/// A text without the separator is a single piece.
pub proof fn lemma_split_pieces_single<T>(x: Seq<T>, sep: T)
    requires
        forall|i: int| 0 <= i < x.len() ==> x[i] != sep,
    ensures
        split_pieces(x, sep) == seq![x],
    decreases x.len(),
{
    if x.len() > 0 {
        lemma_split_pieces_single(x.drop_last(), sep);
        assert(x.drop_last().push(x.last()) =~= x);
        assert(seq![x.drop_last()].update(0, x.drop_last().push(x.last())) =~= seq![x]);
    } else {
        assert(x =~= Seq::<T>::empty());
    }
}

/// The decimal text of a number has no whitespace to trim and reads back as
/// that number.
pub proof fn lemma_decimal_text_reads_back(v: u64)
    ensures
        trim_white_space(decimal_text(v as nat)) == decimal_text(v as nat),
        decimal_u64(trim_white_space(decimal_text(v as nat))) == Some(v),
        forall|i: int|
            0 <= i < decimal_text(v as nat).len() ==> #[trigger] decimal_text(v as nat)[i] != ',',
{
    let t = decimal_text(v as nat);
    lemma_decimal_text_value(v as nat);
    assert(is_decimal_digit(t[0]));
    assert(is_decimal_digit(t.last()));
    assert(trim_start(t) == t);
    assert(trim_end(t) == t);
    assert(unsigned_digits(t) == t);
    assert forall|i: int| 0 <= i < t.len() implies #[trigger] t[i] != ',' by {
        assert(is_decimal_digit(t[i]));
    }
}

} // verus!
