//! Decimal text of unsigned integers, and splitting text at a separator.

use vstd::prelude::*;
use crate::text::push_char;

verus! {

pub open spec fn is_digit(c: char) -> bool {
    '0' <= c && c <= '9'
}

pub open spec fn digit_value(c: char) -> int {
    (c as u32) - ('0' as u32)
}

pub open spec fn digit_char(d: int) -> char {
    ((d + ('0' as u32)) as u32) as char
}

pub open spec fn all_digits(cs: Seq<char>) -> bool {
    forall|k: int| 0 <= k < cs.len() ==> is_digit(#[trigger] cs[k])
}

/// The number written by the decimal digits `cs` (most significant first).
pub open spec fn digits_value(cs: Seq<char>) -> nat
    decreases cs.len(),
{
    if cs.len() == 0 {
        0
    } else {
        (digits_value(cs.drop_last()) * 10 + digit_value(cs.last())) as nat
    }
}

/// `usize::from_str`: an optional `+`, then at least one decimal digit,
/// for a value that fits in `usize`.
pub open spec fn spec_parse_usize(cs: Seq<char>) -> Option<usize> {
    let ds = if cs.len() > 0 && cs[0] == '+' {
        cs.drop_first()
    } else {
        cs
    };
    if ds.len() == 0 || !all_digits(ds) || digits_value(ds) > usize::MAX {
        None
    } else {
        Some(digits_value(ds) as usize)
    }
}

/// The decimal text of `n`, without leading zeros.
pub open spec fn decimal(n: nat) -> Seq<char>
    decreases n,
{
    if n < 10 {
        seq![digit_char(n as int)]
    } else {
        decimal(n / 10).push(digit_char((n % 10) as int))
    }
}

proof fn lemma_digit_char(d: int)
    requires
        0 <= d < 10,
    ensures
        is_digit(digit_char(d)),
        digit_value(digit_char(d)) == d,
{
    let u = (d + ('0' as u32)) as u32;
    assert(0x30 <= u <= 0x39);
    assert((u as char) as u32 == u) by {
        vstd::utf8::char_u32_cast(u as char, (u as char) as u32);
    }
}

/// The decimal text of a number is digits that read back as the number.
pub proof fn lemma_decimal_digits(n: nat)
    ensures
        decimal(n).len() > 0,
        all_digits(decimal(n)),
        digits_value(decimal(n)) == n,
    decreases n,
{
    if n < 10 {
        lemma_digit_char(n as int);
        assert(decimal(n).drop_last() =~= Seq::<char>::empty());
        assert(digits_value(decimal(n).drop_last()) == 0);
        assert(decimal(n).last() == digit_char(n as int));
    } else {
        lemma_decimal_digits(n / 10);
        lemma_digit_char((n % 10) as int);
        let d = decimal(n);
        assert(d.drop_last() =~= decimal(n / 10));
        assert(d.last() == digit_char((n % 10) as int));
        assert(n == (n / 10) * 10 + n % 10);
        assert(digits_value(d.drop_last()) == n / 10);
        assert(digit_value(d.last()) == n % 10);
        assert(digits_value(d) == digits_value(d.drop_last()) * 10 + digit_value(d.last()));
        assert forall|k: int| 0 <= k < d.len() implies is_digit(#[trigger] d[k]) by {
            if k < d.len() - 1 {
                assert(d[k] == decimal(n / 10)[k]);
            }
        }
    }
}

/// Reading back the decimal text of `n` gives `n`.
pub proof fn lemma_parse_decimal(n: usize)
    ensures
        spec_parse_usize(decimal(n as nat)) == Some(n),
{
    lemma_decimal_digits(n as nat);
}

/// `usize::from_str`.
pub fn parse_usize(cs: &[char]) -> (r: Option<usize>)
    ensures
        r == spec_parse_usize(cs@),
{
    let start: usize = if cs.len() > 0 && cs[0] == '+' { 1 } else { 0 };
    let ghost ds = if cs@.len() > 0 && cs@[0] == '+' { cs@.drop_first() } else { cs@ };
    assert(ds =~= cs@.skip(start as int));
    if start == cs.len() {
        return None;
    }
    let mut v: usize = 0;
    let mut i: usize = start;
    while i < cs.len()
        invariant
            start <= i <= cs@.len(),
            start < cs@.len(),
            start == (if cs@.len() > 0 && cs@[0] == '+' { 1int } else { 0int }),
            ds == (if cs@.len() > 0 && cs@[0] == '+' { cs@.drop_first() } else { cs@ }),
            ds == cs@.skip(start as int),
            all_digits(cs@.subrange(start as int, i as int)),
            v as nat == digits_value(cs@.subrange(start as int, i as int)),
        decreases cs@.len() - i,
    {
        let c = cs[i];
        let ghost sub = cs@.subrange(start as int, i + 1);
        assert(sub.drop_last() =~= cs@.subrange(start as int, i as int));
        if !('0' <= c && c <= '9') {
            assert(ds[i - start] == c);
            assert(!is_digit(ds[i - start]));
            assert(!all_digits(ds));
            return None;
        }
        let d = (c as u32 - '0' as u32) as usize;
        if v > (usize::MAX - d) / 10 {
            proof {
                // Every longer prefix reads back at least as large.
                assert(digits_value(sub) > usize::MAX) by (nonlinear_arith)
                    requires
                        digits_value(sub) == v * 10 + d,
                        v > (usize::MAX - d) / 10,
                        d <= 9,
                ;
                if all_digits(ds) {
                    lemma_digits_value_prefix_le(ds, (i + 1 - start) as int);
                    assert(ds.take((i + 1 - start) as int) =~= sub);
                }
            }
            return None;
        }
        v = v * 10 + d;
        i = i + 1;
        assert forall|k: int| 0 <= k < sub.len() implies is_digit(#[trigger] sub[k]) by {
            if k < sub.len() - 1 {
                assert(sub[k] == cs@.subrange(start as int, i - 1)[k]);
            }
        }
    }
    assert(cs@.subrange(start as int, cs@.len() as int) =~= ds);
    Some(v)
}

/// A longer run of digits reads back at least as large as its prefix.
pub proof fn lemma_digits_value_prefix_le(cs: Seq<char>, i: int)
    requires
        0 <= i <= cs.len(),
        all_digits(cs),
    ensures
        digits_value(cs.take(i)) <= digits_value(cs),
    decreases cs.len() - i,
{
    if i < cs.len() {
        lemma_digits_value_prefix_le(cs, i + 1);
        let t = cs.take(i + 1);
        assert(t.drop_last() =~= cs.take(i));
        assert(is_digit(cs[i]));
        assert(t.last() == cs[i]);
    } else {
        assert(cs.take(i) =~= cs);
    }
}

/// Appends the decimal text of `n`.
pub fn push_decimal(s: &mut String, n: usize)
    ensures
        final(s)@ == old(s)@ + decimal(n as nat),
    decreases n,
{
    if n >= 10 {
        push_decimal(s, n / 10);
    }
    let d = n % 10;
    let c = char_of_digit(d);
    push_char(s, c);
    if n >= 10 {
        assert(s@ =~= old(s)@ + decimal(n as nat));
    } else {
        assert(s@ =~= old(s)@ + decimal(n as nat));
    }
}

/// Appends the decimal text of a 128-bit `n`.
pub fn push_decimal_u128(s: &mut String, n: u128)
    ensures
        final(s)@ == old(s)@ + decimal(n as nat),
    decreases n,
{
    if n >= 10 {
        push_decimal_u128(s, n / 10);
    }
    let d = (n % 10) as usize;
    let c = char_of_digit(d);
    push_char(s, c);
    assert(s@ =~= old(s)@ + decimal(n as nat));
}

fn char_of_digit(d: usize) -> (c: char)
    requires
        d < 10,
    ensures
        c == digit_char(d as int),
{
    if d == 0 { '0' } else if d == 1 { '1' } else if d == 2 { '2' } else if d == 3 { '3' }
    else if d == 4 { '4' } else if d == 5 { '5' } else if d == 6 { '6' } else if d == 7 { '7' }
    else if d == 8 { '8' } else { '9' }
}

/// `s.split(sep)`: the pieces of `cs` between occurrences of `sep`.
pub open spec fn spec_split(cs: Seq<char>, sep: char) -> Seq<Seq<char>>
    decreases cs.len(),
{
    if cs.len() == 0 {
        seq![Seq::empty()]
    } else {
        let r = spec_split(cs.drop_last(), sep);
        if cs.last() == sep {
            r.push(Seq::empty())
        } else {
            r.update(r.len() - 1, r.last().push(cs.last()))
        }
    }
}

pub open spec fn views_of(v: Seq<Vec<char>>) -> Seq<Seq<char>> {
    v.map_values(|x: Vec<char>| x@)
}

/// Splits `cs` at every `sep`.
pub fn split_chars(cs: &[char], sep: char) -> (r: Vec<Vec<char>>)
    ensures
        views_of(r@) == spec_split(cs@, sep),
{
    let mut done: Vec<Vec<char>> = Vec::new();
    let mut cur: Vec<char> = Vec::new();
    let mut i: usize = 0;
    assert(cs@.take(0) =~= Seq::<char>::empty());
    assert(views_of(done@).push(cur@) =~= spec_split(cs@.take(0), sep));
    while i < cs.len()
        invariant
            i <= cs@.len(),
            views_of(done@).push(cur@) == spec_split(cs@.take(i as int), sep),
        decreases cs@.len() - i,
    {
        let c = cs[i];
        let ghost t = cs@.take(i + 1);
        assert(t.drop_last() =~= cs@.take(i as int));
        assert(t.last() == c);
        proof {
            lemma_split_len(cs@.take(i as int), sep);
        }
        if c == sep {
            let finished = cur;
            done.push(finished);
            cur = Vec::new();
            assert(views_of(done@).push(cur@) =~= spec_split(t, sep));
        } else {
            let ghost old_done = done@;
            cur.push(c);
            assert(views_of(done@).push(cur@) =~= spec_split(t, sep));
        }
        i = i + 1;
    }
    assert(cs@.take(cs@.len() as int) =~= cs@);
    done.push(cur);
    done
}

/// Splitting after a separator opens a new, empty piece.
pub proof fn lemma_split_push_sep(p: Seq<char>, sep: char)
    ensures
        spec_split(p + seq![sep], sep) == spec_split(p, sep).push(Seq::empty()),
{
    let q = p + seq![sep];
    assert(q.drop_last() =~= p);
    assert(q.last() == sep);
}

/// Text without the separator extends the last piece.
pub proof fn lemma_split_append_plain(p: Seq<char>, y: Seq<char>, sep: char)
    requires
        forall|k: int| 0 <= k < y.len() ==> y[k] != sep,
    ensures
        spec_split(p + y, sep).len() == spec_split(p, sep).len(),
        spec_split(p + y, sep) == spec_split(p, sep).update(
            spec_split(p, sep).len() - 1,
            spec_split(p, sep).last() + y,
        ),
    decreases y.len(),
{
    lemma_split_len(p, sep);
    if y.len() == 0 {
        assert(p + y =~= p);
        assert(spec_split(p, sep).last() + y =~= spec_split(p, sep).last());
        assert(spec_split(p, sep).update(spec_split(p, sep).len() - 1, spec_split(p, sep).last())
            =~= spec_split(p, sep));
    } else {
        let y1 = y.drop_last();
        assert forall|k: int| 0 <= k < y1.len() implies y1[k] != sep by {
            assert(y1[k] == y[k]);
        }
        lemma_split_append_plain(p, y1, sep);
        let q = p + y;
        assert(q.drop_last() =~= p + y1);
        assert(q.last() == y.last());
        let r = spec_split(p, sep);
        let r1 = spec_split(p + y1, sep);
        assert(y[y.len() - 1] != sep);
        assert(q.last() != sep);
        assert(r1.len() == r.len());
        assert(r1.last() == r.last() + y1);
        assert(spec_split(q, sep) == r1.update(r1.len() - 1, r1.last().push(q.last())));
        assert((r.last() + y1).push(y.last()) =~= r.last() + y);
        assert(spec_split(q, sep) =~= r.update(r.len() - 1, r.last() + y));
    }
}

/// Splitting gives at least one piece, empty text included.
pub proof fn lemma_split_len(p: Seq<char>, sep: char)
    ensures
        spec_split(p, sep).len() >= 1,
    decreases p.len(),
{
    if p.len() > 0 {
        lemma_split_len(p.drop_last(), sep);
    }
}

} // verus!
