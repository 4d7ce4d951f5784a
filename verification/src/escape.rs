//! Escapes in string literals.
//!
//! The ordinary code and the novel DSL both read string literals through
//! this module, so the same text means the same string in both; the table
//! of escapes lives only here.
//!
//! Only forms that are written and read the same way in every language are
//! accepted. Forms on which languages disagree (`\u{..}`, `\uXXXX`, ...)
//! are refused until decided, and an unknown escape is an error rather than
//! a kept backslash. `\'` is not an escape: literals are always enclosed in
//! `"`, so `'` is written as is.

use vstd::prelude::*;
use crate::text::{char_len_utf8, char_width, chars_of, push_char, utf8_len,
    lemma_utf8_len_take_step, lemma_utf8_len_take_le};

verus! {

/// The characters that may follow `\`, in table order.
pub open spec fn escape_sources() -> Seq<char> {
    seq!['"', '\\', 'n', 't', 'r']
}

/// What `\c` stands for, or `None` when `c` is not an escape.
pub open spec fn spec_unescape_char(c: char) -> Option<char> {
    if c == '"' {
        Some('"')
    } else if c == '\\' {
        Some('\\')
    } else if c == 'n' {
        Some('\n')
    } else if c == 't' {
        Some('\t')
    } else if c == 'r' {
        Some('\r')
    } else {
        None
    }
}

/// Turns the character after `\` into the character it stands for.
/// `None` for a character that is not an escape.
pub fn unescape_char(c: char) -> (r: Option<char>)
    ensures
        r == spec_unescape_char(c),
{
    if c == '"' {
        Some('"')
    } else if c == '\\' {
        Some('\\')
    } else if c == 'n' {
        Some('\n')
    } else if c == 't' {
        Some('\t')
    } else if c == 'r' {
        Some('\r')
    } else {
        None
    }
}

/// `` `\c` `` for one escape source `c`.
pub open spec fn escape_listing_item(c: char) -> Seq<char> {
    seq!['`', '\\', c, '`']
}

/// The listing of `srcs`, each as `` `\c` ``, separated by `", "`.
pub open spec fn escape_listing(srcs: Seq<char>) -> Seq<char>
    decreases srcs.len(),
{
    if srcs.len() == 0 {
        Seq::empty()
    } else if srcs.len() == 1 {
        escape_listing_item(srcs[0])
    } else {
        escape_listing(srcs.drop_last()) + seq![',', ' '] + escape_listing_item(srcs.last())
    }
}

/// The escapes that may be written, in a form fit for a diagnostic.
pub fn known_escapes() -> (r: String)
    ensures
        r@ == escape_listing(escape_sources()),
{
    let srcs = ['"', '\\', 'n', 't', 'r'];
    assert(srcs@ =~= escape_sources());
    let mut out = String::new();
    let mut i: usize = 0;
    while i < 5
        invariant
            i <= 5,
            srcs@ == escape_sources(),
            out@ == escape_listing(escape_sources().take(i as int)),
        decreases 5 - i,
    {
        let ghost before = out@;
        if i > 0 {
            push_char(&mut out, ',');
            push_char(&mut out, ' ');
        }
        push_char(&mut out, '`');
        push_char(&mut out, '\\');
        push_char(&mut out, srcs[i]);
        push_char(&mut out, '`');
        proof {
            let t = escape_sources().take(i + 1);
            assert(t.drop_last() =~= escape_sources().take(i as int));
            assert(t.last() == srcs@[i as int]);
            if i == 0 {
                assert(before =~= Seq::<char>::empty());
                assert(out@ =~= escape_listing_item(t[0]));
            } else {
                assert(out@ =~= before + seq![',', ' '] + escape_listing_item(t.last()));
            }
        }
        i = i + 1;
    }
    assert(escape_sources().take(5) =~= escape_sources());
    out
}

#[derive(Debug, Clone, PartialEq, Eq, Structural)]
pub enum EscapeError {
    /// An unknown escape. `offset` is the byte position of the `\`
    /// from the start of the body.
    Unknown { offset: usize, found: char },
    /// The body ends in `\`.
    Trailing { offset: usize },
}

/// The expansion of `cs`, a body whose first character sits `base`
/// bytes into the literal.
pub open spec fn spec_unescape_from(cs: Seq<char>, base: int) -> Result<Seq<char>, EscapeError>
    decreases cs.len(),
{
    if cs.len() == 0 {
        Ok(Seq::empty())
    } else if cs[0] != '\\' {
        match spec_unescape_from(cs.drop_first(), base + char_width(cs[0])) {
            Ok(rest) => Ok(seq![cs[0]] + rest),
            Err(e) => Err(e),
        }
    } else if cs.len() == 1 {
        Err(EscapeError::Trailing { offset: base as usize })
    } else {
        match spec_unescape_char(cs[1]) {
            None => Err(EscapeError::Unknown { offset: base as usize, found: cs[1] }),
            Some(u) => match spec_unescape_from(cs.skip(2), base + 1 + char_width(cs[1])) {
                Ok(rest) => Ok(seq![u] + rest),
                Err(e) => Err(e),
            },
        }
    }
}

/// The expansion of a literal body.
pub open spec fn spec_unescape(cs: Seq<char>) -> Result<Seq<char>, EscapeError> {
    spec_unescape_from(cs, 0)
}

/// Expands the **body** of a string literal (without its enclosing `"`).
///
/// Finding the closing `"` is the caller's job ([`string_body_end`]);
/// the body given here holds no unescaped `"`.
pub fn unescape(body: &str) -> (r: Result<String, EscapeError>)
    requires
        utf8_len(body@) <= usize::MAX,
    ensures
        match (r, spec_unescape(body@)) {
            (Ok(s), Ok(t)) => s@ == t,
            (Err(e), Err(f)) => e == f,
            _ => false,
        },
{
    let cs = chars_of(body);
    let ghost whole = cs@;
    let mut out = String::new();
    let mut i: usize = 0;
    let mut off: usize = 0;
    proof {
        assert(whole.skip(0) =~= whole);
        assert(whole.take(0) =~= Seq::<char>::empty());
        match spec_unescape_from(whole, 0) {
            Ok(t) => {
                assert(out@ + t =~= t);
            },
            Err(_) => {},
        }
    }
    while i < cs.len()
        invariant
            cs@ == whole,
            whole == body@,
            utf8_len(whole) <= usize::MAX,
            i <= whole.len(),
            off == utf8_len(whole.take(i as int)),
            spec_unescape(whole) == match spec_unescape_from(whole.skip(i as int), off as int) {
                Ok(rest) => Ok(out@ + rest),
                Err(e) => Err(e),
            },
        decreases whole.len() - i,
    {
        let ghost rest = whole.skip(i as int);
        let c = cs[i];
        proof {
            lemma_utf8_len_take_step(whole, i as int);
            lemma_utf8_len_take_le(whole, i + 1);
        }
        if c != '\\' {
            let ghost before = out@;
            push_char(&mut out, c);
            assert(rest.drop_first() =~= whole.skip(i + 1));
            proof {
                match spec_unescape_from(whole.skip(i + 1), off + char_width(c)) {
                    Ok(t) => {
                        assert(before + (seq![c] + t) =~= out@ + t);
                    },
                    Err(_) => {},
                }
            }
            off = off + char_len_utf8(c);
            i = i + 1;
        } else if i + 1 == cs.len() {
            assert(rest.len() == 1);
            return Err(EscapeError::Trailing { offset: off });
        } else {
            let next = cs[i + 1];
            assert(rest[1] == next);
            match unescape_char(next) {
                Some(u) => {
                    let ghost before = out@;
                    push_char(&mut out, u);
                    proof {
                        assert(rest.skip(2) =~= whole.skip(i + 2));
                        lemma_utf8_len_take_step(whole, i + 1);
                        lemma_utf8_len_take_le(whole, i + 2);
                        match spec_unescape_from(whole.skip(i + 2), off + 1 + char_width(next)) {
                            Ok(t) => {
                                assert(before + (seq![u] + t) =~= out@ + t);
                            },
                            Err(_) => {},
                        }
                    }
                    off = off + 1 + char_len_utf8(next);
                    i = i + 2;
                },
                None => {
                    return Err(EscapeError::Unknown { offset: off, found: next });
                },
            }
        }
    }
    proof {
        assert(whole.skip(i as int) =~= Seq::<char>::empty());
        assert(out@ + Seq::<char>::empty() =~= out@);
    }
    Ok(out)
}

/// The byte length up to the closing `"` in `cs`, whose first character
/// sits `base` bytes in; `None` when there is no closing quote.
pub open spec fn spec_body_end_from(cs: Seq<char>, base: int) -> Option<int>
    decreases cs.len(),
{
    if cs.len() == 0 {
        None
    } else if cs[0] == '"' {
        Some(base)
    } else if cs[0] == '\\' {
        if cs.len() == 1 {
            None
        } else {
            spec_body_end_from(cs.skip(2), base + 1 + char_width(cs[1]))
        }
    } else {
        spec_body_end_from(cs.drop_first(), base + char_width(cs[0]))
    }
}

/// Looks at the text that starts right **after** an opening `"` and gives
/// the number of bytes up to the closing `"`.
///
/// `\"` does not close. `None` when no closing quote is found.
pub fn string_body_end(after_open_quote: &str) -> (r: Option<usize>)
    requires
        utf8_len(after_open_quote@) <= usize::MAX,
    ensures
        match spec_body_end_from(after_open_quote@, 0) {
            Some(n) => r == Some(n as usize),
            None => r is None,
        },
{
    let cs = chars_of(after_open_quote);
    let ghost whole = cs@;
    let mut i: usize = 0;
    let mut off: usize = 0;
    proof {
        assert(whole.skip(0) =~= whole);
        assert(whole.take(0) =~= Seq::<char>::empty());
    }
    while i < cs.len()
        invariant
            cs@ == whole,
            whole == after_open_quote@,
            utf8_len(whole) <= usize::MAX,
            i <= whole.len(),
            off == utf8_len(whole.take(i as int)),
            spec_body_end_from(whole, 0) == spec_body_end_from(whole.skip(i as int), off as int),
        decreases whole.len() - i,
    {
        let ghost rest = whole.skip(i as int);
        let c = cs[i];
        proof {
            lemma_utf8_len_take_step(whole, i as int);
            lemma_utf8_len_take_le(whole, i + 1);
        }
        if c == '"' {
            return Some(off);
        } else if c == '\\' {
            if i + 1 == cs.len() {
                return None;
            }
            let next = cs[i + 1];
            proof {
                assert(rest.skip(2) =~= whole.skip(i + 2));
                lemma_utf8_len_take_step(whole, i + 1);
                lemma_utf8_len_take_le(whole, i + 2);
            }
            off = off + 1 + char_len_utf8(next);
            i = i + 2;
        } else {
            assert(rest.drop_first() =~= whole.skip(i + 1));
            off = off + char_len_utf8(c);
            i = i + 1;
        }
    }
    None
}

/// A body without `\` expands to itself.
pub proof fn lemma_unescape_plain_text(cs: Seq<char>, base: int)
    requires
        forall|k: int| 0 <= k < cs.len() ==> cs[k] != '\\',
    ensures
        spec_unescape_from(cs, base) == Ok::<Seq<char>, EscapeError>(cs),
    decreases cs.len(),
{
    if cs.len() > 0 {
        assert forall|k: int| 0 <= k < cs.drop_first().len() implies cs.drop_first()[k] != '\\' by {
            assert(cs.drop_first()[k] == cs[k + 1]);
        }
        lemma_unescape_plain_text(cs.drop_first(), base + char_width(cs[0]));
        assert(seq![cs[0]] + cs.drop_first() =~= cs);
    } else {
        assert(cs =~= Seq::<char>::empty());
    }
}


/// Where a body expands, the place it starts at changes nothing of what
/// it expands to.
proof fn lemma_unescape_any_base(cs: Seq<char>, b1: int, b2: int)
    ensures
        spec_unescape_from(cs, b1) is Ok ==> spec_unescape_from(cs, b2) == spec_unescape_from(cs, b1),
    decreases cs.len(),
{
    if cs.len() > 0 {
        if cs[0] != '\\' {
            lemma_unescape_any_base(cs.drop_first(), b1 + char_width(cs[0]), b2 + char_width(cs[0]));
        } else if cs.len() >= 2 {
            lemma_unescape_any_base(cs.skip(2), b1 + 1 + char_width(cs[1]), b2 + 1 + char_width(cs[1]));
        }
    }
}

/// After a prefix that expands, the rest expands as it would alone (from
/// some place): the two expansions are joined, or the rest's error comes.
proof fn lemma_unescape_split(a: Seq<char>, b: Seq<char>, base: int) -> (base2: int)
    requires
        spec_unescape_from(a, base) is Ok,
    ensures
        spec_unescape_from(a + b, base) == match spec_unescape_from(b, base2) {
            Ok(y) => Ok::<Seq<char>, EscapeError>(spec_unescape_from(a, base)->Ok_0 + y),
            Err(e) => Err(e),
        },
    decreases a.len(),
{
    if a.len() == 0 {
        assert(a + b =~= b);
        match spec_unescape_from(b, base) {
            Ok(y) => {
                assert(spec_unescape_from(a, base)->Ok_0 + y =~= y);
            },
            Err(_) => {},
        }
        base
    } else if a[0] != '\\' {
        let w = base + char_width(a[0]);
        let b2 = lemma_unescape_split(a.drop_first(), b, w);
        assert((a + b)[0] == a[0]);
        assert((a + b).drop_first() =~= a.drop_first() + b);
        match spec_unescape_from(b, b2) {
            Ok(y) => {
                let x1 = spec_unescape_from(a.drop_first(), w)->Ok_0;
                assert(seq![a[0]] + (x1 + y) =~= (seq![a[0]] + x1) + y);
            },
            Err(_) => {},
        }
        b2
    } else {
        assert(a.len() >= 2);
        let w = base + 1 + char_width(a[1]);
        let b2 = lemma_unescape_split(a.skip(2), b, w);
        assert((a + b)[0] == a[0]);
        assert((a + b)[1] == a[1]);
        assert((a + b).skip(2) =~= a.skip(2) + b);
        match spec_unescape_from(b, b2) {
            Ok(y) => {
                let u = spec_unescape_char(a[1])->0;
                let x1 = spec_unescape_from(a.skip(2), w)->Ok_0;
                assert(seq![u] + (x1 + y) =~= (seq![u] + x1) + y);
            },
            Err(_) => {},
        }
        b2
    }
}

/// Expanding two bodies one after the other: when both expand, their
/// concatenation expands to the concatenation of the two; when the first
/// expands and the second does not, neither does the whole.
pub proof fn lemma_unescape_concat(a: Seq<char>, b: Seq<char>)
    ensures
        spec_unescape(a) is Ok && spec_unescape(b) is Ok ==> spec_unescape(a + b) == Ok::<Seq<char>, EscapeError>(
            spec_unescape(a)->Ok_0 + spec_unescape(b)->Ok_0,
        ),
        spec_unescape(a) is Ok && spec_unescape(b) is Err ==> spec_unescape(a + b) is Err,
{
    if spec_unescape(a) is Ok {
        let b2 = lemma_unescape_split(a, b, 0);
        lemma_unescape_any_base(b, 0, b2);
        lemma_unescape_any_base(b, b2, 0);
    }
}

/// The escapes: after text that expands, `\"`, `\\`, `\n`, `\t` and `\r`
/// add a quote, a backslash, a newline, a tab and a carriage return, wherever
/// they stand, the end of the body included.
pub proof fn lemma_unescape_known_escape(s: Seq<char>, c: char, u: char)
    requires
        (c == '"' && u == '"') || (c == '\\' && u == '\\') || (c == 'n' && u == '\n') || (c == 't' && u == '\t') || (c
            == 'r' && u == '\r'),
    ensures
        spec_unescape(seq!['\\', c]) == Ok::<Seq<char>, EscapeError>(seq![u]),
        spec_unescape(s) is Ok ==> spec_unescape(s + seq!['\\', c]) == Ok::<Seq<char>, EscapeError>(
            spec_unescape(s)->Ok_0.push(u),
        ),
{
    let e = seq!['\\', c];
    assert(e.skip(2) =~= Seq::<char>::empty());
    assert(e[0] == '\\' && e[1] == c && e.len() == 2);
    assert(spec_unescape_char(c) == Some(u));
    assert(spec_unescape_from(e.skip(2), 0int + 1 + char_width(c)) == Ok::<Seq<char>, EscapeError>(Seq::empty()));
    assert(seq![u] + Seq::<char>::empty() =~= seq![u]);
    assert(spec_unescape(e) == Ok::<Seq<char>, EscapeError>(seq![u]));
    lemma_unescape_concat(s, e);
    if spec_unescape(s) is Ok {
        assert(spec_unescape(s)->Ok_0 + seq![u] =~= spec_unescape(s)->Ok_0.push(u));
    }
}

/// A `\` before any other character is an unknown escape, and a `\` that
/// ends the body is a trailing one, after text that expands.
pub proof fn lemma_unescape_bad_escape(s: Seq<char>, c: char)
    ensures
        c != '"' && c != '\\' && c != 'n' && c != 't' && c != 'r' && spec_unescape(s) is Ok ==> spec_unescape(
            s + seq!['\\', c],
        ) == Err::<Seq<char>, EscapeError>(EscapeError::Unknown { offset: (spec_unescape(s + seq!['\\', c])->Err_0->Unknown_offset), found: c }),
        spec_unescape(s) is Ok ==> spec_unescape(s.push('\\')) matches Err(EscapeError::Trailing { .. }),
{
    if spec_unescape(s) is Ok {
        let b2 = lemma_unescape_split(s, seq!['\\', c], 0);
        let b3 = lemma_unescape_split(s, seq!['\\'], 0);
        assert(s.push('\\') =~= s + seq!['\\']);
    }
}

} // verus!
