//! Byte-level primitives shared by the index, header and tabular parsers:
//! ASCII whitespace, decimal numbers, line splitting and tokenization.

use vstd::prelude::*;

verus! {

/// ASCII whitespace: space, tab, line feed, form feed, carriage return.
pub open spec fn is_ws(b: u8) -> bool {
    b == 32 || b == 9 || b == 10 || b == 12 || b == 13
}

/// ASCII decimal digit.
pub open spec fn is_digit(b: u8) -> bool {
    48 <= b && b <= 57
}

pub open spec fn all_digits(s: Seq<u8>) -> bool {
    forall|i: int| 0 <= i < s.len() ==> is_digit(s[i])
}

/// The value of an ASCII decimal numeral.
pub open spec fn dec_value(s: Seq<u8>) -> int
    decreases s.len(),
{
    if s.len() == 0 {
        0
    } else {
        dec_value(s.drop_last()) * 10 + (s.last() - 48)
    }
}

/// Is `b` an ASCII whitespace byte?
pub fn ws_byte(b: u8) -> (r: bool)
    ensures
        r == is_ws(b),
{
    b == 32 || b == 9 || b == 10 || b == 12 || b == 13
}

/// A fresh copy of a byte string.
pub fn copy_bytes(a: &Vec<u8>) -> (r: Vec<u8>)
    ensures
        r@ == a@,
{
    let mut r: Vec<u8> = Vec::new();
    let mut i: usize = 0;
    while i < a.len()
        invariant
            i <= a.len(),
            r@ == a@.subrange(0, i as int),
        decreases a.len() - i,
    {
        let b = a[i];
        r.push(b);
        proof {
            assert(r@ =~= a@.subrange(0, i + 1));
        }
        i += 1;
    }
    proof {
        assert(r@ =~= a@);
    }
    r
}

/// Byte-wise equality of two byte strings.
pub fn bytes_eq(a: &Vec<u8>, b: &Vec<u8>) -> (r: bool)
    ensures
        r <==> a@ == b@,
{
    if a.len() != b.len() {
        return false;
    }
    let mut i: usize = 0;
    while i < a.len()
        invariant
            i <= a.len(),
            a.len() == b.len(),
            forall|j: int| 0 <= j < i ==> a@[j] == b@[j],
        decreases a.len() - i,
    {
        if a[i] != b[i] {
            return false;
        }
        i += 1;
    }
    proof {
        assert(a@ =~= b@);
    }
    true
}

proof fn lemma_dec_value_step(s: Seq<u8>, i: int)
    requires
        0 <= i < s.len(),
    ensures
        dec_value(s.take(i + 1)) == dec_value(s.take(i)) * 10 + (s[i] - 48),
{
    assert(s.take(i + 1).drop_last() =~= s.take(i));
    assert(s.take(i + 1).last() == s[i]);
}

/// A longer numeral never has a smaller value, as long as every byte is a digit.
proof fn lemma_dec_value_prefix_le(s: Seq<u8>, i: int)
    requires
        0 <= i <= s.len(),
        all_digits(s),
    ensures
        dec_value(s.take(i)) <= dec_value(s),
        0 <= dec_value(s.take(i)),
    decreases s.len() - i,
{
    if i == s.len() {
        assert(s.take(i) =~= s);
        lemma_dec_value_nonneg(s);
    } else {
        lemma_dec_value_step(s, i);
        lemma_dec_value_nonneg(s.take(i));
        lemma_dec_value_prefix_le(s, i + 1);
    }
}

pub proof fn lemma_dec_value_nonneg(s: Seq<u8>)
    requires
        all_digits(s),
    ensures
        0 <= dec_value(s),
    decreases s.len(),
{
    if s.len() > 0 {
        assert(all_digits(s.drop_last()));
        lemma_dec_value_nonneg(s.drop_last());
    }
}

/// Parse an unsigned decimal numeral. `None` exactly when the token is empty,
/// holds a non-digit byte, or does not fit in a `u64`.
pub fn parse_u64(s: &Vec<u8>) -> (r: Option<u64>)
    ensures
        (r is Some) <==> (s@.len() > 0 && all_digits(s@) && dec_value(s@) <= u64::MAX),
        r matches Some(v) ==> v == dec_value(s@),
{
    if s.len() == 0 {
        return None;
    }
    let mut val: u64 = 0;
    let mut i: usize = 0;
    while i < s.len()
        invariant
            i <= s.len(),
            s@.len() > 0,
            all_digits(s@.take(i as int)),
            val == dec_value(s@.take(i as int)),
        decreases s.len() - i,
    {
        let b = s[i];
        if b < 48 || b > 57 {
            assert(!is_digit(s@[i as int]));
            return None;
        }
        let d: u64 = (b - 48) as u64;
        if val > (u64::MAX - d) / 10 {
            proof {
                assert(all_digits(s@.take(i + 1))) by {
                    assert(forall|j: int| 0 <= j < i + 1 ==> s@.take(i + 1)[j] == s@[j]);
                }
                lemma_dec_value_step(s@, i as int);
                assert(dec_value(s@.take(i + 1)) > u64::MAX) by {
                    assert(val * 10 + d > u64::MAX) by (nonlinear_arith)
                        requires
                            val > (u64::MAX - d) / 10,
                            d <= 9,
                    {}
                }
                if all_digits(s@) && dec_value(s@) <= u64::MAX {
                    lemma_dec_value_prefix_le(s@, i + 1);
                }
            }
            return None;
        }
        proof {
            lemma_dec_value_step(s@, i as int);
            assert(val * 10 + d <= u64::MAX) by (nonlinear_arith)
                requires
                    val <= (u64::MAX - d) / 10,
                    d <= 9,
            {}
        }
        val = val * 10 + d;
        i += 1;
    }
    proof {
        assert(s@.take(i as int) =~= s@);
    }
    Some(val)
}

/// Index of the first line feed in `s`, or `s.len()` if there is none.
pub open spec fn first_nl(s: Seq<u8>) -> nat
    decreases s.len(),
{
    if s.len() == 0 {
        0
    } else if s[0] == 10 {
        0
    } else {
        1 + first_nl(s.skip(1))
    }
}

pub proof fn lemma_first_nl_le(s: Seq<u8>)
    ensures
        first_nl(s) <= s.len(),
        first_nl(s) < s.len() ==> s[first_nl(s) as int] == 10,
        forall|j: int| 0 <= j < first_nl(s) ==> s[j] != 10,
    decreases s.len(),
{
    if s.len() > 0 && s[0] != 10 {
        lemma_first_nl_le(s.skip(1));
        assert forall|j: int| 0 <= j < first_nl(s) implies s[j] != 10 by {
            if j > 0 {
                assert(s[j] == s.skip(1)[j - 1]);
            }
        }
    }
}

/// `first_nl` is pinned by its characteristic properties.
pub proof fn lemma_first_nl_is(s: Seq<u8>, i: int)
    requires
        0 <= i <= s.len(),
        forall|j: int| 0 <= j < i ==> s[j] != 10,
        i < s.len() ==> s[i] == 10,
    ensures
        first_nl(s) == i,
    decreases s.len(),
{
    if s.len() > 0 && s[0] != 10 {
        assert(forall|j: int| 0 <= j < i - 1 ==> s.skip(1)[j] != 10);
        lemma_first_nl_is(s.skip(1), i - 1);
    }
}

/// A line with a trailing carriage return loses it.
pub open spec fn strip_cr(l: Seq<u8>) -> Seq<u8> {
    if l.len() > 0 && l.last() == 13 {
        l.drop_last()
    } else {
        l
    }
}

/// The lines of a byte buffer, in the manner of buffered line reading:
/// split at each line feed, drop a carriage return that ends a line, and
/// do not produce a final empty line for a trailing line feed.
pub open spec fn lines_of(s: Seq<u8>) -> Seq<Seq<u8>>
    decreases s.len(),
    via lines_of_decreases
{
    if s.len() == 0 {
        Seq::empty()
    } else {
        let i = first_nl(s) as int;
        let line = strip_cr(s.take(i));
        if i == s.len() {
            seq![line]
        } else {
            seq![line] + lines_of(s.skip(i + 1))
        }
    }
}

#[via_fn]
proof fn lines_of_decreases(s: Seq<u8>) {
    lemma_first_nl_le(s);
}

/// Split a buffer into its lines.
pub fn split_lines(data: &Vec<u8>) -> (lines: Vec<Vec<u8>>)
    ensures
        lines.deep_view() == lines_of(data@),
{
    let mut lines: Vec<Vec<u8>> = Vec::new();
    let mut pos: usize = 0;
    proof {
        assert(lines.deep_view() =~~= Seq::<Seq<u8>>::empty());
        assert(data@.skip(0) =~= data@);
        assert(Seq::<Seq<u8>>::empty() + lines_of(data@) =~= lines_of(data@));
    }
    while pos < data.len()
        invariant
            pos <= data.len(),
            lines.deep_view() + lines_of(data@.skip(pos as int)) == lines_of(data@),
        decreases data.len() - pos,
    {
        let ghost rest = data@.skip(pos as int);
        let mut j: usize = pos;
        while j < data.len() && data[j] != 10
            invariant
                pos <= j <= data.len(),
                forall|k: int| pos <= k < j ==> data@[k] != 10,
            decreases data.len() - j,
        {
            j += 1;
        }
        proof {
            assert(forall|k: int| 0 <= k < j - pos ==> rest[k] != 10);
            assert(j < data.len() ==> rest[j - pos] == 10);
            lemma_first_nl_is(rest, j - pos);
        }
        // the raw line is data[pos..j]; strip one trailing carriage return
        let end: usize = if j > pos && data[j - 1] == 13 {
            j - 1
        } else {
            j
        };
        let mut line: Vec<u8> = Vec::new();
        let mut k: usize = pos;
        while k < end
            invariant
                pos <= k <= end <= data.len(),
                line@ == data@.subrange(pos as int, k as int),
            decreases end - k,
        {
            let b = data[k];
            line.push(b);
            proof {
                assert(line@ =~= data@.subrange(pos as int, k + 1));
            }
            k += 1;
        }
        proof {
            assert(rest.take(j - pos) =~= data@.subrange(pos as int, j as int));
            assert(line@ =~= strip_cr(rest.take(j - pos)));
        }
        let ghost old_lines = lines.deep_view();
        lines.push(line);
        proof {
            assert(lines.deep_view() =~~= old_lines.push(line@));
            if j < data.len() {
                assert(data@.skip(j + 1) =~= rest.skip(j - pos + 1));
                assert(old_lines.push(line@) + lines_of(data@.skip(j + 1)) =~= old_lines
                    + lines_of(rest));
            } else {
                assert(j == data.len());
                assert(lines_of(rest) =~= seq![line@]);
                assert(old_lines.push(line@) + lines_of(data@.skip(data@.len() as int))
                    =~= old_lines + lines_of(rest));
            }
        }
        if j == data.len() {
            pos = j;
        } else {
            pos = j + 1;
        }
    }
    proof {
        assert(lines.deep_view() + lines_of(data@.skip(pos as int)) =~= lines.deep_view());
    }
    lines
}

/// Length of the leading run of non-whitespace bytes.
pub open spec fn run_len(s: Seq<u8>) -> nat
    decreases s.len(),
{
    if s.len() == 0 {
        0
    } else if is_ws(s[0]) {
        0
    } else {
        1 + run_len(s.skip(1))
    }
}

pub proof fn lemma_run_len_le(s: Seq<u8>)
    ensures
        run_len(s) <= s.len(),
        run_len(s) < s.len() ==> is_ws(s[run_len(s) as int]),
        forall|j: int| 0 <= j < run_len(s) ==> !is_ws(s[j]),
    decreases s.len(),
{
    if s.len() > 0 && !is_ws(s[0]) {
        lemma_run_len_le(s.skip(1));
        assert forall|j: int| 0 <= j < run_len(s) implies !is_ws(s[j]) by {
            if j > 0 {
                assert(s[j] == s.skip(1)[j - 1]);
            }
        }
    }
}

pub proof fn lemma_run_len_is(s: Seq<u8>, i: int)
    requires
        0 <= i <= s.len(),
        forall|j: int| 0 <= j < i ==> !is_ws(s[j]),
        i < s.len() ==> is_ws(s[i]),
    ensures
        run_len(s) == i,
    decreases s.len(),
{
    if s.len() > 0 && !is_ws(s[0]) {
        assert(forall|j: int| 0 <= j < i - 1 ==> !is_ws(s.skip(1)[j]));
        lemma_run_len_is(s.skip(1), i - 1);
    }
}

/// The whitespace-separated tokens of a byte string: maximal runs of
/// non-whitespace bytes, in order.
pub open spec fn tokens_of(s: Seq<u8>) -> Seq<Seq<u8>>
    decreases s.len(),
    via tokens_of_decreases
{
    if s.len() == 0 {
        Seq::empty()
    } else if is_ws(s[0]) {
        tokens_of(s.skip(1))
    } else {
        let r = run_len(s) as int;
        seq![s.take(r)] + tokens_of(s.skip(r))
    }
}

#[via_fn]
proof fn tokens_of_decreases(s: Seq<u8>) {
    lemma_run_len_le(s);
}

/// Split a line into its whitespace-separated tokens.
pub fn tokenize(line: &Vec<u8>) -> (tokens: Vec<Vec<u8>>)
    ensures
        tokens.deep_view() == tokens_of(line@),
{
    let mut tokens: Vec<Vec<u8>> = Vec::new();
    let mut pos: usize = 0;
    proof {
        assert(tokens.deep_view() =~~= Seq::<Seq<u8>>::empty());
        assert(line@.skip(0) =~= line@);
        assert(Seq::<Seq<u8>>::empty() + tokens_of(line@) =~= tokens_of(line@));
    }
    while pos < line.len()
        invariant
            pos <= line.len(),
            tokens.deep_view() + tokens_of(line@.skip(pos as int)) == tokens_of(line@),
        decreases line.len() - pos,
    {
        let b = line[pos];
        if ws_byte(b) {
            proof {
                assert(line@.skip(pos as int).skip(1) =~= line@.skip(pos + 1));
            }
            pos += 1;
        } else {
            let ghost rest = line@.skip(pos as int);
            let mut j: usize = pos;
            while j < line.len() && !ws_byte(line[j])
                invariant
                    pos <= j <= line.len(),
                    forall|k: int| pos <= k < j ==> !is_ws(line@[k]),
                decreases line.len() - j,
            {
                j += 1;
            }
            proof {
                assert(forall|k: int| 0 <= k < j - pos ==> !is_ws(rest[k]));
                assert(j < line.len() ==> is_ws(rest[j - pos]));
                lemma_run_len_is(rest, j - pos);
            }
            let mut tok: Vec<u8> = Vec::new();
            let mut k: usize = pos;
            while k < j
                invariant
                    pos <= k <= j <= line.len(),
                    tok@ == line@.subrange(pos as int, k as int),
                decreases j - k,
            {
                let c = line[k];
                tok.push(c);
                proof {
                    assert(tok@ =~= line@.subrange(pos as int, k + 1));
                }
                k += 1;
            }
            let ghost old_tokens = tokens.deep_view();
            proof {
                assert(rest.take(j - pos) =~= line@.subrange(pos as int, j as int));
                assert(tok@ =~= rest.take(j - pos));
            }
            tokens.push(tok);
            proof {
                assert(tokens.deep_view() =~~= old_tokens.push(tok@));
                assert(line@.skip(j as int) =~= rest.skip(j - pos));
                assert(old_tokens.push(tok@) + tokens_of(line@.skip(j as int)) =~= old_tokens
                    + tokens_of(rest));
            }
            pos = j;
        }
    }
    proof {
        assert(tokens.deep_view() + tokens_of(line@.skip(pos as int)) =~= tokens.deep_view());
    }
    tokens
}

} // verus!
