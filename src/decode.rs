//! The frame decoder: bytes to one protocol value and the number of bytes it spans.
use vstd::prelude::*;
use crate::value::{Frame, RespValue, CR, LF};
use vstd::slice::{slice_subrange, slice_to_vec};

verus! {

/// Why a buffer does not start with a complete, well-formed frame.
#[derive(Debug, PartialEq, Eq, Structural, Clone, Copy)]
pub enum DecodeError {
    /// The buffer is empty or starts with a type tag that is not recognised.
    UnsupportedOrEmpty,
    /// A length line is not a decimal number, or a payload is not followed by CRLF.
    MalformedLength,
    /// The frame is valid so far but not all of its bytes have arrived.
    Incomplete,
}

pub open spec fn is_digit(b: u8) -> bool {
    48 <= b <= 57
}

/// The value of a sequence of decimal digits.
pub open spec fn digits_value(s: Seq<u8>) -> nat
    decreases s.len(),
{
    if s.len() == 0 {
        0
    } else {
        digits_value(s.drop_last()) * 10 + (s.last() - 48) as nat
    }
}

/// A non-empty run of decimal digits.
pub open spec fn all_digits(s: Seq<u8>) -> bool {
    s.len() > 0 && forall|k: int| 0 <= k < s.len() ==> is_digit(#[trigger] s[k])
}

/// The decimal number that `s` spells, if it spells one no greater than `max`.
pub open spec fn decimal_at_most(s: Seq<u8>, max: nat) -> Option<nat> {
    if all_digits(s) && digits_value(s) <= max {
        Some(digits_value(s))
    } else {
        None
    }
}

/// The index of the first carriage return at or after `i`, or -1.
pub open spec fn first_cr(s: Seq<u8>, i: int) -> int
    decreases s.len() - i,
{
    if i < 0 || i >= s.len() {
        -1
    } else if s[i] == CR {
        i
    } else {
        first_cr(s, i + 1)
    }
}

/// Reads the length line that starts at `i`: the number and the index after its line end.
pub open spec fn spec_header(s: Seq<u8>, i: int) -> Result<(nat, int), DecodeError> {
    let e = first_cr(s, i);
    if e < i || e + 2 > s.len() {
        Err(DecodeError::Incomplete)
    } else {
        match decimal_at_most(s.subrange(i, e), usize::MAX as nat) {
            Some(n) => Ok((n, e + 2)),
            None => Err(DecodeError::MalformedLength),
        }
    }
}

/// Decodes the frame that starts at `i` of `s`: the value and the index just after it.
/// A frame that has not begun to arrive (`i` at the end) is incomplete.
pub open spec fn spec_value(s: Seq<u8>, i: int) -> Result<(Frame, int), DecodeError>
    decreases s.len() - i, 0int, 0int,
{
    if i < 0 || i >= s.len() {
        Err(DecodeError::Incomplete)
    } else if s[i] == 36 {
        match spec_header(s, i + 1) {
            Err(e) => Err(e),
            Ok((n, j)) => if j + n + 2 > s.len() {
                Err(DecodeError::Incomplete)
            } else if s[j + n] != CR || s[j + n + 1] != LF {
                Err(DecodeError::MalformedLength)
            } else {
                Ok((Frame::Bulk(s.subrange(j, j + n)), j + n + 2))
            },
        }
    } else if s[i] == 42 {
        match spec_header(s, i + 1) {
            Err(e) => Err(e),
            Ok((n, j)) => match spec_items(s, j, n) {
                Err(e) => Err(e),
                Ok((items, k)) => Ok((Frame::Array(items), k)),
            },
        }
    } else {
        Err(DecodeError::UnsupportedOrEmpty)
    }
}

/// Decodes `n` frames one after another from index `i`.
pub open spec fn spec_items(s: Seq<u8>, i: int, n: nat) -> Result<(Seq<Frame>, int), DecodeError>
    decreases s.len() - i, 1int, n,
{
    if n == 0 {
        Ok((Seq::empty(), i))
    } else {
        match spec_value(s, i) {
            Err(e) => Err(e),
            // A decoded frame always spans at least one byte of `s` (lemma_value_bounds),
            // so this branch is never taken; it makes the recursion visibly well-founded.
            Ok((f, j)) => if j <= i || j > s.len() {
                Err(DecodeError::Incomplete)
            } else {
                match spec_items(s, j, (n - 1) as nat) {
                    Err(e) => Err(e),
                    Ok((rest, k)) => Ok((seq![f] + rest, k)),
                }
            },
        }
    }
}

/// Decodes the frame at the start of a buffer; an empty buffer is refused.
pub open spec fn spec_decode(s: Seq<u8>) -> Result<(Frame, int), DecodeError> {
    if s.len() == 0 {
        Err(DecodeError::UnsupportedOrEmpty)
    } else {
        spec_value(s, 0)
    }
}


proof fn lemma_digits_monotone(s: Seq<u8>, m: int)
    requires
        0 <= m <= s.len(),
        forall|k: int| 0 <= k < s.len() ==> is_digit(#[trigger] s[k]),
    ensures
        digits_value(s.subrange(0, m)) <= digits_value(s),
    decreases s.len(),
{
    if m < s.len() {
        let d = s.drop_last();
        assert(d.subrange(0, m) =~= s.subrange(0, m));
        lemma_digits_monotone(d, m);
    } else {
        assert(s.subrange(0, m) =~= s);
    }
}

/// Reads the decimal number spelled by `s[lo..hi]` if it is no greater than `max`.
pub fn parse_decimal(s: &[u8], lo: usize, hi: usize, max: u64) -> (r: Option<u64>)
    requires
        lo <= hi <= s@.len(),
    ensures
        r matches Some(v) ==> decimal_at_most(s@.subrange(lo as int, hi as int), max as nat) == Some(v as nat),
        r is None ==> decimal_at_most(s@.subrange(lo as int, hi as int), max as nat) is None,
{
    let ghost whole = s@.subrange(lo as int, hi as int);
    if lo == hi {
        return None;
    }
    let mut acc: u64 = 0;
    let mut k: usize = lo;
    while k < hi
        invariant
            lo <= k <= hi <= s@.len(),
            whole == s@.subrange(lo as int, hi as int),
            acc as nat == digits_value(s@.subrange(lo as int, k as int)),
            acc <= max,
            forall|q: int| lo <= q < k ==> is_digit(#[trigger] s@[q]),
        decreases hi - k,
    {
        let b = s[k];
        if b < 48 || b > 57 {
            assert(!is_digit(whole[k - lo]));
            return None;
        }
        let d: u64 = (b - 48) as u64;
        let ghost next = s@.subrange(lo as int, k + 1);
        assert(next.drop_last() =~= s@.subrange(lo as int, k as int));
        if d > max || acc > (max - d) / 10 {
            proof {
                assert(acc * 10 + d > max) by (nonlinear_arith)
                    requires d > max || acc > (max - d) / 10, acc >= 0;
                if all_digits(whole) {
                    assert(whole.subrange(0, k + 1 - lo) =~= next);
                    lemma_digits_monotone(whole, k + 1 - lo);
                }
            }
            return None;
        }
        assert(acc * 10 + d <= max) by (nonlinear_arith)
            requires acc <= (max - d) / 10, d <= max;
        acc = acc * 10 + d;
        k = k + 1;
    }
    assert(s@.subrange(lo as int, k as int) =~= whole);
    Some(acc)
}

/// Reads the length line that starts at `start`: its number and the index after the line end.
pub fn read_line(input: &[u8], start: usize) -> (r: Result<(usize, usize), DecodeError>)
    requires
        start <= input@.len(),
    ensures
        r matches Ok((n, j)) ==> spec_header(input@, start as int) == Ok::<(nat, int), DecodeError>((n as nat, j as int)),
        r matches Err(e) ==> spec_header(input@, start as int) == Err::<(nat, int), DecodeError>(e),
{
    let mut e: usize = start;
    while e < input.len() && input[e] != CR
        invariant
            start <= e <= input@.len(),
            first_cr(input@, start as int) == first_cr(input@, e as int),
        decreases input.len() - e,
    {
        e = e + 1;
    }
    if e >= input.len() || input.len() - e < 2 {
        return Err(DecodeError::Incomplete);
    }
    match parse_decimal(input, start, e, usize::MAX as u64) {
        Some(n) => Ok((n as usize, e + 2)),
        None => Err(DecodeError::MalformedLength),
    }
}


/// The outcome of decoding as a value over frames.
pub open spec fn outcome_of(r: Result<(RespValue, usize), DecodeError>) -> Result<(Frame, int), DecodeError> {
    match r {
        Ok((v, j)) => Ok((v.frame(), j as int)),
        Err(e) => Err(e),
    }
}

/// Decodes the frame that starts at index `i` of `input`.
fn parse_at(input: &[u8], i: usize) -> (r: Result<(RespValue, usize), DecodeError>)
    requires
        i <= input@.len(),
    ensures
        outcome_of(r) == spec_value(input@, i as int),
        r matches Ok((_, j)) ==> i < j <= input@.len(),
    decreases input@.len() - i,
{
    if i >= input.len() {
        return Err(DecodeError::Incomplete);
    }
    let tag = input[i];
    if tag == 36 {
        match read_line(input, i + 1) {
            Err(e) => Err(e),
            Ok((n, j)) => {
                if n > input.len() - j || input.len() - j - n < 2 {
                    Err(DecodeError::Incomplete)
                } else if input[j + n] != CR || input[j + n + 1] != LF {
                    Err(DecodeError::MalformedLength)
                } else {
                    let payload = slice_to_vec(slice_subrange(input, j, j + n));
                    Ok((RespValue::BulkString(payload), j + n + 2))
                }
            },
        }
    } else if tag == 42 {
        match read_line(input, i + 1) {
            Err(e) => Err(e),
            Ok((n, j)) => {
                let mut items: Vec<RespValue> = Vec::new();
                let mut cur: usize = j;
                let mut k: usize = 0;
                while k < n
                    invariant
                        i < j <= cur <= input@.len(),
                        k <= n,
                        input@[i as int] == 42,
                        items@.len() == k,
                        spec_header(input@, i + 1) == Ok::<(nat, int), DecodeError>((n as nat, j as int)),
                        spec_items(input@, j as int, n as nat) == match spec_items(input@, cur as int, (n - k) as nat) {
                            Ok((rest, e)) => Ok((Seq::new(k as nat, |x: int| items@[x].frame()) + rest, e)),
                            Err(e) => Err(e),
                        },
                    decreases n - k,
                {
                    let ghost before = Seq::new(k as nat, |x: int| items@[x].frame());
                    match parse_at(input, cur) {
                        Err(e) => {
                            assert(spec_items(input@, cur as int, (n - k) as nat) == Err::<(Seq<Frame>, int), DecodeError>(e));
                            assert(spec_items(input@, j as int, n as nat) == Err::<(Seq<Frame>, int), DecodeError>(e));
                            return Err(e);
                        },
                        Ok((v, next)) => {
                            proof {
                                let tail = spec_items(input@, next as int, (n - k - 1) as nat);
                                assert(spec_items(input@, cur as int, (n - k) as nat) == match tail {
                                    Ok((rest, e)) => Ok((seq![v.frame()] + rest, e)),
                                    Err(e) => Err::<(Seq<Frame>, int), DecodeError>(e),
                                });
                            }
                            items.push(v);
                            cur = next;
                            k = k + 1;
                            proof {
                                let after = Seq::new(k as nat, |x: int| items@[x].frame());
                                assert forall|rest: Seq<Frame>| #![auto] before + (seq![after[k - 1]] + rest) == after + rest by {
                                    assert(before + (seq![after[k - 1]] + rest) =~= after + rest);
                                }
                            }
                        },
                    }
                }
                proof {
                    assert(Seq::new(k as nat, |x: int| items@[x].frame()) + Seq::<Frame>::empty()
                        =~= RespValue::Array(items).frame()->Array_0);
                }
                Ok((RespValue::Array(items), cur))
            },
        }
    } else {
        Err(DecodeError::UnsupportedOrEmpty)
    }
}

/// Decodes the frame at the start of `resp`, returning it with the bytes that follow it.
pub fn parse_resp(resp: &[u8]) -> (r: Result<(RespValue, &[u8]), DecodeError>)
    ensures
        r matches Ok((v, rest)) ==> spec_decode(resp@) == Ok::<(Frame, int), DecodeError>(
            (v.frame(), resp@.len() - rest@.len()),
        ) && rest@ == resp@.subrange(resp@.len() - rest@.len(), resp@.len() as int) && rest@.len() < resp@.len(),
        r matches Err(e) ==> spec_decode(resp@) == Err::<(Frame, int), DecodeError>(e),
{
    if resp.len() == 0 {
        return Err(DecodeError::UnsupportedOrEmpty);
    }
    match parse_at(resp, 0) {
        Ok((v, j)) => Ok((v, slice_subrange(resp, j, resp.len()))),
        Err(e) => Err(e),
    }
}

proof fn lemma_first_cr_bounds(s: Seq<u8>, i: int)
    requires
        0 <= i,
    ensures
        first_cr(s, i) == -1 || (i <= first_cr(s, i) < s.len() && s[first_cr(s, i)] == CR),
        forall|q: int| i <= q < s.len() && (q < first_cr(s, i) || first_cr(s, i) == -1) ==> s[q] != CR,
    decreases s.len() - i,
{
    if i < s.len() && s[i] != CR {
        lemma_first_cr_bounds(s, i + 1);
    }
}

proof fn lemma_first_cr_prefix(s: Seq<u8>, p: int, i: int)
    requires
        0 <= i <= p <= s.len(),
    ensures
        ({
            let e = first_cr(s, i);
            let t = s.subrange(0, p);
            if i <= e < p {
                first_cr(t, i) == e
            } else {
                first_cr(t, i) == -1
            }
        }),
    decreases s.len() - i,
{
    if i < p && s[i] != CR {
        lemma_first_cr_prefix(s, p, i + 1);
    }
    lemma_first_cr_bounds(s, i);
}

proof fn lemma_header_prefix(s: Seq<u8>, p: int, i: int)
    requires
        0 <= i <= p <= s.len(),
    ensures
        ({
            let t = s.subrange(0, p);
            match spec_header(s, i) {
                Ok((n, j)) => i < j <= s.len() && if j <= p {
                    spec_header(t, i) == spec_header(s, i)
                } else {
                    spec_header(t, i) == Err::<(nat, int), DecodeError>(DecodeError::Incomplete)
                },
                Err(e) => spec_header(t, i) == Err::<(nat, int), DecodeError>(e)
                    || spec_header(t, i) == Err::<(nat, int), DecodeError>(DecodeError::Incomplete),
            }
        }),
{
    let t = s.subrange(0, p);
    lemma_first_cr_prefix(s, p, i);
    lemma_first_cr_bounds(s, i);
    let e = first_cr(s, i);
    if i <= e && e + 2 <= p {
        assert(t.subrange(i, e) =~= s.subrange(i, e));
    }
}

proof fn lemma_value_bounds(s: Seq<u8>, i: int)
    ensures
        spec_value(s, i) matches Ok((_, j)) ==> i < j <= s.len(),
    decreases s.len() - i, 0int, 0int,
{
    if 0 <= i < s.len() && s[i] == 42 {
        lemma_header_prefix(s, s.len() as int, i + 1);
        if let Ok((n, j)) = spec_header(s, i + 1) {
            lemma_items_bounds(s, j, n);
        }
    } else if 0 <= i < s.len() && s[i] == 36 {
        lemma_header_prefix(s, s.len() as int, i + 1);
    }
}

proof fn lemma_items_bounds(s: Seq<u8>, i: int, n: nat)
    ensures
        spec_items(s, i, n) matches Ok((_, k)) ==> i <= k && (n > 0 ==> k <= s.len()),
    decreases s.len() - i, 1int, n,
{
    if n > 0 {
        lemma_value_bounds(s, i);
        if let Ok((_, j)) = spec_value(s, i) {
            if i < j <= s.len() {
                lemma_items_bounds(s, j, (n - 1) as nat);
            }
        }
    }
}

proof fn lemma_value_prefix(s: Seq<u8>, p: int, i: int)
    requires
        0 <= i <= p <= s.len(),
    ensures
        ({
            let t = s.subrange(0, p);
            match spec_value(s, i) {
                Ok((f, j)) => if j <= p {
                    spec_value(t, i) == spec_value(s, i)
                } else {
                    spec_value(t, i) == Err::<(Frame, int), DecodeError>(DecodeError::Incomplete)
                },
                Err(_) => spec_value(t, i) is Err,
            }
        }),
    decreases s.len() - i, 0int, 0int,
{
    let t = s.subrange(0, p);
    lemma_value_bounds(s, i);
    if i < p {
        assert(t[i] == s[i]);
        if s[i] == 36 || s[i] == 42 {
            lemma_header_prefix(s, p, i + 1);
            if let Ok((n, j)) = spec_header(s, i + 1) {
                lemma_items_bounds(s, j, n);
                if j <= p {
                    if s[i] == 36 {
                        if j + n + 2 <= p {
                            assert(t[j + n] == s[j + n] && t[j + n + 1] == s[j + n + 1]);
                            assert(t.subrange(j, j + n) =~= s.subrange(j, j + n));
                        }
                    } else {
                        lemma_items_prefix(s, p, j, n);
                        lemma_items_bounds(s, j, n);
                    }
                }
            }
        }
    }
}

proof fn lemma_items_prefix(s: Seq<u8>, p: int, i: int, n: nat)
    requires
        0 <= i <= p <= s.len(),
    ensures
        ({
            let t = s.subrange(0, p);
            match spec_items(s, i, n) {
                Ok((fs, k)) => if k <= p {
                    spec_items(t, i, n) == spec_items(s, i, n)
                } else {
                    spec_items(t, i, n) == Err::<(Seq<Frame>, int), DecodeError>(DecodeError::Incomplete)
                },
                Err(_) => spec_items(t, i, n) is Err,
            }
        }),
    decreases s.len() - i, 1int, n,
{
    if n > 0 {
        lemma_value_prefix(s, p, i);
        lemma_value_bounds(s, i);
        if let Ok((f, j)) = spec_value(s, i) {
            if j <= p {
                lemma_items_prefix(s, p, j, (n - 1) as nat);
                lemma_items_bounds(s, j, (n - 1) as nat);
            } else {
                lemma_items_bounds(s, j, (n - 1) as nat);
            }
        }
    }
}

/// A decoder fed a growing buffer: every non-empty prefix that stops short of a
/// complete frame is incomplete, and every prefix that holds the whole frame
/// decodes to the same value, spanning the same bytes.
pub proof fn lemma_partial_frames(s: Seq<u8>, p: int)
    requires
        spec_decode(s) is Ok,
        0 < p <= s.len(),
    ensures
        p < spec_decode(s)->Ok_0.1 ==> spec_decode(s.subrange(0, p)) == Err::<(Frame, int), DecodeError>(
            DecodeError::Incomplete,
        ),
        spec_decode(s)->Ok_0.1 <= p ==> spec_decode(s.subrange(0, p)) == spec_decode(s),
{
    lemma_value_prefix(s, p, 0);
}

/// The shortest decimal spelling of `n`.
pub open spec fn decimal(n: nat) -> Seq<u8>
    decreases n,
{
    if n < 10 {
        seq![(48 + n) as u8]
    } else {
        decimal(n / 10) + seq![(48 + n % 10) as u8]
    }
}

/// A value built from bulk strings and arrays alone.
pub open spec fn is_data(f: Frame) -> bool
    decreases f,
{
    match f {
        Frame::Bulk(_) => true,
        Frame::Array(items) => forall|k: int| 0 <= k < items.len() ==> is_data(#[trigger] items[k]),
        _ => false,
    }
}

/// The canonical wire bytes of a value built from bulk strings and arrays.
pub open spec fn frame_bytes(f: Frame) -> Seq<u8>
    decreases f,
{
    match f {
        Frame::Bulk(b) => seq![36u8] + decimal(b.len()) + seq![CR, LF] + b + seq![CR, LF],
        Frame::Array(items) => seq![42u8] + decimal(items.len()) + seq![CR, LF] + items_bytes(items),
        _ => Seq::empty(),
    }
}

/// The canonical wire bytes of values one after another.
pub open spec fn items_bytes(items: Seq<Frame>) -> Seq<u8>
    decreases items,
{
    if items.len() == 0 {
        Seq::empty()
    } else {
        frame_bytes(items[0]) + items_bytes(items.subrange(1, items.len() as int))
    }
}

proof fn lemma_decimal(n: nat)
    ensures
        all_digits(decimal(n)),
        digits_value(decimal(n)) == n,
    decreases n,
{
    let d = decimal(n);
    if n < 10 {
        assert(d.drop_last() =~= Seq::<u8>::empty());
        assert(d.last() == (48 + n) as u8);
        assert(digits_value(d) == digits_value(d.drop_last()) * 10 + (d.last() - 48) as nat);
    } else {
        assert(d.last() == (48 + n % 10) as u8);
        assert(digits_value(d) == digits_value(d.drop_last()) * 10 + (d.last() - 48) as nat);
        assert(n == (n / 10) * 10 + n % 10);
        lemma_decimal(n / 10);
        assert(d.drop_last() =~= decimal(n / 10));
        assert forall|k: int| 0 <= k < d.len() implies is_digit(#[trigger] d[k]) by {
            if k < d.len() - 1 {
                assert(d[k] == decimal(n / 10)[k]);
            }
        }
    }
}

proof fn lemma_first_cr_at(s: Seq<u8>, i: int, e: int)
    requires
        0 <= i <= e < s.len(),
        s[e] == CR,
        forall|q: int| i <= q < e ==> s[q] != CR,
    ensures
        first_cr(s, i) == e,
    decreases e - i,
{
    if i < e {
        lemma_first_cr_at(s, i + 1, e);
    }
}

proof fn lemma_header_canonical(s: Seq<u8>, i: int, n: nat)
    requires
        0 <= i,
        i + decimal(n).len() + 2 <= s.len(),
        s.subrange(i, i + decimal(n).len() + 2) == decimal(n) + seq![CR, LF],
        n <= usize::MAX,
    ensures
        spec_header(s, i) == Ok::<(nat, int), DecodeError>((n, i + decimal(n).len() + 2)),
{
    let d = decimal(n);
    let e = i + d.len();
    lemma_decimal(n);
    assert forall|q: int| i <= q < e implies s[q] != CR by {
        assert(s[q] == s.subrange(i, e + 2)[q - i]);
        assert(is_digit(d[q - i]));
    }
    assert(s[e] == s.subrange(i, e + 2)[d.len() as int]);
    lemma_first_cr_at(s, i, e);
    assert(s.subrange(i, e) =~= d);
}

proof fn lemma_frame_bytes_len(f: Frame)
    requires
        is_data(f),
    ensures
        frame_bytes(f).len() >= 1,
{
}

proof fn lemma_items_len(items: Seq<Frame>)
    requires
        forall|k: int| 0 <= k < items.len() ==> is_data(#[trigger] items[k]),
    ensures
        items.len() <= items_bytes(items).len(),
    decreases items.len(),
{
    if items.len() > 0 {
        let rest = items.subrange(1, items.len() as int);
        assert(is_data(items[0]));
        assert forall|k: int| 0 <= k < rest.len() implies is_data(#[trigger] rest[k]) by {
            assert(rest[k] == items[k + 1]);
        }
        lemma_items_len(rest);
        lemma_frame_bytes_len(items[0]);
    }
}

proof fn lemma_frame_canonical(pre: Seq<u8>, f: Frame, post: Seq<u8>)
    requires
        is_data(f),
        pre.len() + frame_bytes(f).len() + post.len() <= usize::MAX,
    ensures
        spec_value(pre + frame_bytes(f) + post, pre.len() as int) == Ok::<(Frame, int), DecodeError>(
            (f, (pre.len() + frame_bytes(f).len()) as int),
        ),
    decreases f,
{
    let s = pre + frame_bytes(f) + post;
    let i = pre.len() as int;
    match f {
        Frame::Bulk(b) => {
            let d = decimal(b.len());
            let j = i + 1 + d.len() + 2;
            assert(s[i] == 36);
            assert(s.subrange(i + 1, j) =~= d + seq![CR, LF]);
            lemma_header_canonical(s, i + 1, b.len());
            assert(s[j + b.len()] == CR && s[j + b.len() + 1] == LF);
            assert(s.subrange(j, j + b.len()) =~= b);
        },
        Frame::Array(items) => {
            let d = decimal(items.len());
            let j = i + 1 + d.len() + 2;
            assert(s[i] == 42);
            assert(s.subrange(i + 1, j) =~= d + seq![CR, LF]);
            lemma_items_len(items);
            lemma_header_canonical(s, i + 1, items.len());
            let pre2 = pre + seq![42u8] + d + seq![CR, LF];
            assert(s =~= pre2 + items_bytes(items) + post);
            lemma_items_canonical(pre2, items, post);
        },
        _ => {},
    }
}

proof fn lemma_items_canonical(pre: Seq<u8>, items: Seq<Frame>, post: Seq<u8>)
    requires
        forall|k: int| 0 <= k < items.len() ==> is_data(#[trigger] items[k]),
        pre.len() + items_bytes(items).len() + post.len() <= usize::MAX,
    ensures
        spec_items(pre + items_bytes(items) + post, pre.len() as int, items.len()) == Ok::<(Seq<Frame>, int), DecodeError>(
            (items, (pre.len() + items_bytes(items).len()) as int),
        ),
    decreases items,
{
    let s = pre + items_bytes(items) + post;
    if items.len() == 0 {
        assert(items =~= Seq::<Frame>::empty());
    } else {
        let rest = items.subrange(1, items.len() as int);
        let f0 = items[0];
        assert(is_data(f0));
        assert forall|k: int| 0 <= k < rest.len() implies is_data(#[trigger] rest[k]) by {
            assert(rest[k] == items[k + 1]);
        }
        let post1 = items_bytes(rest) + post;
        assert(s =~= pre + frame_bytes(f0) + post1);
        lemma_frame_canonical(pre, f0, post1);
        lemma_frame_bytes_len(f0);
        let pre2 = pre + frame_bytes(f0);
        assert(s =~= pre2 + items_bytes(rest) + post);
        lemma_items_canonical(pre2, rest, post);
        assert(seq![f0] + rest =~= items);
    }
}

/// Decoding the canonical bytes of a value built from bulk strings and arrays,
/// followed by any bytes at all, gives back that value, spanning exactly its bytes.
pub proof fn lemma_round_trip(f: Frame, rest: Seq<u8>)
    requires
        is_data(f),
        frame_bytes(f).len() + rest.len() <= usize::MAX,
    ensures
        spec_decode(frame_bytes(f) + rest) == Ok::<(Frame, int), DecodeError>((f, frame_bytes(f).len() as int)),
{
    let e = Seq::<u8>::empty();
    assert(e + frame_bytes(f) + rest =~= frame_bytes(f) + rest);
    lemma_frame_canonical(e, f, rest);
    lemma_frame_bytes_len(f);
}

} // verus!
