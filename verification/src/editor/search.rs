//! Search patterns: the shorthand a search accepts for single bytes, written
//! out as the regular expression the content is searched with.
//!
//! `\b` followed by up to eight of `0`, `1` and `.` is a byte in binary, each
//! `.` standing for either bit; `\xH.` and `\x.H` are bytes in hexadecimal
//! with one digit left open. Each becomes a class of `\xHH` escapes. The
//! rewriting works on the pattern's UTF-8 bytes; where it would cut the text
//! inside a character it has no result.
use vstd::prelude::*;
use vstd::utf8::*;

use crate::editor::formatter::hex_digit;
use crate::matching::{byte_regex_find_all, byte_regex_matches, successive_matches};

verus! {

/// Whether a `str` of bytes `w` can be cut at `i`: at its end, or before a
/// byte that starts a character.
pub open spec fn cuttable(w: Seq<u8>, i: int) -> bool {
    i == w.len() || (0 <= i < w.len() && !is_continuation_byte(w[i]))
}

/// A digit of a binary byte literal: `0`, `1` or the wildcard `.`.
pub open spec fn is_binary_char(b: u8) -> bool {
    b == 48 || b == 49 || b == 46
}

pub open spec fn two_to(p: nat) -> nat
    decreases p,
{
    if p == 0 {
        1
    } else {
        2 * two_to((p - 1) as nat)
    }
}

/// The number the first `i` digits of a binary literal spell, wildcards read
/// as 0.
pub open spec fn literal_value(body: Seq<u8>, i: nat) -> nat
    decreases i,
{
    if i == 0 || i > body.len() {
        0
    } else {
        literal_value(body, (i - 1) as nat) * 2 + (if body[i - 1] == 49 {
            1nat
        } else {
            0nat
        })
    }
}

/// The number the first `i` digits spell with every wildcard read as 1.
pub open spec fn literal_ceiling(body: Seq<u8>, i: nat) -> nat
    decreases i,
{
    if i == 0 || i > body.len() {
        0
    } else {
        literal_ceiling(body, (i - 1) as nat) * 2 + (if body[i - 1] != 48 {
            1nat
        } else {
            0nat
        })
    }
}

/// The bit places (0 being the least significant of the literal's digits)
/// of the wildcards among its first `i` digits, in order.
pub open spec fn wildcard_places(body: Seq<u8>, i: nat) -> Seq<usize>
    decreases i,
{
    if i == 0 || i > body.len() {
        seq![]
    } else {
        let rest = wildcard_places(body, (i - 1) as nat);
        if body[i - 1] == 46 {
            rest.push((body.len() - i) as usize)
        } else {
            rest
        }
    }
}

/// The sum of `2^p` over the first `j` places.
pub open spec fn places_sum(places: Seq<usize>, j: nat) -> nat
    decreases j,
{
    if j == 0 || j > places.len() {
        0
    } else {
        places_sum(places, (j - 1) as nat) + two_to(places[j - 1] as nat)
    }
}

/// `n` with `2^p` added for each of the first `j` wildcard places whose bit
/// (by its index among the places) is set in `state`.
pub open spec fn with_wildcards(n: nat, places: Seq<usize>, state: usize, j: nat) -> nat
    decreases j,
{
    if j == 0 || j > places.len() {
        n
    } else {
        with_wildcards(n, places, state, (j - 1) as nat) + (if state & (two_to((j - 1) as nat) as usize)
            != 0 {
            two_to(places[j - 1] as nat)
        } else {
            0
        })
    }
}

/// `\xHH`, the regex escape of byte `n`.
pub open spec fn byte_escape(n: nat) -> Seq<u8> {
    seq![92u8, 120u8, hex_digit((n / 16) as int), hex_digit((n % 16) as int)]
}

/// The escapes of the values the states `1..=k` give the wildcards.
pub open spec fn variant_escapes(n: nat, places: Seq<usize>, k: nat) -> Seq<u8>
    decreases k,
{
    if k == 0 {
        seq![]
    } else {
        variant_escapes(n, places, (k - 1) as nat) + byte_escape(
            with_wildcards(n, places, k as usize, places.len()),
        )
    }
}

/// The class a binary literal with digits `body` becomes: the escape of
/// its value with the wildcards clear, then one escape for each state of
/// the wildcard bits counted from 1 to `2^w` (the last repeating the first).
pub open spec fn binary_class(body: Seq<u8>) -> Seq<u8> {
    let n = literal_value(body, body.len());
    let places = wildcard_places(body, body.len());
    seq![91u8] + byte_escape(n) + variant_escapes(n, places, two_to(places.len())) + seq![93u8]
}

/// Reading one more digit keeps the value, the wildcards and the ceiling
/// in step: value shifted, plus the wildcard powers, is the ceiling shifted.
proof fn lemma_literal_step(body: Seq<u8>, i: nat)
    requires
        i < body.len() <= 8,
        is_binary_char(body[i as int]),
        literal_value(body, i) * two_to((body.len() - i) as nat) + places_sum(
            wildcard_places(body, i),
            wildcard_places(body, i).len(),
        ) == literal_ceiling(body, i) * two_to((body.len() - i) as nat),
    ensures
        literal_value(body, i + 1) * two_to((body.len() - i - 1) as nat) + places_sum(
            wildcard_places(body, i + 1),
            wildcard_places(body, i + 1).len(),
        ) == literal_ceiling(body, i + 1) * two_to((body.len() - i - 1) as nat),
{
    let l = body.len();
    let t = two_to((l - i - 1) as nat);
    assert(two_to((l - i) as nat) == 2 * t);
    let v = literal_value(body, i);
    let c = literal_ceiling(body, i);
    let p = wildcard_places(body, i);
    let s = places_sum(p, p.len());
    let b = body[i as int];
    if b == 46 {
        let p1 = p.push((l - (i + 1)) as usize);
        assert(wildcard_places(body, i + 1) == p1);
        assert(p1.len() == p.len() + 1);
        assert(p1[p.len() as int] == (l - i - 1) as usize);
        assert(places_sum(p1, p.len()) == places_sum(p, p.len())) by {
            lemma_places_sum_prefix(p, p1, p.len());
        }
        assert(places_sum(p1, p1.len()) == s + t);
        assert(v * (2 * t) == (v * 2) * t) by (nonlinear_arith);
        assert(c * (2 * t) + t == (c * 2 + 1) * t) by (nonlinear_arith);
    } else if b == 49 {
        assert(v * (2 * t) + t == (v * 2 + 1) * t) by (nonlinear_arith);
        assert(c * (2 * t) + t == (c * 2 + 1) * t) by (nonlinear_arith);
    } else {
        assert(v * (2 * t) == (v * 2) * t) by (nonlinear_arith);
        assert(c * (2 * t) == (c * 2) * t) by (nonlinear_arith);
    }
}

/// `places_sum` only reads the places it sums.
proof fn lemma_places_sum_prefix(p: Seq<usize>, q: Seq<usize>, j: nat)
    requires
        j <= p.len(),
        j <= q.len(),
        forall|k: int| 0 <= k < j ==> p[k] == q[k],
    ensures
        places_sum(p, j) == places_sum(q, j),
    decreases j,
{
    if j > 0 {
        lemma_places_sum_prefix(p, q, (j - 1) as nat);
    }
}

/// Setting some wildcard bits adds at most the sum of all their powers.
proof fn lemma_with_wildcards_bound(n: nat, places: Seq<usize>, state: usize, j: nat)
    requires
        j <= places.len(),
    ensures
        n <= with_wildcards(n, places, state, j) <= n + places_sum(places, j),
    decreases j,
{
    if j > 0 {
        lemma_with_wildcards_bound(n, places, state, (j - 1) as nat);
    }
}

proof fn lemma_ceiling_bound(body: Seq<u8>, i: nat)
    requires
        i <= body.len(),
    ensures
        literal_ceiling(body, i) < two_to(i),
    decreases i,
{
    if i > 0 {
        lemma_ceiling_bound(body, (i - 1) as nat);
    }
}

proof fn lemma_two_to_monotone(a: nat, b: nat)
    requires
        a <= b,
    ensures
        two_to(a) <= two_to(b),
        two_to(a) >= 1,
    decreases b,
{
    if b > a {
        lemma_two_to_monotone(a, (b - 1) as nat);
    } else if a > 0 {
        lemma_two_to_monotone((a - 1) as nat, (a - 1) as nat);
    }
}

proof fn lemma_two_to_values()
    ensures
        two_to(8) == 256,
        two_to(15) == 32768,
{
    reveal_with_fuel(two_to, 16);
}

/// `2^p`, for small `p`.
fn two_to_exec(p: usize) -> (r: usize)
    requires
        p < 16,
    ensures
        r == two_to(p as nat),
{
    let mut r: usize = 1;
    let mut k: usize = 0;
    while k < p
        invariant
            k <= p < 16,
            r == two_to(k as nat),
            r <= 32768,
        decreases p - k,
    {
        proof {
            lemma_two_to_monotone((k + 1) as nat, 15);
            lemma_two_to_values();
        }
        r = r * 2;
        k += 1;
    }
    r
}

/// The hexadecimal digit character of `n < 16`.
fn hex_char(n: usize) -> (r: u8)
    requires
        n < 16,
    ensures
        r == hex_digit(n as int),
{
    if n < 10 {
        48 + n as u8
    } else {
        55 + n as u8
    }
}

/// Appends `\xHH` for byte `n`.
fn push_escape(out: &mut Vec<u8>, n: usize)
    requires
        n < 256,
    ensures
        final(out)@ == old(out)@ + byte_escape(n as nat),
        ascii(old(out)@) ==> ascii(final(out)@),
{
    out.push(92);
    out.push(120);
    out.push(hex_char(n / 16));
    out.push(hex_char(n % 16));
}

/// The class a binary literal with digits `body` stands for.
#[verifier::spinoff_prover]
fn binary_class_of(body: &[u8]) -> (r: Vec<u8>)
    requires
        body@.len() <= 8,
        forall|k: int| 0 <= k < body@.len() ==> is_binary_char(#[trigger] body@[k]),
    ensures
        r@ == binary_class(body@),
        ascii(r@),
{
    let len = body.len();
    let ghost b = body@;
    let mut binnum: usize = 0;
    let mut places: Vec<usize> = Vec::new();
    let mut i: usize = 0;
    proof {
        assert(places_sum(places@, 0) == 0);
    }
    while i < len
        invariant
            i <= len == b.len() <= 8,
            body@ == b,
            forall|k: int| 0 <= k < b.len() ==> is_binary_char(#[trigger] b[k]),
            binnum == literal_value(b, i as nat),
            places@ == wildcard_places(b, i as nat),
            places@.len() <= i,
            forall|k: int| 0 <= k < places@.len() ==> #[trigger] places@[k] < len,
            literal_ceiling(b, i as nat) < two_to(i as nat),
            literal_value(b, i as nat) * two_to((b.len() - i) as nat) + places_sum(
                places@,
                places@.len(),
            ) == literal_ceiling(b, i as nat) * two_to((b.len() - i) as nat),
            binnum <= literal_ceiling(b, i as nat),
        decreases len - i,
    {
        proof {
            lemma_literal_step(b, i as nat);
            lemma_ceiling_bound(b, (i + 1) as nat);
            lemma_two_to_monotone(i as nat, 8);
            lemma_two_to_values();
        }
        binnum = binnum * 2;
        if body[i] == 49 {
            binnum += 1;
        } else if body[i] == 46 {
            places.push(len - 1 - i);
        }
        i += 1;
    }
    let ghost places_v = places@;
    let w = places.len();
    proof {
        lemma_ceiling_bound(b, b.len());
        lemma_two_to_monotone(b.len(), 8);
        lemma_two_to_values();
        assert(two_to(0) == 1);
        assert(i == len);
        assert(((b.len() - i) as nat) == 0nat);
        assert(two_to(0) == 1);
        let v = literal_value(b, len as nat);
        let c = literal_ceiling(b, len as nat);
        let sum = places_sum(places_v, places_v.len());
        assert(v * 1 + sum == c * 1);
        assert(v * 1 == v && c * 1 == c) by (nonlinear_arith);
        assert(c < 256);
        assert(binnum == v);
        assert(w as nat == places_v.len());
        assert(places_sum(places_v, w as nat) == sum);
        assert(binnum + places_sum(places_v, w as nat) < 256);
        lemma_two_to_monotone(w as nat, 8);
    }
    let mut out: Vec<u8> = Vec::new();
    out.push(91);
    proof {
        assert(ascii(out@));
    }
    push_escape(&mut out, binnum);
    let count = two_to_exec(w);
    let mut state: usize = 0;
    proof {
        assert(out@ =~= seq![91u8] + byte_escape(binnum as nat) + variant_escapes(binnum as nat, places_v, 0));
    }
    while state < count
        invariant
            state <= count == two_to(w as nat) <= 256,
            places@ == places_v,
            w == places_v.len() <= 8,
            forall|k: int| 0 <= k < places_v.len() ==> #[trigger] places_v[k] < 8,
            binnum + places_sum(places_v, w as nat) < 256,
            out@ == seq![91u8] + byte_escape(binnum as nat) + variant_escapes(
                binnum as nat,
                places_v,
                state as nat,
            ),
            ascii(out@),
        decreases count - state,
    {
        state += 1;
        let mut testn = binnum;
        let mut j: usize = 0;
        while j < w
            invariant
                j <= w == places_v.len() <= 8,
                places@ == places_v,
                1 <= state <= 256,
                forall|k: int| 0 <= k < places_v.len() ==> #[trigger] places_v[k] < 8,
                testn == with_wildcards(binnum as nat, places_v, state, j as nat),
                binnum + places_sum(places_v, w as nat) < 256,
            decreases w - j,
        {
            proof {
                lemma_with_wildcards_bound(binnum as nat, places_v, state, (j + 1) as nat);
                lemma_places_sum_monotone(places_v, (j + 1) as nat, w as nat);
            }
            let bit = two_to_exec(j);
            if state & bit != 0 {
                testn += two_to_exec(places[j]);
            }
            j += 1;
        }
        proof {
            lemma_with_wildcards_bound(binnum as nat, places_v, state, w as nat);
        }
        push_escape(&mut out, testn);
    }
    out.push(93);
    proof {
        assert(out@ =~= binary_class(b));
    }
    out
}

proof fn lemma_places_sum_monotone(places: Seq<usize>, j: nat, k: nat)
    requires
        j <= k <= places.len(),
    ensures
        places_sum(places, j) <= places_sum(places, k),
    decreases k,
{
    if k > j {
        lemma_places_sum_monotone(places, j, (k - 1) as nat);
    }
}


/// Every byte is ASCII.
pub open spec fn ascii(s: Seq<u8>) -> bool {
    forall|i: int| 0 <= i < s.len() ==> #[trigger] s[i] < 128
}

/// The digits `0-9A-F`, in order: what an open hexadecimal digit is
/// filled from.
pub open spec fn open_digit(i: int) -> u8 {
    if i < 10 {
        (48 + i) as u8
    } else {
        (55 + i) as u8
    }
}

/// `chunk` followed by each of the first `k` open digits in turn.
pub open spec fn low_options(chunk: Seq<u8>, k: nat) -> Seq<u8>
    decreases k,
{
    if k == 0 {
        seq![]
    } else {
        low_options(chunk, (k - 1) as nat) + chunk + seq![open_digit(k - 1)]
    }
}

/// `\x`, each of the first `k` open digits in turn, then `chunk`.
pub open spec fn high_options(chunk: Seq<u8>, k: nat) -> Seq<u8>
    decreases k,
{
    if k == 0 {
        seq![]
    } else {
        high_options(chunk, (k - 1) as nat) + seq![92u8, 120u8, open_digit(k - 1)] + chunk
    }
}

/// The class `\xH.` (given as its first three bytes) becomes.
pub open spec fn low_class(chunk: Seq<u8>) -> Seq<u8> {
    seq![91u8] + low_options(chunk, 16) + seq![93u8]
}

/// The class `\x.H` (given as its last byte) becomes.
pub open spec fn high_class(chunk: Seq<u8>) -> Seq<u8> {
    seq![91u8] + high_options(chunk, 16) + seq![93u8]
}

/// `w` with the bytes `[at, end)` replaced by `middle`.
pub open spec fn spliced(w: Seq<u8>, at: int, end: int, middle: Seq<u8>) -> Seq<u8> {
    w.subrange(0, at) + middle + w.subrange(end, w.len() as int)
}

/// The binary literals at `hits` written out, last hit first. `None` where
/// a cut falls inside a character, a hit is shorter than `\b`, or a literal
/// has more than eight digits (none of which the literal pattern matches);
/// `Err` with the literal's text where a digit is not `0`, `1` or `.`.
pub open spec fn binary_rewrite(w: Seq<u8>, hits: Seq<(usize, usize)>) -> Option<Result<Seq<u8>, Seq<u8>>>
    decreases hits.len(),
{
    if hits.len() == 0 {
        Some(Ok(w))
    } else {
        let a = hits.last().0 as int;
        let e = hits.last().1 as int;
        if e < a + 2 || e > w.len() || e - a - 2 > 8 || !cuttable(w, a + 2) || !cuttable(w, e) || !cuttable(w, a) {
            None
        } else if !(forall|k: int| a + 2 <= k < e ==> is_binary_char(#[trigger] w[k])) {
            Some(Err(w.subrange(a, e)))
        } else {
            binary_rewrite(spliced(w, a, e, binary_class(w.subrange(a + 2, e))), hits.drop_last())
        }
    }
}

/// The open hexadecimal digits at the starts of `hits` written out, last
/// first (`high`: `\x.H`, else `\xH.`). `None` where a cut falls inside a
/// character or past the end.
pub open spec fn wildcard_rewrite(w: Seq<u8>, hits: Seq<(usize, usize)>, high: bool) -> Option<Seq<u8>>
    decreases hits.len(),
{
    if hits.len() == 0 {
        Some(w)
    } else {
        let p = hits.last().0 as int;
        if p + 4 > w.len() || !cuttable(w, p) || !cuttable(w, p + 3) || !cuttable(w, p + 4) {
            None
        } else {
            let mid = if high {
                high_class(w.subrange(p + 3, p + 4))
            } else {
                low_class(w.subrange(p, p + 3))
            };
            wildcard_rewrite(spliced(w, p, p + 4, mid), hits.drop_last(), high)
        }
    }
}

/// The first hit (from `i` on) that is `\b` alone: `Some(Some(text))` for
/// it, `Some(None)` when there is none, `None` where a hit ends before it
/// starts or its text cannot be cut out.
pub open spec fn bare_prefix(s: Seq<u8>, hits: Seq<(usize, usize)>, i: nat) -> Option<Option<Seq<u8>>>
    decreases hits.len() - i,
{
    if i >= hits.len() {
        Some(None)
    } else {
        let a = hits[i as int].0 as int;
        let e = hits[i as int].1 as int;
        if e < a {
            None
        } else if e - a == 2 {
            if e <= s.len() && cuttable(s, a) && cuttable(s, e) {
                Some(Some(s.subrange(a, e)))
            } else {
                None
            }
        } else {
            bare_prefix(s, hits, i + 1)
        }
    }
}

/// A search pattern `s` with its byte shorthand written out, given where
/// the binary literals (`binary`) and the two kinds of open hexadecimal
/// digit (`low`: `\xH.`, `high`: `\x.H`) were found. `Err` carries the text
/// of a malformed binary literal; `None` is where a cut would fall inside a
/// character.
pub open spec fn rewritten_search(
    s: Seq<u8>,
    binary: Seq<(usize, usize)>,
    low: Seq<(usize, usize)>,
    high: Seq<(usize, usize)>,
) -> Option<Result<Seq<u8>, Seq<u8>>> {
    match bare_prefix(s, binary, 0) {
        None => None,
        Some(Some(text)) => Some(Err(text)),
        Some(None) => match binary_rewrite(s, binary) {
            None => None,
            Some(Err(text)) => Some(Err(text)),
            Some(Ok(w1)) => match wildcard_rewrite(w1, low, false) {
                None => None,
                Some(w2) => match wildcard_rewrite(w2, high, true) {
                    None => None,
                    Some(w3) => Some(Ok(w3)),
                },
            },
        },
    }
}

/// Cutting valid UTF-8 where a `str` can be cut leaves valid UTF-8 on both
/// sides.
proof fn lemma_cut_valid(w: Seq<u8>, i: int)
    requires
        valid_utf8(w),
        cuttable(w, i),
    ensures
        valid_utf8(w.subrange(0, i)),
        valid_utf8(w.subrange(i, w.len() as int)),
{
    if i == w.len() {
        is_char_boundary_start_end_of_seq(w);
    } else {
        is_char_boundary_iff_not_is_continuation_byte(w, i);
    }
    valid_utf8_split(w, i);
}

/// The bytes between two cuts of valid UTF-8 are valid UTF-8.
proof fn lemma_cut_between_valid(w: Seq<u8>, a: int, e: int)
    requires
        valid_utf8(w),
        cuttable(w, a),
        cuttable(w, e),
        a <= e,
    ensures
        valid_utf8(w.subrange(a, e)),
{
    lemma_cut_valid(w, a);
    let t = w.subrange(a, w.len() as int);
    assert(cuttable(t, e - a));
    lemma_cut_valid(t, e - a);
    assert(t.subrange(0, e - a) =~= w.subrange(a, e));
}

/// ASCII bytes are valid UTF-8.
proof fn lemma_ascii_valid(m: Seq<u8>)
    requires
        ascii(m),
    ensures
        valid_utf8(m),
{
    assert(m.subrange(0, 0) =~= Seq::<u8>::empty());
    assert(valid_utf8(Seq::<u8>::empty()));
    assert(partial_valid_utf8(m, 0));
    assert forall|i: int| 0 <= 0 <= i < m.len() <= m.len() implies #[trigger] is_leading_byte_width_1(m[i]) by {}
    partial_valid_utf8_extend_ascii_block(m, 0, m.len() as int);
    assert(m.subrange(0, m.len() as int) =~= m);
}

/// Splicing valid UTF-8 between two cuts keeps it valid.
proof fn lemma_splice_valid(w: Seq<u8>, at: int, end: int, middle: Seq<u8>)
    requires
        valid_utf8(w),
        valid_utf8(middle),
        cuttable(w, at),
        cuttable(w, end),
        at <= end,
    ensures
        valid_utf8(spliced(w, at, end, middle)),
{
    lemma_cut_valid(w, at);
    lemma_cut_valid(w, end);
    valid_utf8_concat(w.subrange(0, at), middle);
    valid_utf8_concat(w.subrange(0, at) + middle, w.subrange(end, w.len() as int));
}

fn cuttable_at(w: &Vec<u8>, i: usize) -> (r: bool)
    ensures
        r == cuttable(w@, i as int),
{
    if i == w.len() {
        true
    } else if i < w.len() {
        let b = w[i];
        !(0x80 <= b && b <= 0xbf)
    } else {
        false
    }
}

/// The bytes `[a, e)` of `w`.
fn slice_of(w: &Vec<u8>, a: usize, e: usize) -> (r: Vec<u8>)
    requires
        a <= e <= w@.len(),
    ensures
        r@ == w@.subrange(a as int, e as int),
{
    let mut out: Vec<u8> = Vec::new();
    let mut k = a;
    while k < e
        invariant
            a <= k <= e <= w@.len(),
            out@ =~= w@.subrange(a as int, k as int),
        decreases e - k,
    {
        out.push(w[k]);
        k += 1;
    }
    out
}

/// `w` with `[at, end)` replaced by `middle`.
fn splice(w: &Vec<u8>, at: usize, end: usize, middle: &Vec<u8>) -> (r: Vec<u8>)
    requires
        at <= end <= w@.len(),
    ensures
        r@ == spliced(w@, at as int, end as int, middle@),
{
    let mut out = slice_of(w, 0, at);
    let mut k: usize = 0;
    while k < middle.len()
        invariant
            k <= middle@.len(),
            out@ =~= w@.subrange(0, at as int) + middle@.subrange(0, k as int),
        decreases middle@.len() - k,
    {
        out.push(middle[k]);
        k += 1;
    }
    let mut j = end;
    while j < w.len()
        invariant
            end <= j <= w@.len(),
            out@ =~= w@.subrange(0, at as int) + middle@ + w@.subrange(end as int, j as int),
        decreases w@.len() - j,
    {
        out.push(w[j]);
        j += 1;
    }
    out
}

/// The class an open hexadecimal digit stands for: with `high` the first
/// digit is open and `chunk` is the second, otherwise `chunk` is `\xH`.
fn wildcard_class(chunk: &Vec<u8>, high: bool) -> (r: Vec<u8>)
    ensures
        r@ == if high {
            high_class(chunk@)
        } else {
            low_class(chunk@)
        },
        valid_utf8(chunk@) ==> valid_utf8(r@),
{
    let mut out: Vec<u8> = Vec::new();
    out.push(91);
    proof {
        assert(ascii(seq![91u8]));
        lemma_ascii_valid(seq![91u8]);
        assert(out@ =~= seq![91u8]);
        if high {
            assert(out@ =~= seq![91u8] + high_options(chunk@, 0));
        } else {
            assert(out@ =~= seq![91u8] + low_options(chunk@, 0));
        }
    }
    let mut k: usize = 0;
    while k < 16
        invariant
            k <= 16,
            out@ == seq![91u8] + if high {
                high_options(chunk@, k as nat)
            } else {
                low_options(chunk@, k as nat)
            },
            valid_utf8(chunk@) ==> valid_utf8(out@),
        decreases 16 - k,
    {
        let digit: u8 = if k < 10 {
            48 + k as u8
        } else {
            55 + k as u8
        };
        let ghost before = out@;
        if high {
            out.push(92);
            out.push(120);
            out.push(digit);
            let mut j: usize = 0;
            while j < chunk.len()
                invariant
                    j <= chunk@.len(),
                    out@ =~= before + seq![92u8, 120u8, digit] + chunk@.subrange(0, j as int),
                decreases chunk@.len() - j,
            {
                out.push(chunk[j]);
                j += 1;
            }
            proof {
                assert(chunk@.subrange(0, chunk@.len() as int) =~= chunk@);
                assert(out@ =~= before + seq![92u8, 120u8, digit] + chunk@);
                if valid_utf8(chunk@) {
                    assert(ascii(seq![92u8, 120u8, digit]));
                    lemma_ascii_valid(seq![92u8, 120u8, digit]);
                    valid_utf8_concat(before, seq![92u8, 120u8, digit]);
                    valid_utf8_concat(before + seq![92u8, 120u8, digit], chunk@);
                }
                assert(seq![91u8] + high_options(chunk@, (k + 1) as nat) =~= seq![91u8]
                    + high_options(chunk@, k as nat) + seq![92u8, 120u8, open_digit(k as int)] + chunk@);
            }
        } else {
            let mut j: usize = 0;
            while j < chunk.len()
                invariant
                    j <= chunk@.len(),
                    out@ =~= before + chunk@.subrange(0, j as int),
                decreases chunk@.len() - j,
            {
                out.push(chunk[j]);
                j += 1;
            }
            out.push(digit);
            proof {
                assert(chunk@.subrange(0, chunk@.len() as int) =~= chunk@);
                assert(out@ =~= before + chunk@ + seq![digit]);
                if valid_utf8(chunk@) {
                    assert(ascii(seq![digit]));
                    lemma_ascii_valid(seq![digit]);
                    valid_utf8_concat(before, chunk@);
                    valid_utf8_concat(before + chunk@, seq![digit]);
                }
                assert(seq![91u8] + low_options(chunk@, (k + 1) as nat) =~= seq![91u8]
                    + low_options(chunk@, k as nat) + chunk@ + seq![open_digit(k as int)]);
            }
        }
        k += 1;
    }
    let ghost before = out@;
    out.push(93);
    proof {
        if valid_utf8(chunk@) {
            assert(ascii(seq![93u8]));
            lemma_ascii_valid(seq![93u8]);
            valid_utf8_concat(before, seq![93u8]);
            assert(out@ =~= before + seq![93u8]);
        }
        if high {
            assert(out@ =~= high_class(chunk@));
        } else {
            assert(out@ =~= low_class(chunk@));
        }
    }
    out
}


/// A copy of the bytes of `s`.
fn bytes_of(s: &[u8]) -> (r: Vec<u8>)
    ensures
        r@ == s@,
{
    let mut out: Vec<u8> = Vec::new();
    let mut k: usize = 0;
    while k < s.len()
        invariant
            k <= s@.len(),
            out@ =~= s@.subrange(0, k as int),
        decreases s@.len() - k,
    {
        out.push(s[k]);
        k += 1;
    }
    proof {
        assert(s@.subrange(0, s@.len() as int) =~= s@);
    }
    out
}

/// Finds the first hit that is `\b` alone and returns its text.
fn bare_prefix_of(s: &Vec<u8>, hits: &[(usize, usize)]) -> (r: Option<Option<Vec<u8>>>)
    ensures
        match r {
            None => bare_prefix(s@, hits@, 0) is None,
            Some(None) => bare_prefix(s@, hits@, 0) == Some(None::<Seq<u8>>),
            Some(Some(t)) => bare_prefix(s@, hits@, 0) == Some(Some(t@)),
        },
{
    let mut i: usize = 0;
    while i < hits.len()
        invariant
            i <= hits@.len(),
            bare_prefix(s@, hits@, i as nat) == bare_prefix(s@, hits@, 0),
        decreases hits@.len() - i,
    {
        let (a, e) = hits[i];
        if e < a {
            return None;
        }
        if e - a == 2 {
            if e <= s.len() && cuttable_at(s, a) && cuttable_at(s, e) {
                return Some(Some(slice_of(s, a, e)));
            } else {
                return None;
            }
        }
        i += 1;
    }
    Some(None)
}

/// Writes out the binary literals at `hits`, last first.
fn expand_binary_literals(w0: Vec<u8>, hits: &[(usize, usize)]) -> (r: Option<Result<Vec<u8>, Vec<u8>>>)
    ensures
        match r {
            None => binary_rewrite(w0@, hits@) is None,
            Some(Ok(v)) => binary_rewrite(w0@, hits@) == Some(Ok::<Seq<u8>, Seq<u8>>(v@)),
            Some(Err(t)) => binary_rewrite(w0@, hits@) == Some(Err::<Seq<u8>, Seq<u8>>(t@)),
        },
        valid_utf8(w0@) ==> (r matches Some(Ok(v)) ==> valid_utf8(v@)),
        valid_utf8(w0@) ==> (r matches Some(Err(t)) ==> valid_utf8(t@)),
{
    let ghost orig = w0@;
    let mut w = w0;
    let mut k = hits.len();
    proof {
        assert(hits@.subrange(0, k as int) =~= hits@);
    }
    loop
        invariant
            k <= hits@.len(),
            orig == w0@,
            binary_rewrite(w@, hits@.subrange(0, k as int)) == binary_rewrite(orig, hits@),
            valid_utf8(orig) ==> valid_utf8(w@),
        decreases k,
    {
        if k == 0 {
            proof {
                assert(hits@.subrange(0, 0).len() == 0);
                assert(binary_rewrite(w@, hits@.subrange(0, 0)) == Some(Ok::<Seq<u8>, Seq<u8>>(w@)));
            }
            return Some(Ok(w));
        }
        let ghost sub = hits@.subrange(0, k as int);
        proof {
            assert(sub.drop_last() =~= hits@.subrange(0, k - 1));
            assert(sub.last() == hits@[k - 1]);
        }
        let (a, e) = hits[k - 1];
        if e < a || e - a < 2 || e > w.len() || e - a - 2 > 8 || !cuttable_at(&w, a + 2) || !cuttable_at(
            &w,
            e,
        ) || !cuttable_at(&w, a) {
            return None;
        }
        let mut ok = true;
        let mut j = a + 2;
        while j < e
            invariant
                a + 2 <= j <= e <= w@.len(),
                ok <==> forall|q: int| a + 2 <= q < j ==> is_binary_char(#[trigger] w@[q]),
            decreases e - j,
        {
            let b = w[j];
            if !(b == 48 || b == 49 || b == 46) {
                ok = false;
            }
            j += 1;
        }
        if !ok {
            let text = slice_of(&w, a, e);
            proof {
                if valid_utf8(orig) {
                    lemma_cut_between_valid(w@, a as int, e as int);
                }
            }
            return Some(Err(text));
        }
        let body = slice_of(&w, a + 2, e);
        let class = binary_class_of(body.as_slice());
        proof {
            if valid_utf8(orig) {
                lemma_ascii_valid(class@);
                lemma_splice_valid(w@, a as int, e as int, class@);
            }
        }
        w = splice(&w, a, e, &class);
        k -= 1;
    }
}

/// Writes out the open hexadecimal digits at the starts of `hits`, last
/// first.
fn expand_wildcards(w0: Vec<u8>, hits: &[(usize, usize)], high: bool) -> (r: Option<Vec<u8>>)
    ensures
        match r {
            None => wildcard_rewrite(w0@, hits@, high) is None,
            Some(v) => wildcard_rewrite(w0@, hits@, high) == Some(v@),
        },
        valid_utf8(w0@) ==> (r matches Some(v) ==> valid_utf8(v@)),
{
    let ghost orig = w0@;
    let mut w = w0;
    let mut k = hits.len();
    proof {
        assert(hits@.subrange(0, k as int) =~= hits@);
    }
    loop
        invariant
            k <= hits@.len(),
            orig == w0@,
            wildcard_rewrite(w@, hits@.subrange(0, k as int), high) == wildcard_rewrite(orig, hits@, high),
            valid_utf8(orig) ==> valid_utf8(w@),
        decreases k,
    {
        if k == 0 {
            proof {
                assert(hits@.subrange(0, 0).len() == 0);
            }
            return Some(w);
        }
        let ghost sub = hits@.subrange(0, k as int);
        proof {
            assert(sub.drop_last() =~= hits@.subrange(0, k - 1));
            assert(sub.last() == hits@[k - 1]);
        }
        let p = hits[k - 1].0;
        if w.len() < 4 || p > w.len() - 4 || !cuttable_at(&w, p) || !cuttable_at(&w, p + 3) || !cuttable_at(
            &w,
            p + 4,
        ) {
            return None;
        }
        let chunk = if high {
            slice_of(&w, p + 3, p + 4)
        } else {
            slice_of(&w, p, p + 3)
        };
        let class = wildcard_class(&chunk, high);
        proof {
            if valid_utf8(orig) {
                if high {
                    lemma_cut_between_valid(w@, p + 3, p + 4);
                } else {
                    lemma_cut_between_valid(w@, p as int, p + 3);
                }
                lemma_splice_valid(w@, p as int, p + 4, class@);
            }
        }
        w = splice(&w, p, p + 4, &class);
        k -= 1;
    }
}

/// Writes out the byte shorthand of the search pattern `search`, given the
/// hits of the binary literal pattern and of the two open-digit patterns on
/// it (as the regex search for them reports them). `Err` carries the text
/// of a malformed binary literal; `None` is where a cut would fall inside a
/// character.
pub fn rewrite_search_pattern(
    search: &[u8],
    binary: &[(usize, usize)],
    low: &[(usize, usize)],
    high: &[(usize, usize)],
) -> (r: Option<Result<Vec<u8>, Vec<u8>>>)
    ensures
        match r {
            None => rewritten_search(search@, binary@, low@, high@) is None,
            Some(Ok(v)) => rewritten_search(search@, binary@, low@, high@) == Some(
                Ok::<Seq<u8>, Seq<u8>>(v@),
            ),
            Some(Err(t)) => rewritten_search(search@, binary@, low@, high@) == Some(
                Err::<Seq<u8>, Seq<u8>>(t@),
            ),
        },
        valid_utf8(search@) ==> (r matches Some(Ok(v)) ==> valid_utf8(v@)),
        valid_utf8(search@) ==> (r matches Some(Err(t)) ==> valid_utf8(t@)),
{
    let w = bytes_of(search);
    match bare_prefix_of(&w, binary) {
        None => None,
        Some(Some(text)) => {
            proof {
                if valid_utf8(search@) {
                    lemma_bare_prefix_valid(search@, binary@, 0);
                }
            }
            Some(Err(text))
        },
        Some(None) => match expand_binary_literals(w, binary) {
            None => None,
            Some(Err(text)) => Some(Err(text)),
            Some(Ok(w1)) => match expand_wildcards(w1, low, false) {
                None => None,
                Some(w2) => match expand_wildcards(w2, high, true) {
                    None => None,
                    Some(w3) => Some(Ok(w3)),
                },
            },
        },
    }
}

/// The text of a bare `\b` hit is valid UTF-8 when the pattern is.
proof fn lemma_bare_prefix_valid(s: Seq<u8>, hits: Seq<(usize, usize)>, i: nat)
    requires
        valid_utf8(s),
    ensures
        bare_prefix(s, hits, i) matches Some(Some(t)) ==> valid_utf8(t),
    decreases hits.len() - i,
{
    if i < hits.len() {
        let a = hits[i as int].0 as int;
        let e = hits[i as int].1 as int;
        if e >= a {
            if e - a == 2 {
                if e <= s.len() && cuttable(s, a) && cuttable(s, e) {
                    lemma_cut_between_valid(s, a, e);
                }
            } else {
                lemma_bare_prefix_valid(s, hits, i + 1);
            }
        }
    }
}


/// The regex for a binary byte literal: `\b` and up to eight characters.
pub open spec fn binary_literal_regex() -> Seq<char> {
    "\\\\b.{0,8}"@
}

/// The regex for `\xH.`, a byte with its second hexadecimal digit open.
pub open spec fn low_wildcard_regex() -> Seq<char> {
    "\\\\x[0-9a-fA-f]\\."@
}

/// The regex for `\x.H`, a byte with its first hexadecimal digit open.
pub open spec fn high_wildcard_regex() -> Seq<char> {
    "\\\\x\\.[0-9a-fA-F]"@
}

/// The hits of a regex search, none when the regex does not compile.
pub open spec fn hits_or_none(m: Option<Seq<(usize, usize)>>) -> Seq<(usize, usize)> {
    match m {
        Some(h) => h,
        None => seq![],
    }
}

/// The search pattern `s` with its byte shorthand written out (as UTF-8
/// bytes), the shorthand located by the three regexes.
pub open spec fn search_rewrite_of(s: Seq<char>) -> Option<Result<Seq<u8>, Seq<u8>>> {
    let b = encode_utf8(s);
    rewritten_search(
        b,
        hits_or_none(byte_regex_matches(binary_literal_regex(), b)),
        hits_or_none(byte_regex_matches(low_wildcard_regex(), b)),
        hits_or_none(byte_regex_matches(high_wildcard_regex(), b)),
    )
}

/// Whether writing out the shorthand of `s` stays on character boundaries.
pub open spec fn search_defined(s: Seq<char>) -> bool {
    search_rewrite_of(s) is Some
}

/// The hits of regex `pattern` over `haystack`; none when it does not compile.
pub fn regex_hits(pattern: &str, haystack: &[u8]) -> (r: Vec<(usize, usize)>)
    ensures
        r@ == hits_or_none(byte_regex_matches(pattern@, haystack@)),
        byte_regex_matches(pattern@, haystack@) is Some ==> successive_matches(r@, haystack@.len() as int),
{
    match byte_regex_find_all(pattern, haystack) {
        Ok(v) => v,
        Err(_) => Vec::new(),
    }
}

/// Writes out the byte shorthand of `search_for` (see `rewrite_search_pattern`),
/// locating it with the three regexes.
pub fn rewrite_search(search_for: &str) -> (r: Option<Result<Vec<u8>, Vec<u8>>>)
    ensures
        match r {
            None => search_rewrite_of(search_for@) is None,
            Some(Ok(v)) => search_rewrite_of(search_for@) == Some(Ok::<Seq<u8>, Seq<u8>>(v@)),
            Some(Err(t)) => search_rewrite_of(search_for@) == Some(Err::<Seq<u8>, Seq<u8>>(t@)),
        },
        r matches Some(Ok(v)) ==> valid_utf8(v@),
        r matches Some(Err(t)) ==> valid_utf8(t@),
{
    let bytes = search_for.as_bytes();
    proof {
        encode_utf8_valid_utf8(search_for@);
    }
    let binary = regex_hits("\\\\b.{0,8}", bytes);
    let low = regex_hits("\\\\x[0-9a-fA-f]\\.", bytes);
    let high = regex_hits("\\\\x\\.[0-9a-fA-F]", bytes);
    rewrite_search_pattern(bytes, binary.as_slice(), low.as_slice(), high.as_slice())
}

} // verus!

verus! {

/// The class the open hexadecimal digit found at `p` in `w` is written out
/// as (`high`: `\x.H`, else `\xH.`).
pub open spec fn open_digit_class(w: Seq<u8>, p: int, high: bool) -> Seq<u8> {
    if high {
        high_class(w.subrange(p + 3, p + 4))
    } else {
        low_class(w.subrange(p, p + 3))
    }
}

/// `w` from `start` on, read left to right, with each open digit found at
/// the `i`-th hit and after it replaced by its class.
pub open spec fn written_out(w: Seq<u8>, hits: Seq<(usize, usize)>, high: bool, i: nat, start: int) -> Seq<u8>
    decreases hits.len() - i,
{
    if i >= hits.len() {
        w.subrange(start, w.len() as int)
    } else {
        let p = hits[i as int].0 as int;
        w.subrange(start, p) + open_digit_class(w, p, high) + written_out(w, hits, high, i + 1, p + 4)
    }
}

/// The hits of open hexadecimal digits in `w`, as a search finds them: in
/// order and apart, each four bytes long inside `w`, and each cut where a
/// character starts or ends.
pub open spec fn open_digit_hits(w: Seq<u8>, hits: Seq<(usize, usize)>) -> bool {
    &&& forall|i: int| 0 <= i < hits.len() ==> {
        let p = #[trigger] hits[i].0 as int;
        p + 4 <= w.len() && cuttable(w, p) && cuttable(w, p + 3) && cuttable(w, p + 4)
    }
    &&& forall|i: int, j: int| 0 <= i < j < hits.len() ==> #[trigger] hits[i].0 + 4 <= #[trigger] hits[j].0
}

/// Writing the last hit out first leaves the text before it, and so what is
/// written out before it, as it was.
proof fn lemma_written_out_before_last(
    w: Seq<u8>,
    hits: Seq<(usize, usize)>,
    high: bool,
    i: nat,
    start: int,
)
    requires
        open_digit_hits(w, hits),
        hits.len() > 0,
        i < hits.len(),
        0 <= start <= hits[i as int].0,
    ensures
        ({
            let p = hits.last().0 as int;
            let w2 = spliced(w, p, p + 4, open_digit_class(w, p, high));
            written_out(w2, hits.drop_last(), high, i, start) == written_out(w, hits, high, i, start)
        }),
    decreases hits.len() - i,
{
    let n = hits.len() - 1;
    let p = hits.last().0 as int;
    let mid = open_digit_class(w, p, high);
    let w2 = spliced(w, p, p + 4, mid);
    let dl = hits.drop_last();
    assert(hits[n].0 == p);
    assert(p + 4 <= w.len());
    if i == n {
        assert(written_out(w, hits, high, i + 1, p + 4) == w.subrange(p + 4, w.len() as int));
        assert(written_out(w2, dl, high, i, start) =~= written_out(w, hits, high, i, start));
    } else {
        let q = hits[i as int].0 as int;
        assert(dl[i as int] == hits[i as int]);
        assert(q + 4 <= hits[i + 1 as int].0 <= p) by {
            assert(hits[i as int].0 + 4 <= hits[i + 1 as int].0);
            if i + 1 < n {
                assert(hits[i + 1 as int].0 + 4 <= hits[n].0);
            }
        }
        lemma_written_out_before_last(w, hits, high, i + 1, q + 4);
        assert(w2.subrange(start, q) =~= w.subrange(start, q));
        assert(open_digit_class(w2, q, high) == open_digit_class(w, q, high)) by {
            assert(w2.subrange(q, q + 3) =~= w.subrange(q, q + 3));
            assert(w2.subrange(q + 3, q + 4) =~= w.subrange(q + 3, q + 4));
        }
    }
}

/// Every open hexadecimal digit a search finds is written out: rewriting
/// the hits (last first) gives the text read left to right with each hit
/// replaced by its class and the bytes between hits kept.
pub proof fn every_open_digit_is_written_out(w: Seq<u8>, hits: Seq<(usize, usize)>, high: bool)
    requires
        open_digit_hits(w, hits),
    ensures
        wildcard_rewrite(w, hits, high) == Some(written_out(w, hits, high, 0, 0)),
    decreases hits.len(),
{
    if hits.len() == 0 {
        assert(w.subrange(0, w.len() as int) =~= w);
    } else {
        let n = hits.len() - 1;
        let p = hits.last().0 as int;
        let mid = open_digit_class(w, p, high);
        let w2 = spliced(w, p, p + 4, mid);
        let dl = hits.drop_last();
        assert(hits[n].0 == p);
        assert(mid[0] == 91u8) by {
            reveal_with_fuel(low_options, 1);
        }
        assert(w2.len() >= p + 1);
        assert forall|i: int, k: int| 0 <= i < n && 0 <= k <= hits[i].0 + 4 implies
            (cuttable(w2, k) == cuttable(w, k)) && hits[i].0 + 4 <= w2.len() by {
            assert(hits[i].0 + 4 <= hits[n].0);
            if k < p {
                assert(w2[k] == w[k]);
            } else {
                assert(w2[p] == mid[0]);
            }
        }
        assert(open_digit_hits(w2, dl)) by {
            assert forall|i: int| 0 <= i < dl.len() implies {
                let q = #[trigger] dl[i].0 as int;
                q + 4 <= w2.len() && cuttable(w2, q) && cuttable(w2, q + 3) && cuttable(w2, q + 4)
            } by {
                assert(dl[i] == hits[i]);
                let q = hits[i].0 as int;
                assert(cuttable(w2, q) == cuttable(w, q));
                assert(cuttable(w2, q + 3) == cuttable(w, q + 3));
                assert(cuttable(w2, q + 4) == cuttable(w, q + 4));
            }
            assert forall|i: int, j: int| 0 <= i < j < dl.len() implies #[trigger] dl[i].0 + 4 <= #[trigger] dl[j].0 by {
                assert(dl[i] == hits[i] && dl[j] == hits[j]);
            }
        }
        every_open_digit_is_written_out(w2, dl, high);
        lemma_written_out_before_last(w, hits, high, 0, 0);
    }
}

} // verus!
