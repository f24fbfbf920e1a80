//! The interactive command grammar, on bytes: verbs `Bid`/`Ask` with
//! `-p <price> -q <quantity>`, and `Depth`/`Top`/`Size` with `-s <side>`
//! (`Size` also with `-p <price>`), mapped one-to-one onto the inbound
//! requests. Verbs and sides are matched regardless of letter case;
//! prices are exact decimals of at most eighteen fractional digits.

use vstd::prelude::*;
use vstd::slice::{slice_subrange, slice_to_vec};
use crate::book::Side;
use crate::messages::ToServer;
use crate::price::{Price, pow10};

verus! {

// ---------------------------------------------------------------------------
// Bytes and digits.
// ---------------------------------------------------------------------------

pub open spec fn is_digit(b: u8) -> bool {
    48 <= b <= 57
}

/// ASCII lower-casing of one byte.
pub open spec fn lower(b: u8) -> u8 {
    if 65 <= b && b <= 90 {
        (b + 32) as u8
    } else {
        b
    }
}

pub open spec fn lower_seq(s: Seq<u8>) -> Seq<u8> {
    s.map_values(|b: u8| lower(b))
}

pub open spec fn all_digits(s: Seq<u8>) -> bool {
    forall|i: int| 0 <= i < s.len() ==> is_digit(#[trigger] s[i])
}

/// The number a run of decimal digits spells.
pub open spec fn digits_val(s: Seq<u8>) -> int
    decreases s.len(),
{
    if s.len() == 0 {
        0
    } else {
        digits_val(s.drop_last()) * 10 + (s.last() - 48)
    }
}

proof fn lemma_digits_val_nonneg(s: Seq<u8>)
    requires
        all_digits(s),
    ensures
        digits_val(s) >= 0,
    decreases s.len(),
{
    if s.len() > 0 {
        assert(all_digits(s.drop_last())) by {
            assert(forall|i: int|
                0 <= i < s.len() - 1 ==> #[trigger] s.drop_last()[i] == s[i]);
        }
        lemma_digits_val_nonneg(s.drop_last());
    }
}

/// A digit run spells at least what any of its prefixes spells.
proof fn lemma_digits_val_prefix(s: Seq<u8>, j: int)
    requires
        all_digits(s),
        0 <= j <= s.len(),
    ensures
        digits_val(s) >= digits_val(s.take(j)),
    decreases s.len() - j,
{
    if j < s.len() {
        lemma_digits_val_prefix(s, j + 1);
        assert(s.take(j + 1).drop_last() =~= s.take(j));
        assert(s.take(j + 1).last() == s[j]);
        assert(all_digits(s.take(j))) by {
            assert(forall|i: int| 0 <= i < j ==> #[trigger] s.take(j)[i] == s[i]);
        }
        lemma_digits_val_nonneg(s.take(j));
    } else {
        assert(s.take(j) =~= s);
    }
}

// ---------------------------------------------------------------------------
// Tokenization: maximal runs of non-space bytes.
// ---------------------------------------------------------------------------

/// The index just past the token starting at `i`: the first space at or
/// after `i`, or the end.
pub open spec fn token_end(s: Seq<u8>, i: int) -> int
    decreases s.len() - i when 0 <= i <= s.len()
{
    if i >= s.len() {
        s.len() as int
    } else if s[i] == 32 {
        i
    } else {
        token_end(s, i + 1)
    }
}

/// The tokens of `s` from position `i` on.
pub open spec fn tokens_from(s: Seq<u8>, i: int) -> Seq<Seq<u8>>
    decreases s.len() - i when 0 <= i <= s.len()
{
    if i < 0 || i >= s.len() {
        Seq::empty()
    } else if s[i] == 32 {
        tokens_from(s, i + 1)
    } else {
        let e0 = token_end(s, i);
        let e = if i < e0 && e0 <= s.len() {
            e0
        } else {
            i + 1
        };
        seq![s.subrange(i, e)] + tokens_from(s, e)
    }
}

proof fn lemma_token_end(s: Seq<u8>, i: int)
    requires
        0 <= i <= s.len(),
    ensures
        i <= token_end(s, i) <= s.len(),
        forall|k: int| i <= k < token_end(s, i) ==> s[k] != 32,
        token_end(s, i) == s.len() || s[token_end(s, i)] == 32,
    decreases s.len() - i,
{
    if i < s.len() && s[i] != 32 {
        lemma_token_end(s, i + 1);
    }
}

proof fn lemma_token_end_is(s: Seq<u8>, i: int, j: int)
    requires
        0 <= i <= j <= s.len(),
        forall|k: int| i <= k < j ==> s[k] != 32,
        j == s.len() || s[j] == 32,
    ensures
        token_end(s, i) == j,
    decreases s.len() - i,
{
    if i < s.len() && s[i] != 32 {
        lemma_token_end_is(s, i + 1, j);
    }
}

/// Splits the input into its space-separated tokens.
fn tokenize(input: &[u8]) -> (r: Vec<Vec<u8>>)
    ensures
        r@.map_values(|t: Vec<u8>| t@) == tokens_from(input@, 0),
{
    let n = input.len();
    let mut r: Vec<Vec<u8>> = Vec::new();
    let mut i: usize = 0;
    while i < n
        invariant
            n == input@.len(),
            i <= n,
            tokens_from(input@, 0) == r@.map_values(|t: Vec<u8>| t@) + tokens_from(
                input@,
                i as int,
            ),
        decreases n - i,
    {
        if input[i] == 32 {
            i = i + 1;
        } else {
            let start = i;
            let mut j = i + 1;
            while j < n && input[j] != 32
                invariant
                    n == input@.len(),
                    start < j <= n,
                    forall|k: int| start < k < j ==> input@[k] != 32,
                decreases n - j,
            {
                j = j + 1;
            }
            let tok = slice_to_vec(slice_subrange(input, start, j));
            proof {
                lemma_token_end_is(input@, start as int, j as int);
                let f = |t: Vec<u8>| t@;
                assert(tokens_from(input@, start as int) == seq![
                    input@.subrange(start as int, j as int),
                ] + tokens_from(input@, j as int));
                assert((r@.push(tok)).map_values(f) =~= r@.map_values(f).push(tok@));
                assert(r@.map_values(f).push(tok@) + tokens_from(input@, j as int) =~= r@.map_values(
                    f,
                ) + tokens_from(input@, start as int));
            }
            r.push(tok);
            i = j;
        }
    }
    proof {
        assert(tokens_from(input@, n as int) =~= Seq::<Seq<u8>>::empty());
        assert(r@.map_values(|t: Vec<u8>| t@) + tokens_from(input@, n as int) =~= r@.map_values(
            |t: Vec<u8>| t@,
        ));
    }
    r
}

// ---------------------------------------------------------------------------
// Unsigned integers.
// ---------------------------------------------------------------------------

/// What a quantity token means: a non-empty run of digits whose value
/// fits.
pub open spec fn spec_parse_u64(s: Seq<u8>) -> Option<u64> {
    if s.len() >= 1 && all_digits(s) && digits_val(s) <= u64::MAX {
        Some(digits_val(s) as u64)
    } else {
        None
    }
}

fn parse_u64(t: &Vec<u8>) -> (r: Option<u64>)
    ensures
        r == spec_parse_u64(t@),
{
    if t.len() == 0 {
        return None;
    }
    let mut v: u64 = 0;
    let mut j: usize = 0;
    while j < t.len()
        invariant
            j <= t@.len(),
            t@.len() >= 1,
            all_digits(t@.take(j as int)),
            v == digits_val(t@.take(j as int)),
        decreases t@.len() - j,
    {
        let b = t[j];
        if b < 48 || b > 57 {
            proof {
                assert(!is_digit(t@[j as int]));
            }
            return None;
        }
        let d = (b - 48) as u64;
        proof {
            assert(t@.take(j as int + 1).drop_last() =~= t@.take(j as int));
            assert(t@.take(j as int + 1).last() == t@[j as int]);
            assert(forall|i: int|
                0 <= i < j + 1 ==> #[trigger] t@.take(j as int + 1)[i] == t@[i]);
        }
        if v > (u64::MAX - d) / 10 {
            proof {
                assert(digits_val(t@.take(j as int + 1)) == v * 10 + d);
                assert(v * 10 + d > u64::MAX) by (nonlinear_arith)
                    requires
                        v > (u64::MAX - d) / 10,
                        d <= 9,
                ;
                if all_digits(t@) {
                    lemma_digits_val_prefix(t@, j as int + 1);
                    assert(digits_val(t@) > u64::MAX);
                }
            }
            return None;
        }
        proof {
            assert(v * 10 + d <= u64::MAX) by (nonlinear_arith)
                requires
                    v <= (u64::MAX - d) / 10,
                    d <= 9,
            ;
        }
        v = v * 10 + d;
        j = j + 1;
    }
    proof {
        assert(t@.take(t@.len() as int) =~= t@);
    }
    Some(v)
}

// ---------------------------------------------------------------------------
// Exact decimals.
// ---------------------------------------------------------------------------

/// The first index at or after `i` holding a dot, or the end.
pub open spec fn first_dot(s: Seq<u8>, i: int) -> int
    decreases s.len() - i when 0 <= i <= s.len()
{
    if i >= s.len() {
        s.len() as int
    } else if s[i] == 46 {
        i
    } else {
        first_dot(s, i + 1)
    }
}

proof fn lemma_first_dot_is(s: Seq<u8>, i: int, j: int)
    requires
        0 <= i <= j <= s.len(),
        forall|k: int| i <= k < j ==> s[k] != 46,
        j == s.len() || s[j] == 46,
    ensures
        first_dot(s, i) == j,
    decreases s.len() - i,
{
    if i < s.len() && s[i] != 46 {
        lemma_first_dot_is(s, i + 1, j);
    }
}

/// What an unsigned decimal token means, in units of 10^-18: digits with
/// at most one dot, at least one digit before it and, when it is there,
/// one to eighteen digits after it; the digit run must fit a signed
/// 64-bit mantissa.
pub open spec fn spec_parse_dec(s: Seq<u8>) -> Option<int> {
    let d = first_dot(s, 0);
    if d == s.len() {
        if s.len() >= 1 && all_digits(s) && digits_val(s) <= i64::MAX {
            Some(digits_val(s) * pow10(18))
        } else {
            None
        }
    } else {
        let ip = s.subrange(0, d);
        let fp = s.subrange(d + 1, s.len() as int);
        if ip.len() >= 1 && fp.len() >= 1 && fp.len() <= 18 && all_digits(ip) && all_digits(fp)
            && digits_val(ip + fp) <= i64::MAX {
            Some(digits_val(ip + fp) * pow10((18 - fp.len()) as nat))
        } else {
            None
        }
    }
}

/// What a price token means: an optional leading minus before an unsigned
/// decimal.
pub open spec fn spec_parse_price(s: Seq<u8>) -> Option<int> {
    if s.len() >= 1 && s[0] == 45 {
        match spec_parse_dec(s.drop_first()) {
            Some(v) => Some(-v),
            None => None,
        }
    } else {
        spec_parse_dec(s)
    }
}

/// Accumulates the digit run `digs` into a mantissa bounded by
/// `i64::MAX`; answers nothing where a byte is no digit or the bound
/// breaks, exactly when `spec_parse_dec` would refuse for that reason.
fn accum_digits(digs: &Vec<u8>) -> (r: Option<u64>)
    ensures
        match r {
            Some(m) => all_digits(digs@) && m == digits_val(digs@) && m <= i64::MAX as u64,
            None => !(all_digits(digs@) && digits_val(digs@) <= i64::MAX),
        },
{
    let mut v: u64 = 0;
    let mut j: usize = 0;
    let bound: u64 = 0x7fff_ffff_ffff_ffff;
    while j < digs.len()
        invariant
            j <= digs@.len(),
            bound == 0x7fff_ffff_ffff_ffff,
            all_digits(digs@.take(j as int)),
            v == digits_val(digs@.take(j as int)),
            v <= bound,
        decreases digs@.len() - j,
    {
        let b = digs[j];
        if b < 48 || b > 57 {
            proof {
                assert(!is_digit(digs@[j as int]));
            }
            return None;
        }
        let d = (b - 48) as u64;
        proof {
            assert(digs@.take(j as int + 1).drop_last() =~= digs@.take(j as int));
            assert(digs@.take(j as int + 1).last() == digs@[j as int]);
            assert(forall|i: int|
                0 <= i < j + 1 ==> #[trigger] digs@.take(j as int + 1)[i] == digs@[i]);
        }
        if v > (bound - d) / 10 {
            proof {
                assert(digits_val(digs@.take(j as int + 1)) == v * 10 + d);
                assert(v * 10 + d > bound) by (nonlinear_arith)
                    requires
                        v > (bound - d) / 10,
                        d <= 9,
                        bound == 0x7fff_ffff_ffff_ffff,
                ;
                if all_digits(digs@) {
                    lemma_digits_val_prefix(digs@, j as int + 1);
                    assert(digits_val(digs@) > i64::MAX);
                }
            }
            return None;
        }
        proof {
            assert(v * 10 + d <= bound) by (nonlinear_arith)
                requires
                    v <= (bound - d) / 10,
                    d <= 9,
                    bound == 0x7fff_ffff_ffff_ffff,
            ;
        }
        v = v * 10 + d;
        j = j + 1;
    }
    proof {
        assert(digs@.take(digs@.len() as int) =~= digs@);
    }
    Some(v)
}

/// Parses an unsigned decimal into a mantissa and a scale.
fn parse_dec(b: &[u8]) -> (r: Option<(u64, u32)>)
    ensures
        match r {
            Some(p) => p.1 <= 18 && p.0 <= i64::MAX as u64 && spec_parse_dec(b@) == Some(
                (p.0 as int) * pow10((18 - p.1) as nat),
            ),
            None => spec_parse_dec(b@) is None,
        },
{
    let n = b.len();
    let mut k: usize = 0;
    while k < n && b[k] != 46
        invariant
            n == b@.len(),
            k <= n,
            forall|i: int| 0 <= i < k ==> b@[i] != 46,
        decreases n - k,
    {
        k = k + 1;
    }
    let dot: Option<usize> = if k < n {
        Some(k)
    } else {
        None
    };
    match dot {
        None => {
            proof {
                lemma_first_dot_is(b@, 0, n as int);
            }
            if n == 0 {
                return None;
            }
            let digs = slice_to_vec(b);
            match accum_digits(&digs) {
                Some(m) => Some((m, 0)),
                None => None,
            }
        },
        Some(dp) => {
            proof {
                lemma_first_dot_is(b@, 0, dp as int);
            }
            if dp < 1 || dp + 1 >= n || n - dp - 1 > 18 {
                return None;
            }
            let ip = slice_to_vec(slice_subrange(b, 0, dp));
            let fp = slice_to_vec(slice_subrange(b, dp + 1, n));
            let mut digs = ip;
            digs.append(&mut { fp });
            proof {
                assert(digs@ =~= b@.subrange(0, dp as int) + b@.subrange(
                    dp as int + 1,
                    n as int,
                ));
            }
            match accum_digits(&digs) {
                Some(m) => {
                    proof {
                        let ips = b@.subrange(0, dp as int);
                        let fps = b@.subrange(dp as int + 1, n as int);
                        assert(all_digits(ips) && all_digits(fps)) by {
                            assert(forall|i: int|
                                0 <= i < ips.len() ==> #[trigger] ips[i] == digs@[i]);
                            assert(forall|i: int|
                                0 <= i < fps.len() ==> #[trigger] fps[i] == digs@[i + ips.len()]);
                        }
                    }
                    Some((m, (n - dp - 1) as u32))
                },
                None => None,
            }
        },
    }
}

/// Parses a price token into the exact [`Price`] it spells.
fn parse_price(t: &Vec<u8>) -> (r: Option<Price>)
    ensures
        match r {
            Some(p) => spec_parse_price(t@) == Some(p@),
            None => spec_parse_price(t@) is None,
        },
{
    let n = t.len();
    let neg = n >= 1 && t[0] == 45;
    let start: usize = if neg {
        1
    } else {
        0
    };
    let body = slice_subrange(t.as_slice(), start, n);
    proof {
        if neg {
            assert(body@ =~= t@.drop_first());
        } else {
            assert(body@ =~= t@);
        }
    }
    match parse_dec(body) {
        None => None,
        Some((m, sc)) => {
            let mantissa: i64 = if neg {
                -(m as i64)
            } else {
                m as i64
            };
            match Price::new(mantissa, sc) {
                Some(p) => {
                    proof {
                        assert((-(m as int)) * pow10((18 - sc) as nat) == -((m as int) * pow10(
                            (18 - sc) as nat,
                        ))) by (nonlinear_arith);
                    }
                    Some(p)
                },
                None => {
                    proof {
                        assert(false);
                    }
                    None
                },
            }
        },
    }
}

// ---------------------------------------------------------------------------
// Words of the grammar.
// ---------------------------------------------------------------------------

pub open spec fn word_b() -> Seq<u8> {
    seq![98u8]
}

pub open spec fn word_bid() -> Seq<u8> {
    seq![98u8, 105u8, 100u8]
}

pub open spec fn word_a() -> Seq<u8> {
    seq![97u8]
}

pub open spec fn word_ask() -> Seq<u8> {
    seq![97u8, 115u8, 107u8]
}

pub open spec fn word_depth() -> Seq<u8> {
    seq![100u8, 101u8, 112u8, 116u8, 104u8]
}

pub open spec fn word_top() -> Seq<u8> {
    seq![116u8, 111u8, 112u8]
}

pub open spec fn word_size() -> Seq<u8> {
    seq![115u8, 105u8, 122u8, 101u8]
}

pub open spec fn flag_s() -> Seq<u8> {
    seq![45u8, 115u8]
}

pub open spec fn flag_p() -> Seq<u8> {
    seq![45u8, 112u8]
}

pub open spec fn flag_q() -> Seq<u8> {
    seq![45u8, 113u8]
}

/// What a side token means, regardless of letter case.
pub open spec fn spec_parse_side(t: Seq<u8>) -> Option<Side> {
    let l = lower_seq(t);
    if l == word_b() || l == word_bid() {
        Some(Side::Bid)
    } else if l == word_a() || l == word_ask() {
        Some(Side::Ask)
    } else {
        None
    }
}

/// A fully parsed command, with prices as abstract values.
pub ghost enum Command {
    Place(Side, int, u64),
    Depth(Side),
    Top(Side),
    Size(Side, int),
}

/// The whole grammar: the verb decides the shape, flags come in the
/// order the grammar writes them, and every token must be well-formed.
pub open spec fn spec_parse_command(s: Seq<u8>) -> Option<Command> {
    let ts = tokens_from(s, 0);
    if ts.len() == 0 {
        None
    } else {
        let c = lower_seq(ts[0]);
        if c == word_b() || c == word_bid() || c == word_a() || c == word_ask() {
            let side = if c == word_b() || c == word_bid() {
                Side::Bid
            } else {
                Side::Ask
            };
            if ts.len() == 5 && ts[1] == flag_p() && ts[3] == flag_q() {
                match (spec_parse_price(ts[2]), spec_parse_u64(ts[4])) {
                    (Some(p), Some(q)) => Some(Command::Place(side, p, q)),
                    _ => None,
                }
            } else {
                None
            }
        } else if c == word_depth() || c == word_top() {
            if ts.len() == 3 && ts[1] == flag_s() {
                match spec_parse_side(ts[2]) {
                    Some(sd) => if c == word_depth() {
                        Some(Command::Depth(sd))
                    } else {
                        Some(Command::Top(sd))
                    },
                    None => None,
                }
            } else {
                None
            }
        } else if c == word_size() {
            if ts.len() == 5 && ts[1] == flag_s() && ts[3] == flag_p() {
                match (spec_parse_side(ts[2]), spec_parse_price(ts[4])) {
                    (Some(sd), Some(p)) => Some(Command::Size(sd, p)),
                    _ => None,
                }
            } else {
                None
            }
        } else {
            None
        }
    }
}

fn lower_eq(t: &Vec<u8>, kw: &Vec<u8>) -> (r: bool)
    ensures
        r == (lower_seq(t@) == kw@),
{
    if t.len() != kw.len() {
        proof {
            assert(lower_seq(t@).len() == t@.len());
        }
        return false;
    }
    let mut i: usize = 0;
    while i < t.len()
        invariant
            i <= t@.len(),
            t@.len() == kw@.len(),
            forall|k: int| 0 <= k < i ==> lower(#[trigger] t@[k]) == kw@[k],
        decreases t@.len() - i,
    {
        let b = t[i];
        let lb: u8 = if b >= 65 && b <= 90 {
            b + 32
        } else {
            b
        };
        if lb != kw[i] {
            proof {
                assert(lower_seq(t@)[i as int] == lower(t@[i as int]));
            }
            return false;
        }
        i = i + 1;
    }
    proof {
        assert(lower_seq(t@) =~= kw@);
    }
    true
}

fn bytes_eq(t: &Vec<u8>, kw: &Vec<u8>) -> (r: bool)
    ensures
        r == (t@ == kw@),
{
    if t.len() != kw.len() {
        return false;
    }
    let mut i: usize = 0;
    while i < t.len()
        invariant
            i <= t@.len(),
            t@.len() == kw@.len(),
            forall|k: int| 0 <= k < i ==> (#[trigger] t@[k]) == kw@[k],
        decreases t@.len() - i,
    {
        if t[i] != kw[i] {
            return false;
        }
        i = i + 1;
    }
    proof {
        assert(t@ =~= kw@);
    }
    true
}

fn parse_side(t: &Vec<u8>) -> (r: Option<Side>)
    ensures
        r == spec_parse_side(t@),
{
    let kb: Vec<u8> = vec![98u8];
    let kbid: Vec<u8> = vec![98u8, 105u8, 100u8];
    let ka: Vec<u8> = vec![97u8];
    let kask: Vec<u8> = vec![97u8, 115u8, 107u8];
    proof {
        assert(kb@ =~= word_b());
        assert(kbid@ =~= word_bid());
        assert(ka@ =~= word_a());
        assert(kask@ =~= word_ask());
    }
    if lower_eq(t, &kb) || lower_eq(t, &kbid) {
        Some(Side::Bid)
    } else if lower_eq(t, &ka) || lower_eq(t, &kask) {
        Some(Side::Ask)
    } else {
        None
    }
}

/// Parses one line of operator input into a request, or nothing where the
/// line does not belong to the grammar.
pub fn try_parse_into_command(input: &[u8]) -> (r: Option<ToServer>)
    ensures
        match r {
            None => spec_parse_command(input@) is None,
            Some(msg) => match msg {
                ToServer::PlaceOrder(side, p, q) => spec_parse_command(input@) == Some(
                    Command::Place(side, p@, q),
                ),
                ToServer::GetBookDepth(side) => spec_parse_command(input@) == Some(
                    Command::Depth(side),
                ),
                ToServer::GetTopOfBook(side) => spec_parse_command(input@) == Some(
                    Command::Top(side),
                ),
                ToServer::GetSizeForPriceLevel(side, p) => spec_parse_command(input@) == Some(
                    Command::Size(side, p@),
                ),
            },
        },
{
    let ts = tokenize(input);
    proof {
        assert(forall|k: int|
            0 <= k < ts@.len() ==> (#[trigger] tokens_from(input@, 0)[k]) == ts@[k]@);
    }
    if ts.len() == 0 {
        return None;
    }
    let kb: Vec<u8> = vec![98u8];
    let kbid: Vec<u8> = vec![98u8, 105u8, 100u8];
    let ka: Vec<u8> = vec![97u8];
    let kask: Vec<u8> = vec![97u8, 115u8, 107u8];
    let kdepth: Vec<u8> = vec![100u8, 101u8, 112u8, 116u8, 104u8];
    let ktop: Vec<u8> = vec![116u8, 111u8, 112u8];
    let ksize: Vec<u8> = vec![115u8, 105u8, 122u8, 101u8];
    let fs: Vec<u8> = vec![45u8, 115u8];
    let fp: Vec<u8> = vec![45u8, 112u8];
    let fq: Vec<u8> = vec![45u8, 113u8];
    proof {
        assert(kb@ =~= word_b());
        assert(kbid@ =~= word_bid());
        assert(ka@ =~= word_a());
        assert(kask@ =~= word_ask());
        assert(kdepth@ =~= word_depth());
        assert(ktop@ =~= word_top());
        assert(ksize@ =~= word_size());
        assert(fs@ =~= flag_s());
        assert(fp@ =~= flag_p());
        assert(fq@ =~= flag_q());
    }
    let is_bid = lower_eq(&ts[0], &kb) || lower_eq(&ts[0], &kbid);
    let is_ask = lower_eq(&ts[0], &ka) || lower_eq(&ts[0], &kask);
    if is_bid || is_ask {
        let side = if is_bid {
            Side::Bid
        } else {
            Side::Ask
        };
        if ts.len() == 5 && bytes_eq(&ts[1], &fp) && bytes_eq(&ts[3], &fq) {
            match (parse_price(&ts[2]), parse_u64(&ts[4])) {
                (Some(p), Some(q)) => Some(ToServer::PlaceOrder(side, p, q)),
                _ => None,
            }
        } else {
            None
        }
    } else if lower_eq(&ts[0], &kdepth) {
        if ts.len() == 3 && bytes_eq(&ts[1], &fs) {
            match parse_side(&ts[2]) {
                Some(sd) => Some(ToServer::GetBookDepth(sd)),
                None => None,
            }
        } else {
            None
        }
    } else if lower_eq(&ts[0], &ktop) {
        if ts.len() == 3 && bytes_eq(&ts[1], &fs) {
            match parse_side(&ts[2]) {
                Some(sd) => Some(ToServer::GetTopOfBook(sd)),
                None => None,
            }
        } else {
            None
        }
    } else if lower_eq(&ts[0], &ksize) {
        if ts.len() == 5 && bytes_eq(&ts[1], &fs) && bytes_eq(&ts[3], &fp) {
            match (parse_side(&ts[2]), parse_price(&ts[4])) {
                (Some(sd), Some(p)) => Some(ToServer::GetSizeForPriceLevel(sd, p)),
                _ => None,
            }
        } else {
            None
        }
    } else {
        None
    }
}

} // verus!
