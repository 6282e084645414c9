use vstd::prelude::*;

use crate::point::{Point, Rgb};
use crate::store::DeserializeError;

verus! {

/// Largest value that a run of digits may spell.
pub const DIGITS_CAP: u64 = 0xFFFF_FFFF;

pub open spec fn is_digit(c: u8) -> bool {
    48 <= c <= 57
}

pub open spec fn all_digits(t: Seq<u8>) -> bool {
    forall|i: int| 0 <= i < t.len() ==> is_digit(#[trigger] t[i])
}

/// Decimal text of `n`, without leading zeros.
pub open spec fn nat_text(n: nat) -> Seq<u8>
    decreases n,
{
    if n < 10 {
        seq![(48 + n) as u8]
    } else {
        nat_text(n / 10).push((48 + n % 10) as u8)
    }
}

/// The number that a run of decimal digits spells.
pub open spec fn digits_value(t: Seq<u8>) -> nat
    decreases t.len(),
{
    if t.len() == 0 {
        0
    } else {
        digits_value(t.drop_last()) * 10 + (t.last() - 48) as nat
    }
}

/// At `pos`, `s` holds the digit run `t` and no digit right after it.
pub open spec fn run_at(s: Seq<u8>, pos: int, t: Seq<u8>) -> bool {
    &&& 0 <= pos
    &&& pos + t.len() <= s.len()
    &&& s.subrange(pos, pos + t.len()) == t
    &&& all_digits(t)
    &&& (pos + t.len() == s.len() || !is_digit(s[pos + t.len()]))
}

proof fn lemma_nat_text(n: nat)
    ensures
        1 <= nat_text(n).len() <= n + 1,
        all_digits(nat_text(n)),
        digits_value(nat_text(n)) == n,
    decreases n,
{
    if n >= 10 {
        lemma_nat_text(n / 10);
        let t = nat_text(n);
        assert(t.drop_last() =~= nat_text(n / 10));
        assert(t.last() == (48 + n % 10) as u8);
        assert(((48 + n % 10) as u8 - 48) as nat == n % 10);
        assert((n / 10) * 10 + n % 10 == n);
        assert(all_digits(t)) by {
            assert forall|i: int| 0 <= i < t.len() implies is_digit(#[trigger] t[i]) by {
                if i < t.len() - 1 {
                    assert(t[i] == nat_text(n / 10)[i]);
                }
            }
        }
    } else {
        assert(nat_text(n).drop_last() =~= Seq::<u8>::empty());
        assert(digits_value(Seq::<u8>::empty()) == 0);
    }
}

proof fn lemma_prefix_value_le(t: Seq<u8>, k: int)
    requires
        all_digits(t),
        0 <= k <= t.len(),
    ensures
        digits_value(t.take(k)) <= digits_value(t),
    decreases t.len(),
{
    if k < t.len() {
        let u = t.drop_last();
        assert(all_digits(u)) by {
            assert forall|i: int| 0 <= i < u.len() implies is_digit(#[trigger] u[i]) by {
                assert(u[i] == t[i]);
            }
        }
        lemma_prefix_value_le(u, k);
        assert(u.take(k) =~= t.take(k));
    } else {
        assert(t.take(k) =~= t);
    }
}

fn is_digit_byte(c: u8) -> (r: bool)
    ensures
        r == is_digit(c),
{
    48 <= c && c <= 57
}

/// `t` is a run of digits that spells `v`, at most `DIGITS_CAP`.
pub open spec fn digits_spell(t: Seq<u8>, v: int) -> bool {
    &&& 1 <= t.len()
    &&& all_digits(t)
    &&& digits_value(t) == v
    &&& v <= DIGITS_CAP
}

/// `t` spells the integer `v`: digits, with a minus sign before them when negative.
pub open spec fn int_spelled(t: Seq<u8>, v: int) -> bool {
    digits_spell(t, v) || (1 <= t.len() && t[0] == 45u8 && digits_spell(t.drop_first(), -v))
}

/// `t` spells a color channel `c`: a decimal `i` or `i.f`, with one to nine
/// decimals after the point, of value at most 1, taken to the nearest `c / 255`.
pub open spec fn chan_spelled(t: Seq<u8>, c: u8) -> bool {
    ||| (digits_spell(t, digits_value(t) as int) && digits_value(t) <= 1 && c == 255 * digits_value(t))
    ||| exists|j: int| #[trigger] chan_split(t, j, c)
}

/// `t` is `i.f` with the point at index `j`, and spells the channel `c`.
pub open spec fn chan_split(t: Seq<u8>, j: int, c: u8) -> bool {
    let ip = digits_value(t.take(j));
    let fp = digits_value(t.skip(j + 1));
    let k = (t.len() - j - 1) as nat;
    let n = ip * pow10(k) + fp;
    &&& 0 < j && j + 1 < t.len() && k <= 9
    &&& t[j] == 46u8
    &&& digits_spell(t.take(j), ip as int)
    &&& digits_spell(t.skip(j + 1), fp as int)
    &&& n <= pow10(k)
    &&& c == (255 * n + pow10(k) / 2) / pow10(k)
}

/// Reads the run of digits at `pos`, if it spells a number up to `DIGITS_CAP`.
fn parse_digits(s: &[u8], pos: usize) -> (r: Option<(u64, usize)>)
    requires
        pos <= s@.len(),
    ensures
        r matches Some((v, e)) ==> v <= DIGITS_CAP && pos < e <= s@.len() && digits_spell(
            s@.subrange(pos as int, e as int),
            v as int,
        ),
        forall|t: Seq<u8>|
            #[trigger] run_at(s@, pos as int, t) && 1 <= t.len() && digits_value(t) <= DIGITS_CAP
                ==> r == Some((digits_value(t) as u64, (pos + t.len()) as usize)),
{
    let mut i: usize = pos;
    let mut acc: u64 = 0;
    while i < s.len() && is_digit_byte(s[i as usize])
        invariant
            pos <= i <= s@.len(),
            acc <= DIGITS_CAP,
            acc == digits_value(s@.subrange(pos as int, i as int)),
            all_digits(s@.subrange(pos as int, i as int)),
        decreases s@.len() - i,
    {
        let ghost before = s@.subrange(pos as int, i as int);
        let ghost after = s@.subrange(pos as int, i + 1);
        assert(after.drop_last() =~= before);
        assert(all_digits(after)) by {
            assert forall|j: int| 0 <= j < after.len() implies is_digit(#[trigger] after[j]) by {
                if j < before.len() {
                    assert(after[j] == before[j]);
                }
            }
        }
        let next: u64 = acc * 10 + (s[i] - 48) as u64;
        if next > DIGITS_CAP {
            proof {
                assert forall|t: Seq<u8>|
                    #[trigger] run_at(s@, pos as int, t) && 1 <= t.len() && digits_value(t)
                        <= DIGITS_CAP implies false by {
                    if i + 1 > pos + t.len() {
                        let k = pos + t.len();
                        assert(s@[k] == after[k - pos]);
                    } else {
                        assert(after =~= t.take(i + 1 - pos));
                        lemma_prefix_value_le(t, i + 1 - pos);
                    }
                }
            }
            return None;
        }
        acc = next;
        i = i + 1;
    }
    proof {
        let got = s@.subrange(pos as int, i as int);
        assert forall|t: Seq<u8>|
            #[trigger] run_at(s@, pos as int, t) && 1 <= t.len() && digits_value(t) <= DIGITS_CAP
                implies i == pos + t.len() && got == t by {
            if i < pos + t.len() {
                assert(s@[i as int] == t[i - pos]);
            } else if i > pos + t.len() {
                let k = pos + t.len();
                assert(s@[k] == got[k - pos]);
            }
        }
    }
    if i == pos {
        return None;
    }
    Some((acc, i))
}

/// Decimal text of an integer: a minus sign before the digits of a negative one.
pub open spec fn int_text(v: int) -> Seq<u8> {
    if v < 0 {
        seq![45u8] + nat_text((-v) as nat)
    } else {
        nat_text(v as nat)
    }
}

pub open spec fn digit_char(d: nat) -> u8 {
    (48 + d) as u8
}

/// A color channel `c` (standing for `c / 255`) rounded to four decimals, scaled by
/// ten thousand.
pub open spec fn channel_scaled(c: u8) -> nat {
    ((10000 * c + 127) / 255) as nat
}

/// Exactly four decimal digits of `f`, leading zeros kept.
pub open spec fn four_digits(f: nat) -> Seq<u8> {
    seq![
        digit_char(f / 1000),
        digit_char(f / 100 % 10),
        digit_char(f / 10 % 10),
        digit_char(f % 10),
    ]
}

/// Text of a color channel: its intensity in `[0, 1]` with four decimals, such as
/// `0.5020` for `128`.
#[verifier::opaque]
pub open spec fn channel_text(c: u8) -> Seq<u8> {
    let q = channel_scaled(c);
    nat_text(q / 10000) + seq![46u8] + four_digits(q % 10000)
}

pub open spec fn pow10(k: nat) -> nat
    decreases k,
{
    if k == 0 {
        1
    } else {
        10 * pow10((k - 1) as nat)
    }
}

/// At `pos`, `s` holds `text` and no digit right after it.
pub open spec fn text_at(s: Seq<u8>, pos: int, text: Seq<u8>) -> bool {
    &&& 0 <= pos
    &&& pos + text.len() <= s.len()
    &&& s.subrange(pos, pos + text.len()) == text
    &&& (pos + text.len() == s.len() || !is_digit(s[pos + text.len()]))
}

proof fn lemma_four_digits(f: nat)
    requires
        f < 10000,
    ensures
        all_digits(four_digits(f)),
        digits_value(four_digits(f)) == f,
{
    let t = four_digits(f);
    let (a, b, c, d) = (f / 1000, f / 100 % 10, f / 10 % 10, f % 10);
    assert(a < 10);
    let t1 = seq![t[0]];
    let t2 = seq![t[0], t[1]];
    let t3 = seq![t[0], t[1], t[2]];
    assert(t1.drop_last() =~= Seq::<u8>::empty());
    assert(t2.drop_last() =~= t1);
    assert(t3.drop_last() =~= t2);
    assert(t.drop_last() =~= t3);
    assert(digits_value(Seq::<u8>::empty()) == 0);
    assert(digits_value(t1) == a);
    assert(digits_value(t2) == a * 10 + b);
    assert(digits_value(t3) == (a * 10 + b) * 10 + c);
    assert(digits_value(t) == ((a * 10 + b) * 10 + c) * 10 + d);
    assert(((a * 10 + b) * 10 + c) * 10 + d == f) by (nonlinear_arith)
        requires
            a == f / 1000,
            b == f / 100 % 10,
            c == f / 10 % 10,
            d == f % 10,
            f < 10000,
    ;
}

proof fn lemma_channel_round(c: u8)
    ensures
        channel_scaled(c) <= 10000,
        (255 * channel_scaled(c) + 5000) / 10000 == c,
{
    let q = channel_scaled(c) as int;
    let x = 10000 * (c as int) + 127;
    assert(255 * q <= x && x < 255 * q + 255) by (nonlinear_arith)
        requires
            q == x / 255,
            0 <= x,
    ;
    assert(q <= 10000);
    let y = 255 * q + 5000;
    assert(10000 * (c as int) <= y && y < 10000 * (c as int) + 10000);
    assert(y / 10000 == c as int) by (nonlinear_arith)
        requires
            10000 * (c as int) <= y && y < 10000 * (c as int) + 10000,
    ;
}

/// Appends the decimal text of `n`.
fn write_nat(out: &mut Vec<u8>, n: u64)
    ensures
        final(out)@ == old(out)@ + nat_text(n as nat),
    decreases n,
{
    if n < 10 {
        out.push((48 + n) as u8);
    } else {
        write_nat(out, n / 10);
        out.push((48 + n % 10) as u8);
    }
    assert(final(out)@ =~= old(out)@ + nat_text(n as nat));
}

/// Appends the decimal text of `v`.
fn write_int(out: &mut Vec<u8>, v: i32)
    ensures
        final(out)@ == old(out)@ + int_text(v as int),
{
    if v < 0 {
        out.push(45u8);
        let m: u64 = (-(v as i64)) as u64;
        write_nat(out, m);
        assert(final(out)@ =~= old(out)@ + int_text(v as int));
    } else {
        write_nat(out, v as u64);
    }
}

/// Appends the text of a color channel.
fn write_channel(out: &mut Vec<u8>, c: u8)
    ensures
        final(out)@ == old(out)@ + channel_text(c),
{
    proof {
        lemma_channel_round(c);
    }
    let q: u64 = (10000 * (c as u64) + 127) / 255;
    write_nat(out, q / 10000);
    out.push(46u8);
    let f = q % 10000;
    out.push((48 + f / 1000) as u8);
    out.push((48 + f / 100 % 10) as u8);
    out.push((48 + f / 10 % 10) as u8);
    out.push((48 + f % 10) as u8);
    reveal(channel_text);
    assert(final(out)@ =~= old(out)@ + channel_text(c));
}

/// Reads an integer at `pos`: an optional minus sign and a run of digits.
fn parse_int(s: &[u8], pos: usize) -> (r: Option<(i32, usize)>)
    requires
        pos <= s@.len(),
    ensures
        r matches Some((_, e)) ==> pos < e <= s@.len(),
        r matches Some((v, e)) ==> int_spelled(s@.subrange(pos as int, e as int), v as int),
        forall|t: Seq<u8>, v: i32|
            #[trigger] int_spelled(t, v as int) && text_at(s@, pos as int, t) ==> r == Some(
                (v, (pos + t.len()) as usize),
            ),
{
    if pos < s.len() && s[pos] == 45u8 {
        let d = parse_digits(s, pos + 1);
        proof {
            assert forall|t: Seq<u8>, v: i32|
                #[trigger] int_spelled(t, v as int) && text_at(s@, pos as int, t) implies d == Some(
                ((-v) as u64, (pos + t.len()) as usize),
            ) && v <= 0 by {
                assert(s@[pos as int] == t[0]);
                if digits_spell(t, v as int) {
                    assert(is_digit(t[0]));
                }
                let u = t.drop_first();
                assert(s@.subrange(pos + 1, pos + 1 + u.len()) =~= u);
                assert(run_at(s@, pos + 1, u));
            }
        }
        match d {
            Some((n, e)) => {
                if n <= 0x8000_0000 {
                    assert(s@.subrange(pos as int, e as int).drop_first() =~= s@.subrange(
                        pos + 1,
                        e as int,
                    ));
                    Some(((-(n as i64)) as i32, e))
                } else {
                    None
                }
            },
            None => None,
        }
    } else {
        let d = parse_digits(s, pos);
        proof {
            assert forall|t: Seq<u8>, v: i32|
                #[trigger] int_spelled(t, v as int) && text_at(s@, pos as int, t) implies d == Some(
                (v as u64, (pos + t.len()) as usize),
            ) && v >= 0 by {
                if !digits_spell(t, v as int) {
                    assert(s@[pos as int] == t[0]);
                }
                assert(run_at(s@, pos as int, t));
            }
        }
        match d {
            Some((n, e)) => {
                if n <= 0x7FFF_FFFF {
                    Some((n as i32, e))
                } else {
                    None
                }
            },
            None => None,
        }
    }
}

/// The value of a decimal `ip.fp` with `k` decimals, taken to the nearest multiple
/// of `1 / 255`, or `None` above 1.
fn scale_channel(ip: u64, fp: u64, k: u32) -> (r: Option<u8>)
    requires
        ip <= DIGITS_CAP,
        fp <= DIGITS_CAP,
        k <= 9,
    ensures
        ({
            let sc = pow10(k as nat) as int;
            let n = ip * sc + fp;
            &&& n <= sc ==> r == Some(((255 * n + sc / 2) / sc) as u8)
            &&& n > sc ==> r is None
            &&& r matches Some(c) ==> c as int == (255 * n + sc / 2) / sc
        }),
{
    let scale = pow10_exec(k);
    proof {
        lemma_pow10_bound(4);
    }
    assert(ip * scale <= 0xFFFF_FFFF * 1_000_000_000) by (nonlinear_arith)
        requires
            ip <= 0xFFFF_FFFF,
            scale <= 1_000_000_000,
    ;
    let n: u64 = ip * scale + fp;
    if n > scale {
        return None;
    }
    let c = (255 * n + scale / 2) / scale;
    assert(c <= 255) by (nonlinear_arith)
        requires
            c as int == (255 * n as int + scale as int / 2) / scale as int,
            n <= scale,
            1 <= scale,
    ;
    proof {
        lemma_pow10_bound(4);
    }
    Some(c as u8)
}

/// The spelling `t` of a channel at `pos`, split at its decimal point (at `j`, or
/// `j == t.len()` when it has none).
proof fn lemma_chan_spelling(s: Seq<u8>, pos: int, t: Seq<u8>, c: u8) -> (j: int)
    requires
        chan_spelled(t, c),
        text_at(s, pos, t),
        pos + t.len() == s.len() || s[pos + t.len()] != 46u8,
    ensures
        0 < j <= t.len(),
        run_at(s, pos, t.take(j)),
        digits_spell(t.take(j), digits_value(t.take(j)) as int),
        j == t.len() ==> digits_value(t) <= 1 && c == 255 * digits_value(t) && (pos + j == s.len()
            || s[pos + j] != 46u8),
        j < t.len() ==> chan_split(t, j, c) && s[pos + j] == 46u8 && run_at(
            s,
            pos + j + 1,
            t.skip(j + 1),
        ),
{
    if digits_spell(t, digits_value(t) as int) && digits_value(t) <= 1 && c == 255 * digits_value(t) {
        assert(t.take(t.len() as int) =~= t);
        t.len() as int
    } else {
        let j = choose|j: int| #[trigger] chan_split(t, j, c);
        assert(s.subrange(pos, pos + j) =~= t.take(j));
        assert(s[pos + j] == t[j]);
        let u = t.skip(j + 1);
        assert(s.subrange(pos + j + 1, pos + j + 1 + u.len()) =~= u);
        j
    }
}

/// Reads a color channel at `pos`: a decimal number `i` or `i.f` in `[0, 1]` with up
/// to nine decimals, taken to the nearest multiple of `1 / 255`.
#[verifier::rlimit(100)]
fn parse_channel(s: &[u8], pos: usize) -> (r: Option<(u8, usize)>)
    requires
        pos <= s@.len(),
    ensures
        r matches Some((_, e)) ==> pos < e <= s@.len(),
        r matches Some((c, e)) ==> chan_spelled(s@.subrange(pos as int, e as int), c),
        forall|t: Seq<u8>, c: u8|
            #[trigger] chan_spelled(t, c) && text_at(s@, pos as int, t) && (pos + t.len() == s@.len()
                || s@[pos + t.len()] != 46u8) ==> r == Some((c, (pos + t.len()) as usize)),
{
    let int_part = parse_digits(s, pos);
    let (ip, e1) = match int_part {
        Some(x) => x,
        None => {
        proof {
            assert forall|t: Seq<u8>, c: u8| #[trigger] chan_spelled(t, c) && text_at(s@, pos as int, t) && (pos + t.len() == s@.len() || s@[pos + t.len()] != 46u8) implies false by {
                let j = lemma_chan_spelling(s@, pos as int, t, c);
            }
        }
            return None;
        },
    };
    if e1 >= s.len() || s[e1] != 46u8 {
        // A whole number: `0` or `1`.
        let whole = scale_channel(ip, 0, 0);
        proof {
            assert(pow10(0) == 1);
        }
        proof {
            assert forall|t: Seq<u8>, c: u8| #[trigger] chan_spelled(t, c) && text_at(s@, pos as int, t) && (pos + t.len() == s@.len() || s@[pos + t.len()] != 46u8) implies whole == Some(c) && e1 == pos + t.len() by {
                let j = lemma_chan_spelling(s@, pos as int, t, c);
                assert(t.take(j) =~= t);
            }
        }

        return match whole {
            Some(c) => Some((c, e1)),
            None => None,
        };
    }
    let frac_part = parse_digits(s, e1 + 1);
    let (fp, e2) = match frac_part {
        Some(x) => x,
        None => {
        proof {
            assert forall|t: Seq<u8>, c: u8| #[trigger] chan_spelled(t, c) && text_at(s@, pos as int, t) && (pos + t.len() == s@.len() || s@[pos + t.len()] != 46u8) implies false by {
                let j = lemma_chan_spelling(s@, pos as int, t, c);
            }
        }
            return None;
        },
    };
    let k = e2 - e1 - 1;
    if k > 9 {
        proof {
            assert forall|t: Seq<u8>, c: u8| #[trigger] chan_spelled(t, c) && text_at(s@, pos as int, t) && (pos + t.len() == s@.len() || s@[pos + t.len()] != 46u8) implies false by {
                let j = lemma_chan_spelling(s@, pos as int, t, c);
            }
        }
        return None;
    }
    let sc = scale_channel(ip, fp, k as u32);
        proof {
            assert forall|t: Seq<u8>, c: u8| #[trigger] chan_spelled(t, c) && text_at(s@, pos as int, t) && (pos + t.len() == s@.len() || s@[pos + t.len()] != 46u8) implies sc == Some(c) && e2 == pos + t.len() by {
                let j = lemma_chan_spelling(s@, pos as int, t, c);
            }
        }
    proof {
        let t = s@.subrange(pos as int, e2 as int);
        let j = e1 - pos;
        assert(t.take(j) =~= s@.subrange(pos as int, e1 as int));
        assert(t.skip(j + 1) =~= s@.subrange(e1 + 1, e2 as int));
        assert(t[j] == s@[e1 as int]);
        if let Some(c) = sc {
            assert(chan_split(t, j, c));
        }
    }
    match sc {
        Some(c) => Some((c, e2)),
        None => None,
    }
}

fn pow10_exec(k: u32) -> (r: u64)
    requires
        k <= 9,
    ensures
        r == pow10(k as nat),
        1 <= r <= 1_000_000_000,
{
    let mut r: u64 = 1;
    let mut i: u32 = 0;
    while i < k
        invariant
            i <= k <= 9,
            r == pow10(i as nat),
            1 <= r,
        decreases k - i,
    {
        proof {
            lemma_pow10_bound(i as nat);
        }
        r = r * 10;
        i = i + 1;
    }
    proof {
        lemma_pow10_bound(k as nat);
    }
    r
}

proof fn lemma_pow10_bound(i: nat)
    requires
        i <= 9,
    ensures
        pow10(i) <= pow10(9),
        pow10(9) == 1_000_000_000,
        pow10(4) == 10000,
    decreases 9 - i,
{
    assert(pow10(0) == 1);
    assert(pow10(1) == 10);
    assert(pow10(2) == 100);
    assert(pow10(3) == 1000);
    assert(pow10(4) == 10000);
    assert(pow10(5) == 100000);
    assert(pow10(6) == 1000000);
    assert(pow10(7) == 10000000);
    assert(pow10(8) == 100000000);
    assert(pow10(9) == 1000000000);
    if i < 9 {
        lemma_pow10_bound(i + 1);
    }
}

/// `{"pos":[`
pub open spec fn open_text() -> Seq<u8> {
    seq![123u8, 34, 112, 111, 115, 34, 58, 91]
}

/// `],"color":[`
pub open spec fn mid_text() -> Seq<u8> {
    seq![93u8, 44, 34, 99, 111, 108, 111, 114, 34, 58, 91]
}

/// `]}`
pub open spec fn close_text() -> Seq<u8> {
    seq![93u8, 125]
}

pub open spec fn comma() -> Seq<u8> {
    seq![44u8]
}

/// Text of a point: `{"pos":[x,y],"color":[r,g,b]}`, each channel as in
/// `channel_text`.
#[verifier::opaque]
pub open spec fn point_text(p: Point) -> Seq<u8> {
    open_text() + (int_text(p.pos[0] as int) + (comma() + (int_text(p.pos[1] as int) + (mid_text() + (
    channel_text(p.color.r) + (comma() + (channel_text(p.color.g) + (comma() + (channel_text(
        p.color.b,
    ) + close_text())))))))))
}

/// `t` spells the position part of a point: `{"pos":[x,y`.
pub open spec fn pos_spelled(t: Seq<u8>, xy: [i32; 2]) -> bool {
    exists|ix: Seq<u8>, iy: Seq<u8>|
        #![trigger int_spelled(ix, xy[0] as int), int_spelled(iy, xy[1] as int)]
        t == open_text() + ix + comma() + iy && int_spelled(ix, xy[0] as int) && int_spelled(
            iy,
            xy[1] as int,
        )
}

/// `t` spells the color part of a point: `],"color":[r,g,b]}`.
pub open spec fn color_spelled(t: Seq<u8>, c: Rgb) -> bool {
    exists|cr: Seq<u8>, cg: Seq<u8>, cb: Seq<u8>|
        #![trigger chan_spelled(cr, c.r), chan_spelled(cg, c.g), chan_spelled(cb, c.b)]
        t == mid_text() + cr + comma() + cg + comma() + cb + close_text() && chan_spelled(cr, c.r)
            && chan_spelled(cg, c.g) && chan_spelled(cb, c.b)
}

/// `t` spells the point `p`: `{"pos":[x,y],"color":[r,g,b]}`, each number spelled as
/// `int_spelled` and `chan_spelled` allow.
pub open spec fn point_spelled(t: Seq<u8>, p: Point) -> bool {
    exists|a: Seq<u8>, b: Seq<u8>|
        #![trigger pos_spelled(a, p.pos), color_spelled(b, p.color)]
        t == a + b && pos_spelled(a, p.pos) && color_spelled(b, p.color)
}

/// The point spellings `parts` separated by commas.
pub open spec fn join_parts(parts: Seq<Seq<u8>>) -> Seq<u8>
    decreases parts.len(),
{
    if parts.len() == 0 {
        Seq::empty()
    } else {
        join_parts(parts.drop_last()) + sep(parts.len() - 1) + parts.last()
    }
}

/// `t` spells the point list `ps`: `[`, a spelling of each point, separated by
/// commas, then `]`.
pub open spec fn list_spelled(t: Seq<u8>, ps: Seq<Point>) -> bool {
    exists|parts: Seq<Seq<u8>>|
        #![trigger join_parts(parts)]
        parts.len() == ps.len() && (forall|i: int|
            0 <= i < ps.len() ==> point_spelled(#[trigger] parts[i], ps[i])) && t == seq![91u8]
            + join_parts(parts) + seq![93u8]
}

/// At `pos`, `s` holds `text`.
pub open spec fn holds_at(s: Seq<u8>, pos: int, text: Seq<u8>) -> bool {
    &&& 0 <= pos
    &&& pos + text.len() <= s.len()
    &&& s.subrange(pos, pos + text.len()) == text
}

pub open spec fn off_y(pos: int, p: Point) -> int {
    pos + 8 + int_text(p.pos[0] as int).len() + 1
}

pub open spec fn off_mid(pos: int, p: Point) -> int {
    off_y(pos, p) + int_text(p.pos[1] as int).len()
}

pub open spec fn off_g(pos: int, p: Point) -> int {
    off_mid(pos, p) + 11 + channel_text(p.color.r).len() + 1
}

pub open spec fn off_b(pos: int, p: Point) -> int {
    off_g(pos, p) + channel_text(p.color.g).len() + 1
}

pub open spec fn off_close(pos: int, p: Point) -> int {
    off_b(pos, p) + channel_text(p.color.b).len()
}

proof fn lemma_peel(s: Seq<u8>, q: int, a: Seq<u8>, rest: Seq<u8>)
    requires
        holds_at(s, q, a + rest),
    ensures
        holds_at(s, q, a),
        holds_at(s, q + a.len(), rest),
        rest.len() > 0 ==> s[q + a.len()] == rest[0],
{
    assert(s.subrange(q, q + a.len()) =~= (a + rest).subrange(0, a.len() as int));
    assert((a + rest).subrange(0, a.len() as int) =~= a);
    let whole = s.subrange(q, q + a.len() + rest.len());
    assert forall|k: int| 0 <= k < rest.len() implies s.subrange(
        q + a.len(),
        q + a.len() + rest.len(),
    )[k] == rest[k] by {
        assert(whole[a.len() + k] == s[q + a.len() + k]);
        assert((a + rest)[a.len() + k] == rest[k]);
    }
    assert(s.subrange(q + a.len(), q + a.len() + rest.len()) =~= rest);
    if rest.len() > 0 {
        assert(s[q + a.len()] == (a + rest)[a.len() as int]);
    }
}

proof fn lemma_point_parts(s: Seq<u8>, pos: int, p: Point)
    requires
        holds_at(s, pos, point_text(p)),
    ensures
        holds_at(s, pos, open_text()),
        text_at(s, pos + 8, int_text(p.pos[0] as int)),
        s[off_y(pos, p) - 1] == 44u8,
        text_at(s, off_y(pos, p), int_text(p.pos[1] as int)),
        holds_at(s, off_mid(pos, p), mid_text()),
        text_at(s, off_mid(pos, p) + 11, channel_text(p.color.r)),
        s[off_g(pos, p) - 1] == 44u8,
        text_at(s, off_g(pos, p), channel_text(p.color.g)),
        s[off_b(pos, p) - 1] == 44u8,
        text_at(s, off_b(pos, p), channel_text(p.color.b)),
        holds_at(s, off_close(pos, p), close_text()),
        point_text(p).len() == off_close(pos, p) + 2 - pos,
{
    let ix = int_text(p.pos[0] as int);
    let iy = int_text(p.pos[1] as int);
    let cr = channel_text(p.color.r);
    let cg = channel_text(p.color.g);
    let cb = channel_text(p.color.b);
    let t10 = cb + close_text();
    let t9 = comma() + t10;
    let t8 = cg + t9;
    let t7 = comma() + t8;
    let t6 = cr + t7;
    let t5 = mid_text() + t6;
    let t4 = iy + t5;
    let t3 = comma() + t4;
    let t2 = ix + t3;
    reveal(point_text);
    lemma_peel(s, pos, open_text(), t2);
    lemma_peel(s, pos + 8, ix, t3);
    let q3 = pos + 8 + ix.len();
    lemma_peel(s, q3, comma(), t4);
    lemma_peel(s, q3 + 1, iy, t5);
    let q5 = q3 + 1 + iy.len();
    lemma_peel(s, q5, mid_text(), t6);
    lemma_peel(s, q5 + 11, cr, t7);
    let q7 = q5 + 11 + cr.len();
    lemma_peel(s, q7, comma(), t8);
    lemma_peel(s, q7 + 1, cg, t9);
    let q9 = q7 + 1 + cg.len();
    lemma_peel(s, q9, comma(), t10);
    lemma_peel(s, q9 + 1, cb, close_text());
}

/// Whether `s` holds `lit` at `pos`.
fn holds_lit(s: &[u8], pos: usize, lit: &[u8]) -> (r: bool)
    ensures
        r == holds_at(s@, pos as int, lit@),
{
    let n = s.len();
    if pos > n || lit.len() > n - pos {
        return false;
    }
    let mut i: usize = 0;
    while i < lit.len()
        invariant
            n == s@.len(),
            pos + lit@.len() <= s@.len(),
            i <= lit@.len(),
            forall|j: int| 0 <= j < i ==> s@[pos + j] == lit@[j],
        decreases lit@.len() - i,
    {
        if s[pos + i] != lit[i] {
            assert(s@.subrange(pos as int, pos + lit@.len())[i as int] != lit@[i as int]);
            return false;
        }
        i = i + 1;
    }
    assert(s@.subrange(pos as int, pos + lit@.len()) =~= lit@);
    true
}

fn open_lit() -> (r: Vec<u8>)
    ensures
        r@ == open_text(),
{
    let v: Vec<u8> = vec![123u8, 34, 112, 111, 115, 34, 58, 91];
    assert(v@ =~= open_text());
    v
}

fn mid_lit() -> (r: Vec<u8>)
    ensures
        r@ == mid_text(),
{
    let v: Vec<u8> = vec![93u8, 44, 34, 99, 111, 108, 111, 114, 34, 58, 91];
    assert(v@ =~= mid_text());
    v
}

fn close_lit() -> (r: Vec<u8>)
    ensures
        r@ == close_text(),
{
    let v: Vec<u8> = vec![93u8, 125];
    assert(v@ =~= close_text());
    v
}

/// Whether `s` holds the byte `b` at `pos`.
fn byte_at(s: &[u8], pos: usize, b: u8) -> (r: bool)
    ensures
        r == (pos < s@.len() && s@[pos as int] == b),
{
    pos < s.len() && s[pos] == b
}

proof fn lemma_pos_spelling(s: Seq<u8>, pos: int, t: Seq<u8>, xy: [i32; 2]) -> (r: (Seq<u8>, Seq<u8>))
    requires
        pos_spelled(t, xy),
        holds_at(s, pos, t),
        pos + t.len() == s.len() || !is_digit(s[pos + t.len()]),
    ensures
        holds_at(s, pos, open_text()),
        text_at(s, pos + 8, r.0),
        int_spelled(r.0, xy[0] as int),
        s[pos + 8 + r.0.len()] == 44u8,
        text_at(s, pos + 9 + r.0.len(), r.1),
        int_spelled(r.1, xy[1] as int),
        t.len() == 9 + r.0.len() + r.1.len(),
{
    let (ix, iy) = choose|ix: Seq<u8>, iy: Seq<u8>|
        #![trigger int_spelled(ix, xy[0] as int), int_spelled(iy, xy[1] as int)]
        t == open_text() + ix + comma() + iy && int_spelled(ix, xy[0] as int) && int_spelled(
            iy,
            xy[1] as int,
        );
    assert(t == open_text() + ix + comma() + iy);
    assert(s.subrange(pos, pos + 8) =~= open_text()) by {
        assert forall|k: int| 0 <= k < 8 implies s[pos + k] == open_text()[k] by {
            assert(s.subrange(pos, pos + t.len())[k] == t[k]);
        }
    }
    assert(s.subrange(pos + 8, pos + 8 + ix.len()) =~= ix) by {
        assert forall|k: int| 0 <= k < ix.len() implies s[pos + 8 + k] == ix[k] by {
            assert(s.subrange(pos, pos + t.len())[8 + k] == t[8 + k]);
        }
    }
    assert(s[pos + 8 + ix.len()] == 44u8) by {
        assert(s.subrange(pos, pos + t.len())[8 + ix.len() as int] == t[8 + ix.len() as int]);
    }
    let q = pos + 9 + ix.len();
    assert(s.subrange(q, q + iy.len()) =~= iy) by {
        assert forall|k: int| 0 <= k < iy.len() implies s[q + k] == iy[k] by {
            assert(s.subrange(pos, pos + t.len())[9 + ix.len() + k] == t[9 + ix.len() + k]);
        }
    }
    (ix, iy)
}

/// The channel spellings of a spelling `t` of the color part of a point.
pub open spec fn color_parts(t: Seq<u8>, c: Rgb) -> (Seq<u8>, Seq<u8>, Seq<u8>) {
    choose|cr: Seq<u8>, cg: Seq<u8>, cb: Seq<u8>|
        #![trigger chan_spelled(cr, c.r), chan_spelled(cg, c.g), chan_spelled(cb, c.b)]
        t == mid_text() + cr + comma() + cg + comma() + cb + close_text() && chan_spelled(cr, c.r)
            && chan_spelled(cg, c.g) && chan_spelled(cb, c.b)
}

proof fn lemma_color_spelling(s: Seq<u8>, pos: int, t: Seq<u8>, c: Rgb) -> (r: (Seq<u8>, Seq<u8>, Seq<u8>))
    requires
        color_spelled(t, c),
        holds_at(s, pos, t),
    ensures
        holds_at(s, pos, mid_text()),
        text_at(s, pos + 11, r.0),
        chan_spelled(r.0, c.r),
        s[pos + 11 + r.0.len()] == 44u8,
        text_at(s, pos + 12 + r.0.len(), r.1),
        chan_spelled(r.1, c.g),
        s[pos + 12 + r.0.len() + r.1.len()] == 44u8,
        text_at(s, pos + 13 + r.0.len() + r.1.len(), r.2),
        chan_spelled(r.2, c.b),
        s[pos + 13 + r.0.len() + r.1.len() + r.2.len()] == 93u8,
        holds_at(s, pos + 13 + r.0.len() + r.1.len() + r.2.len(), close_text()),
        t.len() == 15 + r.0.len() + r.1.len() + r.2.len(),
        r == color_parts(t, c),
{
    let (cr, cg, cb) = color_parts(t, c);
    let w = s.subrange(pos, pos + t.len());
    assert(w == t);
    assert forall|k: int| 0 <= k < t.len() implies s[pos + k] == t[k] by {
        assert(w[k] == t[k]);
    }
    let a = pos + 11;
    let b = a + cr.len() + 1;
    let d = b + cg.len() + 1;
    let e = d + cb.len();
    assert(s.subrange(pos, pos + 11) =~= mid_text()) by {
        assert forall|k: int| 0 <= k < 11 implies s.subrange(pos, pos + 11)[k] == mid_text()[k] by {
            assert(s[pos + k] == t[k]);
        }
    }
    assert(s.subrange(a, a + cr.len()) =~= cr) by {
        assert forall|k: int| 0 <= k < cr.len() implies s.subrange(a, a + cr.len())[k] == cr[k] by {
            assert(s[a + k] == t[11 + k]);
        }
    }
    assert(s[a + cr.len()] == t[11 + cr.len() as int]);
    assert(s.subrange(b, b + cg.len()) =~= cg) by {
        assert forall|k: int| 0 <= k < cg.len() implies s.subrange(b, b + cg.len())[k] == cg[k] by {
            assert(s[b + k] == t[12 + cr.len() + k]);
        }
    }
    assert(s[b + cg.len()] == t[12 + cr.len() + cg.len() as int]);
    assert(s.subrange(d, d + cb.len()) =~= cb) by {
        assert forall|k: int| 0 <= k < cb.len() implies s.subrange(d, d + cb.len())[k] == cb[k] by {
            assert(s[d + k] == t[13 + cr.len() + cg.len() + k]);
        }
    }
    assert(s[e] == t[13 + cr.len() + cg.len() + cb.len() as int]);
    assert(s.subrange(e, e + 2) =~= close_text()) by {
        assert forall|k: int| 0 <= k < 2 implies s.subrange(e, e + 2)[k] == close_text()[k] by {
            assert(s[e + k] == t[13 + cr.len() + cg.len() + cb.len() + k]);
        }
    }
    (cr, cg, cb)
}

proof fn lemma_point_spelling(s: Seq<u8>, pos: int, t: Seq<u8>, p: Point) -> (r: (Seq<u8>, Seq<u8>))
    requires
        point_spelled(t, p),
        holds_at(s, pos, t),
    ensures
        pos_spelled(r.0, p.pos),
        color_spelled(r.1, p.color),
        holds_at(s, pos, r.0),
        holds_at(s, pos + r.0.len(), r.1),
        r.1.len() >= 1 && s[pos + r.0.len()] == 93u8,
        t.len() == r.0.len() + r.1.len(),
{
    let (a, b) = choose|a: Seq<u8>, b: Seq<u8>|
        #![trigger pos_spelled(a, p.pos), color_spelled(b, p.color)]
        t == a + b && pos_spelled(a, p.pos) && color_spelled(b, p.color);
    lemma_peel(s, pos, a, b);
    let (cr, cg, cb) = choose|cr: Seq<u8>, cg: Seq<u8>, cb: Seq<u8>|
        #![trigger chan_spelled(cr, p.color.r), chan_spelled(cg, p.color.g), chan_spelled(cb, p.color.b)]
        b == mid_text() + cr + comma() + cg + comma() + cb + close_text() && chan_spelled(cr, p.color.r)
            && chan_spelled(cg, p.color.g) && chan_spelled(cb, p.color.b);
    assert(b[0] == 93u8);
    (a, b)
}

proof fn lemma_int_text_spelled(v: int)
    requires
        i32::MIN <= v <= i32::MAX,
    ensures
        int_spelled(int_text(v), v),
{
    if v < 0 {
        lemma_nat_text((-v) as nat);
        assert(int_text(v).drop_first() =~= nat_text((-v) as nat));
    } else {
        lemma_nat_text(v as nat);
    }
}

proof fn lemma_channel_text_spelled(c: u8)
    ensures
        chan_spelled(channel_text(c), c),
{
    reveal(channel_text);
    let q = channel_scaled(c);
    lemma_channel_round(c);
    lemma_nat_text(q / 10000);
    lemma_four_digits(q % 10000);
    lemma_pow10_bound(4);
    let t = channel_text(c);
    let j = nat_text(q / 10000).len() as int;
    assert(t.take(j) =~= nat_text(q / 10000));
    assert(t.skip(j + 1) =~= four_digits(q % 10000));
    assert(t[j] == 46u8);
    assert(chan_split(t, j, c));
}

/// The text of a point is one of its spellings.
proof fn lemma_point_text_spelled(p: Point)
    ensures
        point_spelled(point_text(p), p),
{
    let ix = int_text(p.pos[0] as int);
    let iy = int_text(p.pos[1] as int);
    let cr = channel_text(p.color.r);
    let cg = channel_text(p.color.g);
    let cb = channel_text(p.color.b);
    lemma_int_text_spelled(p.pos[0] as int);
    lemma_int_text_spelled(p.pos[1] as int);
    lemma_channel_text_spelled(p.color.r);
    lemma_channel_text_spelled(p.color.g);
    lemma_channel_text_spelled(p.color.b);
    let a = open_text() + ix + comma() + iy;
    let b = mid_text() + cr + comma() + cg + comma() + cb + close_text();
    assert(pos_spelled(a, p.pos));
    assert(color_spelled(b, p.color));
    reveal(point_text);
    assert(point_text(p) =~= a + b);
}

/// Reads the position part of a point at `pos`: `{"pos":[x,y`.
fn parse_point_pos(s: &[u8], pos: usize) -> (r: Option<([i32; 2], usize)>)
    ensures
        r matches Some((_, e)) ==> pos < e <= s@.len(),
        r matches Some((xy, e)) ==> pos_spelled(s@.subrange(pos as int, e as int), xy),
        forall|t: Seq<u8>, q: [i32; 2]|
            #[trigger] pos_spelled(t, q) && holds_at(s@, pos as int, t) && (pos + t.len() == s@.len()
                || !is_digit(s@[pos + t.len()])) ==> r == Some((q, (pos + t.len()) as usize)),
{
    // Taking the length bounds every position in `s` by `usize::MAX`.
    let _len = s.len();
    let open = open_lit();
    if !holds_lit(s, pos, open.as_slice()) {
        proof {
            assert forall|t: Seq<u8>, q: [i32; 2]| #[trigger] pos_spelled(t, q) && holds_at(s@, pos as int, t)
                && (pos + t.len() == s@.len() || !is_digit(s@[pos + t.len()])) implies false by {
                let _parts = lemma_pos_spelling(s@, pos as int, t, q);
            }
        }
        return None;
    }
    let xr = parse_int(s, pos + 8);
    let (x, ex) = match xr {
        Some(v) => v,
        None => {
            proof {
                assert forall|t: Seq<u8>, q: [i32; 2]| #[trigger] pos_spelled(t, q) && holds_at(s@, pos as int, t)
                    && (pos + t.len() == s@.len() || !is_digit(s@[pos + t.len()])) implies false by {
                    let _parts = lemma_pos_spelling(s@, pos as int, t, q);
                }
            }
            return None;
        },
    };
    if !byte_at(s, ex, 44u8) {
        proof {
            assert forall|t: Seq<u8>, q: [i32; 2]| #[trigger] pos_spelled(t, q) && holds_at(s@, pos as int, t)
                && (pos + t.len() == s@.len() || !is_digit(s@[pos + t.len()])) implies false by {
                let _parts = lemma_pos_spelling(s@, pos as int, t, q);
            }
        }
        return None;
    }
    let yr = parse_int(s, ex + 1);
    let (y, ey) = match yr {
        Some(v) => v,
        None => {
            proof {
                assert forall|t: Seq<u8>, q: [i32; 2]| #[trigger] pos_spelled(t, q) && holds_at(s@, pos as int, t)
                    && (pos + t.len() == s@.len() || !is_digit(s@[pos + t.len()])) implies false by {
                    let _parts = lemma_pos_spelling(s@, pos as int, t, q);
                }
            }
            return None;
        },
    };
    let xy = [x, y];
    proof {
        let ix = s@.subrange(pos + 8, ex as int);
        let iy = s@.subrange(ex + 1, ey as int);
        assert(s@.subrange(pos as int, ey as int) =~= open_text() + ix + comma() + iy);
        assert(int_spelled(ix, xy[0] as int) && int_spelled(iy, xy[1] as int));
        assert forall|t: Seq<u8>, q: [i32; 2]| #[trigger] pos_spelled(t, q) && holds_at(s@, pos as int, t)
            && (pos + t.len() == s@.len() || !is_digit(s@[pos + t.len()])) implies xy == q && ey == pos
            + t.len() by {
            let _parts = lemma_pos_spelling(s@, pos as int, t, q);
            assert(xy =~= q);
        }
    }
    Some((xy, ey))
}

/// Reads a color channel at `pos` and the byte `sep` right after it.
fn parse_channel_then(s: &[u8], pos: usize, sep: u8) -> (r: Option<(u8, usize)>)
    requires
        pos <= s@.len(),
        sep != 46u8,
        !is_digit(sep),
    ensures
        r matches Some((_, e)) ==> pos + 1 < e <= s@.len() && s@[e - 1] == sep,
        r matches Some((c, e)) ==> chan_spelled(s@.subrange(pos as int, e - 1), c),
        forall|t: Seq<u8>, c: u8|
            #[trigger] chan_spelled(t, c) && holds_at(s@, pos as int, t) && pos + t.len() < s@.len()
                && s@[pos + t.len()] == sep ==> r == Some((c, (pos + t.len() + 1) as usize)),
{
    // Taking the length bounds every position in `s` by `usize::MAX`.
    let _len = s.len();
    let cr = parse_channel(s, pos);
    proof {
        assert forall|t: Seq<u8>, c: u8| #[trigger] chan_spelled(t, c) && holds_at(s@, pos as int, t)
            && pos + t.len() < s@.len() && s@[pos + t.len()] == sep implies cr == Some(
            (c, (pos + t.len()) as usize),
        ) by {
            assert(text_at(s@, pos as int, t));
        }
    }
    match cr {
        Some((c, e)) => {
            if byte_at(s, e, sep) {
                Some((c, e + 1))
            } else {
                None
            }
        },
        None => None,
    }
}

/// Reads the color part of a point at `pos`: `],"color":[r,g,b]}`.
#[verifier::rlimit(50)]
fn parse_point_color(s: &[u8], pos: usize) -> (r: Option<(Rgb, usize)>)
    ensures
        r matches Some((_, e)) ==> pos < e <= s@.len(),
        r matches Some((c, e)) ==> color_spelled(s@.subrange(pos as int, e as int), c),
        forall|t: Seq<u8>, q: Rgb|
            #[trigger] color_spelled(t, q) && holds_at(s@, pos as int, t) ==> r == Some(
                (q, (pos + t.len()) as usize),
            ),
{
    // Taking the length bounds every position in `s` by `usize::MAX`.
    let _len = s.len();
    let mid = mid_lit();
    let has_mid = holds_lit(s, pos, mid.as_slice());
    let rr = if has_mid {
        parse_channel_then(s, pos + 11, 44u8)
    } else {
        None
    };
    let gr = match rr {
        Some((_, er)) => parse_channel_then(s, er, 44u8),
        None => None,
    };
    let br = match gr {
        Some((_, eg)) => parse_channel_then(s, eg, 93u8),
        None => None,
    };
    proof {
        assert forall|t: Seq<u8>, q: Rgb| #[trigger] color_spelled(t, q) && holds_at(s@, pos as int, t)
            implies {
            let (cr, cg, cb) = color_parts(t, q);
            &&& has_mid
            &&& rr == Some((q.r, (pos + 12 + cr.len()) as usize))
            &&& gr == Some((q.g, (pos + 13 + cr.len() + cg.len()) as usize))
            &&& br == Some((q.b, (pos + 14 + cr.len() + cg.len() + cb.len()) as usize))
            &&& pos + 14 + cr.len() + cg.len() + cb.len() < s@.len()
            &&& s@[pos + 14 + cr.len() + cg.len() + cb.len()] == 125u8
        } by {
            let (cr, cg, cb) = lemma_color_spelling(s@, pos as int, t, q);
            let e = pos + 13 + cr.len() + cg.len() + cb.len();
            assert(s@.subrange(e, e + 2)[1] == close_text()[1]);
        }
    }
    let (r, _) = match rr {
        Some(v) => v,
        None => return None,
    };
    let (g, _) = match gr {
        Some(v) => v,
        None => return None,
    };
    let (b, eb) = match br {
        Some(v) => v,
        None => return None,
    };
    if !byte_at(s, eb, 125u8) {
        return None;
    }
    let color = Rgb { r, g, b };
    proof {
        let er = rr.unwrap().1 as int;
        let eg = gr.unwrap().1 as int;
        let cr = s@.subrange(pos + 11, er - 1);
        let cg = s@.subrange(er, eg - 1);
        let cb = s@.subrange(eg, eb - 1);
        assert(s@.subrange(pos as int, pos + 11) == mid_text());
        assert(s@.subrange(pos as int, eb + 1) =~= mid_text() + cr + comma() + cg + comma() + cb
            + close_text());
        assert(chan_spelled(cr, color.r) && chan_spelled(cg, color.g) && chan_spelled(cb, color.b));
    }
    Some((color, eb + 1))
}

/// Reads a point at `pos`.
fn parse_point(s: &[u8], pos: usize) -> (r: Option<(Point, usize)>)
    ensures
        r matches Some((_, e)) ==> pos < e <= s@.len(),
        r matches Some((p, e)) ==> point_spelled(s@.subrange(pos as int, e as int), p),
        forall|t: Seq<u8>, p: Point|
            #[trigger] point_spelled(t, p) && holds_at(s@, pos as int, t) ==> r == Some(
                (p, (pos + t.len()) as usize),
            ),
        forall|p: Point|
            #[trigger] holds_at(s@, pos as int, point_text(p)) ==> r == Some(
                (p, (pos + point_text(p).len()) as usize),
            ),
{
    // Taking the length bounds every position in `s` by `usize::MAX`.
    let _len = s.len();
    let pr = parse_point_pos(s, pos);
    let (xy, e1) = match pr {
        Some(v) => v,
        None => {
            proof {
                assert forall|t: Seq<u8>, p: Point| #[trigger] point_spelled(t, p) && holds_at(s@, pos as int, t)
                    implies false by {
                    let _parts = lemma_point_spelling(s@, pos as int, t, p);
                }
                assert forall|p: Point| #[trigger] holds_at(s@, pos as int, point_text(p)) implies false by {
                    lemma_point_text_spelled(p);
                    let _parts = lemma_point_spelling(s@, pos as int, point_text(p), p);
                }
            }
            return None;
        },
    };
    let cr = parse_point_color(s, e1);
    let (color, e2) = match cr {
        Some(v) => v,
        None => {
            proof {
                assert forall|t: Seq<u8>, p: Point| #[trigger] point_spelled(t, p) && holds_at(s@, pos as int, t)
                    implies false by {
                    let _parts = lemma_point_spelling(s@, pos as int, t, p);
                }
                assert forall|p: Point| #[trigger] holds_at(s@, pos as int, point_text(p)) implies false by {
                    lemma_point_text_spelled(p);
                    let _parts = lemma_point_spelling(s@, pos as int, point_text(p), p);
                }
            }
            return None;
        },
    };
    let pt = Point { pos: xy, color };
    proof {
        let a = s@.subrange(pos as int, e1 as int);
        let b = s@.subrange(e1 as int, e2 as int);
        assert(s@.subrange(pos as int, e2 as int) =~= a + b);
        assert(pos_spelled(a, pt.pos) && color_spelled(b, pt.color));
        assert forall|t: Seq<u8>, p: Point| #[trigger] point_spelled(t, p) && holds_at(s@, pos as int, t)
            implies pt == p && e2 == pos + t.len() by {
            let _parts = lemma_point_spelling(s@, pos as int, t, p);
        }
        assert forall|p: Point| #[trigger] holds_at(s@, pos as int, point_text(p)) implies pt == p && e2
            == pos + point_text(p).len() by {
            lemma_point_text_spelled(p);
            let _parts = lemma_point_spelling(s@, pos as int, point_text(p), p);
        }
    }
    Some((pt, e2))
}

/// The separator written before the `i`-th point of a list.
pub open spec fn sep(i: int) -> Seq<u8> {
    if i == 0 {
        Seq::empty()
    } else {
        comma()
    }
}

/// Text of the points of `ps` from index `i` on, each after its separator.
pub open spec fn items_from(ps: Seq<Point>, i: int) -> Seq<u8>
    decreases ps.len() - i,
{
    if i < 0 || i >= ps.len() {
        Seq::empty()
    } else {
        sep(i) + (point_text(ps[i]) + items_from(ps, i + 1))
    }
}

/// Text of a point list: `[`, the points separated by commas, `]`.
pub open spec fn points_text(ps: Seq<Point>) -> Seq<u8> {
    seq![91u8] + (items_from(ps, 0) + seq![93u8])
}

proof fn lemma_list_step(s: Seq<u8>, pos: int, ps: Seq<Point>, i: int)
    requires
        0 <= i < ps.len(),
        holds_at(s, pos, items_from(ps, i) + seq![93u8]),
        pos + items_from(ps, i).len() + 1 == s.len(),
    ensures
        i > 0 ==> s[pos] == 44u8,
        holds_at(s, pos + sep(i).len(), point_text(ps[i])),
        holds_at(
            s,
            pos + sep(i).len() + point_text(ps[i]).len(),
            items_from(ps, i + 1) + seq![93u8],
        ),
        pos + sep(i).len() + point_text(ps[i]).len() + items_from(ps, i + 1).len() + 1 == s.len(),
        i + 1 < ps.len() ==> s[pos + sep(i).len() + point_text(ps[i]).len()] == 44u8,
        i + 1 == ps.len() ==> s[pos + sep(i).len() + point_text(ps[i]).len()] == 93u8,
{
    let a = sep(i);
    let b = point_text(ps[i]);
    let c = items_from(ps, i + 1);
    let close = seq![93u8];
    assert(items_from(ps, i) + close =~= a + (b + (c + close)));
    lemma_peel(s, pos, a, b + (c + close));
    lemma_peel(s, pos + a.len(), b, c + close);
    if i > 0 {
        assert(s[pos] == (a + (b + (c + close)))[0]);
    }
    if i + 1 < ps.len() {
        assert(c =~= comma() + (point_text(ps[i + 1]) + items_from(ps, i + 2)));
        assert((c + close)[0] == 44u8);
    } else {
        assert(c =~= Seq::<u8>::empty());
        assert((c + close)[0] == 93u8);
    }
}

/// Appends the text of a point.
fn write_point(out: &mut Vec<u8>, p: &Point)
    ensures
        final(out)@ == old(out)@ + point_text(*p),
{
    let ghost start = out@;
    let open = open_lit();
    let mut i: usize = 0;
    while i < open.len()
        invariant
            open@ == open_text(),
            i <= open@.len(),
            out@ == start + open@.take(i as int),
        decreases open@.len() - i,
    {
        out.push(open[i]);
        assert(open@.take(i + 1) =~= open@.take(i as int).push(open@[i as int]));
        i = i + 1;
    }
    assert(open@.take(8) =~= open@);
    write_int(out, p.pos[0]);
    out.push(44u8);
    write_int(out, p.pos[1]);
    let mid = mid_lit();
    let ghost before_mid = out@;
    let mut j: usize = 0;
    while j < mid.len()
        invariant
            mid@ == mid_text(),
            j <= mid@.len(),
            out@ == before_mid + mid@.take(j as int),
        decreases mid@.len() - j,
    {
        out.push(mid[j]);
        assert(mid@.take(j + 1) =~= mid@.take(j as int).push(mid@[j as int]));
        j = j + 1;
    }
    assert(mid@.take(11) =~= mid@);
    write_channel(out, p.color.r);
    out.push(44u8);
    write_channel(out, p.color.g);
    out.push(44u8);
    write_channel(out, p.color.b);
    out.push(93u8);
    out.push(125u8);
    reveal(point_text);
    assert(out@ =~= start + point_text(*p));
}

/// Appends the points of `ps` from index `i` on, each after its separator.
fn write_items(out: &mut Vec<u8>, ps: &[Point], i: usize)
    requires
        i <= ps@.len(),
    ensures
        final(out)@ == old(out)@ + items_from(ps@, i as int),
    decreases ps@.len() - i,
{
    if i >= ps.len() {
        assert(old(out)@ + items_from(ps@, i as int) =~= old(out)@);
        return ;
    }
    let ghost start = out@;
    if i > 0 {
        out.push(44u8);
    }
    write_point(out, &ps[i]);
    write_items(out, ps, i + 1);
    assert(out@ =~= start + items_from(ps@, i as int));
}

/// The text of a point list: a JSON array of `{"pos":[x,y],"color":[r,g,b]}`
/// objects, each color channel as its intensity in `[0, 1]` with four decimals.
pub fn serialize_points(points: &[Point]) -> (r: Vec<u8>)
    ensures
        r@ == points_text(points@),
{
    let mut out: Vec<u8> = Vec::new();
    out.push(91u8);
    write_items(&mut out, points, 0);
    out.push(93u8);
    assert(out@ =~= points_text(points@));
    out
}

/// Reads the points of a list text, or `None`; a text that `points_text` gives is
/// always read back whole.
#[verifier::rlimit(100)]
fn parse_points(text: &[u8]) -> (r: Option<Vec<Point>>)
    ensures
        r matches Some(v) ==> list_spelled(text@, v@),
        forall|ps: Seq<Point>| #[trigger] points_text(ps) == text@ ==> (r matches Some(v) && v@ == ps),
{
    let n = text.len();
    proof {
        assert forall|ps: Seq<Point>| #[trigger] points_text(ps) == text@ implies holds_at(
            text@,
            1,
            items_from(ps, 0) + seq![93u8],
        ) && 1 + items_from(ps, 0).len() + 1 == n && text@[0] == 91u8 by {
            assert(text@.subrange(0, text@.len() as int) =~= text@);
            lemma_peel(text@, 0, seq![91u8], items_from(ps, 0) + seq![93u8]);
        }
    }
    if !byte_at(text, 0, 91u8) {
        return None;
    }
    let mut out: Vec<Point> = Vec::new();
    let mut pos: usize = 1;
    let ghost mut parts: Seq<Seq<u8>> = Seq::empty();
    assert(text@.subrange(0, 1) =~= seq![91u8] + join_parts(parts));
    if byte_at(text, 1, 93u8) {
        proof {
            assert forall|ps: Seq<Point>| #[trigger] points_text(ps) == text@ implies ps.len() == 0 by {
                if ps.len() > 0 {
                    lemma_list_step(text@, 1, ps, 0);
                    lemma_point_parts(text@, 1, ps[0]);
                }
            }
        }
        pos = 2;
        assert(text@.subrange(0, 2) =~= seq![91u8] + join_parts(parts) + seq![93u8]);
    } else {
        loop
            invariant_except_break
                forall|ps: Seq<Point>| #[trigger]
                    points_text(ps) == text@ ==> {
                        &&& out@.len() < ps.len()
                        &&& out@ == ps.take(out@.len() as int)
                        &&& holds_at(text@, pos as int, items_from(ps, out@.len() as int) + seq![93u8])
                        &&& pos + items_from(ps, out@.len() as int).len() + 1 == n
                    },
                text@.subrange(0, pos as int) == seq![91u8] + join_parts(parts),
            invariant
                n == text@.len(),
                1 <= pos <= n,
                parts.len() == out@.len(),
                forall|i: int| 0 <= i < out@.len() ==> point_spelled(#[trigger] parts[i], out@[i]),
            ensures
                forall|ps: Seq<Point>| #[trigger] points_text(ps) == text@ ==> out@ == ps && pos == n,
                text@.subrange(0, pos as int) == seq![91u8] + join_parts(parts) + seq![93u8],
            decreases n - pos,
        {
            let ghost i = out@.len() as int;
            proof {
                assert forall|ps: Seq<Point>| #[trigger] points_text(ps) == text@ implies (i > 0 ==> text@[pos as int] == 44u8) by {
                    lemma_list_step(text@, pos as int, ps, i);
                }
            }
            let mut at = pos;
            if out.len() > 0 {
                if !byte_at(text, pos, 44u8) {
                    return None;
                }
                at = pos + 1;
            }
            let pr = parse_point(text, at);
            proof {
                assert forall|ps: Seq<Point>| #[trigger] points_text(ps) == text@ implies pr == Some(
                    (ps[i], (at + point_text(ps[i]).len()) as usize),
                ) by {
                    lemma_list_step(text@, pos as int, ps, i);
                }
            }
            let (p, e) = match pr {
                Some(v) => v,
                None => return None,
            };
            let ghost prev = out@;
            let ghost prev_parts = parts;
            let ghost part = text@.subrange(at as int, e as int);
            proof {
                parts = parts.push(part);
                assert(parts.drop_last() =~= prev_parts);
                assert(text@.subrange(pos as int, at as int) =~= sep(i));
                assert(text@.subrange(0, e as int) =~= text@.subrange(0, pos as int)
                    + text@.subrange(pos as int, at as int) + part);
            }
            out.push(p);
            pos = e;
            assert(forall|j: int| 0 <= j < i ==> parts[j] == prev_parts[j] && out@[j] == prev[j]);
            proof {
                assert forall|ps: Seq<Point>| #[trigger] points_text(ps) == text@ implies out@ == ps.take(
                    i + 1,
                ) && holds_at(text@, pos as int, items_from(ps, i + 1) + seq![93u8]) && pos
                    + items_from(ps, i + 1).len() + 1 == n && (i + 1 < ps.len() ==> text@[pos as int]
                    == 44u8) && (i + 1 == ps.len() ==> text@[pos as int] == 93u8) by {
                    lemma_list_step(text@, at - sep(i).len(), ps, i);
                    assert(ps.take(i + 1) =~= ps.take(i).push(ps[i]));
                }
            }
            if byte_at(text, pos, 93u8) {
                assert(text@.subrange(0, pos + 1) =~= text@.subrange(0, pos as int) + seq![93u8]);
                pos = pos + 1;
                proof {
                    assert forall|ps: Seq<Point>| #[trigger] points_text(ps) == text@ implies out@ == ps
                        && pos == n by {
                        assert(ps.take(ps.len() as int) =~= ps);
                    }
                }
                break ;
            }
        }
    }
    if pos != n {
        return None;
    }
    assert(text@.subrange(0, n as int) =~= text@);
    Some(out)
}

/// JSON whitespace: space, tab, line feed, carriage return.
pub open spec fn is_ws(c: u8) -> bool {
    c == 32 || c == 9 || c == 10 || c == 13
}

pub open spec fn no_ws(t: Seq<u8>) -> bool {
    forall|i: int| 0 <= i < t.len() ==> !is_ws(#[trigger] t[i])
}

/// `t` with every whitespace byte left out.
pub open spec fn remove_ws(t: Seq<u8>) -> Seq<u8>
    decreases t.len(),
{
    if t.len() == 0 {
        Seq::empty()
    } else if is_ws(t.last()) {
        remove_ws(t.drop_last())
    } else {
        remove_ws(t.drop_last()).push(t.last())
    }
}

proof fn lemma_remove_no_ws(t: Seq<u8>)
    requires
        no_ws(t),
    ensures
        remove_ws(t) == t,
    decreases t.len(),
{
    if t.len() > 0 {
        let u = t.drop_last();
        assert(no_ws(u)) by {
            assert forall|i: int| 0 <= i < u.len() implies !is_ws(#[trigger] u[i]) by {
                assert(u[i] == t[i]);
            }
        }
        lemma_remove_no_ws(u);
        assert(!is_ws(t[t.len() - 1]));
        assert(u.push(t.last()) =~= t);
    } else {
        assert(t =~= Seq::<u8>::empty());
    }
}

proof fn lemma_no_ws_concat(a: Seq<u8>, b: Seq<u8>)
    requires
        no_ws(a),
        no_ws(b),
    ensures
        no_ws(a + b),
{
    assert forall|i: int| 0 <= i < (a + b).len() implies !is_ws(#[trigger] (a + b)[i]) by {
        if i < a.len() {
            assert((a + b)[i] == a[i]);
        } else {
            assert((a + b)[i] == b[i - a.len()]);
        }
    }
}

proof fn lemma_digits_no_ws(t: Seq<u8>)
    requires
        all_digits(t),
    ensures
        no_ws(t),
{
    assert forall|i: int| 0 <= i < t.len() implies !is_ws(#[trigger] t[i]) by {
        assert(is_digit(t[i]));
    }
}

proof fn lemma_point_no_ws(p: Point)
    ensures
        no_ws(point_text(p)),
{
    let x = p.pos[0] as int;
    let y = p.pos[1] as int;
    assert forall|v: int| #![trigger int_text(v)] no_ws(int_text(v)) by {
        if v < 0 {
            lemma_nat_text((-v) as nat);
            lemma_digits_no_ws(nat_text((-v) as nat));
            assert(no_ws(seq![45u8]));
            lemma_no_ws_concat(seq![45u8], nat_text((-v) as nat));
        } else {
            lemma_nat_text(v as nat);
            lemma_digits_no_ws(nat_text(v as nat));
        }
    }
    assert forall|c: u8| #![trigger channel_text(c)] no_ws(channel_text(c)) by {
        reveal(channel_text);
        let q = channel_scaled(c);
        lemma_channel_round(c);
        lemma_nat_text(q / 10000);
        lemma_digits_no_ws(nat_text(q / 10000));
        lemma_four_digits(q % 10000);
        lemma_digits_no_ws(four_digits(q % 10000));
        assert(no_ws(seq![46u8]));
        lemma_no_ws_concat(nat_text(q / 10000), seq![46u8]);
        lemma_no_ws_concat(nat_text(q / 10000) + seq![46u8], four_digits(q % 10000));
    }
    let ix = int_text(x);
    let iy = int_text(y);
    let cr = channel_text(p.color.r);
    let cg = channel_text(p.color.g);
    let cb = channel_text(p.color.b);
    assert(no_ws(ix) && no_ws(iy) && no_ws(cr) && no_ws(cg) && no_ws(cb));
    assert(no_ws(open_text()) && no_ws(mid_text()) && no_ws(close_text()) && no_ws(comma()));
    let t10 = cb + close_text();
    lemma_no_ws_concat(cb, close_text());
    let t9 = comma() + t10;
    lemma_no_ws_concat(comma(), t10);
    let t8 = cg + t9;
    lemma_no_ws_concat(cg, t9);
    let t7 = comma() + t8;
    lemma_no_ws_concat(comma(), t8);
    let t6 = cr + t7;
    lemma_no_ws_concat(cr, t7);
    let t5 = mid_text() + t6;
    lemma_no_ws_concat(mid_text(), t6);
    let t4 = iy + t5;
    lemma_no_ws_concat(iy, t5);
    let t3 = comma() + t4;
    lemma_no_ws_concat(comma(), t4);
    let t2 = ix + t3;
    lemma_no_ws_concat(ix, t3);
    lemma_no_ws_concat(open_text(), t2);
    reveal(point_text);
}

proof fn lemma_items_no_ws(ps: Seq<Point>, i: int)
    ensures
        no_ws(items_from(ps, i)),
    decreases ps.len() - i,
{
    if 0 <= i < ps.len() {
        lemma_items_no_ws(ps, i + 1);
        lemma_point_no_ws(ps[i]);
        lemma_no_ws_concat(point_text(ps[i]), items_from(ps, i + 1));
        assert(no_ws(sep(i)));
        lemma_no_ws_concat(sep(i), point_text(ps[i]) + items_from(ps, i + 1));
    }
}

/// The text of a point list holds no whitespace.
proof fn lemma_points_text_no_ws(ps: Seq<Point>)
    ensures
        no_ws(points_text(ps)),
        remove_ws(points_text(ps)) == points_text(ps),
{
    lemma_items_no_ws(ps, 0);
    assert(no_ws(seq![91u8]) && no_ws(seq![93u8]));
    lemma_no_ws_concat(items_from(ps, 0), seq![93u8]);
    lemma_no_ws_concat(seq![91u8], items_from(ps, 0) + seq![93u8]);
    lemma_remove_no_ws(points_text(ps));
}

fn is_ws_byte(c: u8) -> (r: bool)
    ensures
        r == is_ws(c),
{
    c == 32 || c == 9 || c == 10 || c == 13
}

/// `s` with every whitespace byte left out.
fn strip_ws(s: &[u8]) -> (r: Vec<u8>)
    ensures
        r@ == remove_ws(s@),
{
    let mut out: Vec<u8> = Vec::new();
    let mut i: usize = 0;
    while i < s.len()
        invariant
            i <= s@.len(),
            out@ == remove_ws(s@.take(i as int)),
        decreases s@.len() - i,
    {
        assert(s@.take(i + 1).drop_last() =~= s@.take(i as int));
        if !is_ws_byte(s[i]) {
            out.push(s[i]);
        }
        i = i + 1;
    }
    assert(s@.take(s@.len() as int) =~= s@);
    out
}

/// Reads a point list: a JSON array of `{"pos":[x,y],"color":[r,g,b]}` objects, with
/// whitespace anywhere ignored and each channel a decimal in `[0, 1]` (see
/// `chan_spelled`). What is read is always a list that the text spells. Every text
/// that `serialize_points` writes reads back to the list it was written from, also
/// with whitespace added anywhere in it; a text that cannot be read is a
/// `DeserializeError`.
pub fn deserialize_points(text: &[u8]) -> (r: Result<Vec<Point>, DeserializeError>)
    ensures
        r matches Ok(v) ==> list_spelled(remove_ws(text@), v@),
        forall|ps: Seq<Point>| #[trigger] points_text(ps) == text@ ==> (r matches Ok(v) && v@ == ps),
        forall|ps: Seq<Point>|
            #[trigger] points_text(ps) == remove_ws(text@) ==> (r matches Ok(v) && v@ == ps),
{
    let bare = strip_ws(text);
    proof {
        assert forall|ps: Seq<Point>| #[trigger] points_text(ps) == text@ implies points_text(ps)
            == bare@ by {
            lemma_points_text_no_ws(ps);
        }
    }
    match parse_points(bare.as_slice()) {
        Some(v) => Ok(v),
        None => Err(DeserializeError { message: String::from_str("malformed point list") }),
    }
}

} // verus!
