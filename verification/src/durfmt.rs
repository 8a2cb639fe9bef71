//! The duration formatter: a signed span of seconds rendered as a compact
//! string such as `1d2h3m4s`, every zero-valued unit omitted.
use crate::text::push_char;
use vstd::arithmetic::div_mod::lemma_fundamental_div_mod_converse;
use vstd::prelude::*;

verus! {

/// The decimal digit characters, in order of value.
pub open spec fn digit_char(d: int) -> char {
    seq!['0', '1', '2', '3', '4', '5', '6', '7', '8', '9'][d]
}

/// The decimal digits of a non-negative number, most significant first.
pub open spec fn dec_digits(n: nat) -> Seq<char>
    decreases n,
{
    if n < 10 {
        seq![digit_char(n as int)]
    } else {
        dec_digits(n / 10) + seq![digit_char((n % 10) as int)]
    }
}

/// One unit token of a formatted span: the value's digits followed by the
/// unit letter, a leading minus sign for negative spans, and nothing at all
/// for a zero value.
pub open spec fn unit_token(v: nat, neg: bool, unit: char) -> Seq<char> {
    if v == 0 {
        Seq::<char>::empty()
    } else if neg {
        seq!['-'] + dec_digits(v) + seq![unit]
    } else {
        dec_digits(v) + seq![unit]
    }
}

/// The magnitude of a span in seconds.
pub open spec fn abs_secs(secs: int) -> nat {
    if secs < 0 {
        (-secs) as nat
    } else {
        secs as nat
    }
}

/// What `format_dur` returns: the span decomposed into days, hours, minutes
/// and seconds by successive floor-divide-and-subtract, each non-zero unit
/// rendered in that fixed order with no separators; a zero span renders as
/// the empty string.
pub open spec fn spec_format_dur(secs: int) -> Seq<char> {
    let neg = secs < 0;
    let mag = abs_secs(secs);
    let d = mag / 86400;
    let r1 = mag % 86400;
    let h = r1 / 3600;
    let r2 = r1 % 3600;
    let m = r2 / 60;
    let s = r2 % 60;
    unit_token(d, neg, 'd') + unit_token(h, neg, 'h') + unit_token(m, neg, 'm') + unit_token(
        s,
        neg,
        's',
    )
}

/// Appends the decimal digits of `n` to `out`.
pub fn push_dec(out: &mut String, n: u64)
    ensures
        final(out)@ == old(out)@ + dec_digits(n as nat),
    decreases n,
{
    if n >= 10 {
        push_dec(out, n / 10);
    }
    let d: u64 = n % 10;
    let c: char = match d {
        0 => '0',
        1 => '1',
        2 => '2',
        3 => '3',
        4 => '4',
        5 => '5',
        6 => '6',
        7 => '7',
        8 => '8',
        _ => '9',
    };
    assert(c == digit_char(d as int));
    push_char(out, c);
    proof {
        if n < 10 {
            assert(dec_digits(n as nat) =~= seq![digit_char(n as int)]);
        }
    }
}

/// Appends one signed unit token (digits plus unit letter, nothing for zero).
fn push_unit(out: &mut String, v: u64, neg: bool, unit: char)
    ensures
        final(out)@ == old(out)@ + unit_token(v as nat, neg, unit),
{
    if v != 0 {
        if neg {
            push_char(out, '-');
        }
        push_dec(out, v);
        push_char(out, unit);
    }
}

/// Formats a span of seconds as days, hours, minutes and seconds, omitting
/// every unit whose value is zero; a negative span carries a minus sign on
/// each rendered unit, and a zero span yields the empty string.
pub fn format_dur(secs: i64) -> (r: String)
    ensures
        r@ == spec_format_dur(secs as int),
{
    let neg = secs < 0;
    let mag: u64 = if neg {
        proof {
            assert(0 <= -(secs as i128) <= u64::MAX as i128);
        }
        (-(secs as i128)) as u64
    } else {
        secs as u64
    };
    assert(mag as nat == abs_secs(secs as int));
    let d: u64 = mag / 86400;
    let r1: u64 = mag % 86400;
    let h: u64 = r1 / 3600;
    let r2: u64 = r1 % 3600;
    let m: u64 = r2 / 60;
    let s: u64 = r2 % 60;
    let mut out = String::new();
    push_unit(&mut out, d, neg, 'd');
    push_unit(&mut out, h, neg, 'h');
    push_unit(&mut out, m, neg, 'm');
    push_unit(&mut out, s, neg, 's');
    out
}

/// Formatting round-trip: a span assembled from a day, hour, minute and
/// second count in their natural ranges decomposes back into exactly those
/// counts, so its rendering holds exactly the non-zero unit tokens in fixed
/// order; the zero span renders as the empty string.
pub proof fn lemma_format_dur_units(d: nat, h: nat, m: nat, s: nat)
    requires
        h < 24,
        m < 60,
        s < 60,
    ensures
        spec_format_dur((d * 86400 + h * 3600 + m * 60 + s) as int) =~= unit_token(d, false, 'd')
            + unit_token(h, false, 'h') + unit_token(m, false, 'm') + unit_token(s, false, 's'),
        spec_format_dur(0) =~= Seq::<char>::empty(),
{
    let total = (d * 86400 + h * 3600 + m * 60 + s) as int;
    let rem = (h * 3600 + m * 60 + s) as int;
    assert(0 <= rem < 86400);
    lemma_fundamental_div_mod_converse(total, 86400, d as int, rem);
    let rem2 = (m * 60 + s) as int;
    assert(0 <= rem2 < 3600);
    lemma_fundamental_div_mod_converse(rem, 3600, h as int, rem2);
    lemma_fundamental_div_mod_converse(rem2, 60, m as int, s as int);
    assert(abs_secs(total) == total);
    assert(abs_secs(total) / 86400 == d);
    assert(abs_secs(total) % 86400 == rem);
}

} // verus!
