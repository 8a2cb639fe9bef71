//! Signed decimal numerals: rendering an integer in its canonical form and
//! parsing exactly that form back, with the round trip proved.
use crate::durfmt::{dec_digits, digit_char, push_dec};
use crate::text::push_char;
use vstd::arithmetic::div_mod::{lemma_fundamental_div_mod, lemma_fundamental_div_mod_converse};
use vstd::prelude::*;

verus! {

/// The canonical decimal numeral of an integer: digits only, a single
/// leading minus sign when negative.
pub open spec fn dec_str(n: int) -> Seq<char> {
    if n < 0 {
        seq!['-'] + dec_digits((-n) as nat)
    } else {
        dec_digits(n as nat)
    }
}

pub open spec fn is_digit(c: char) -> bool {
    ||| c == '0'
    ||| c == '1'
    ||| c == '2'
    ||| c == '3'
    ||| c == '4'
    ||| c == '5'
    ||| c == '6'
    ||| c == '7'
    ||| c == '8'
    ||| c == '9'
}

pub open spec fn digit_val(c: char) -> int {
    if c == '0' {
        0
    } else if c == '1' {
        1
    } else if c == '2' {
        2
    } else if c == '3' {
        3
    } else if c == '4' {
        4
    } else if c == '5' {
        5
    } else if c == '6' {
        6
    } else if c == '7' {
        7
    } else if c == '8' {
        8
    } else {
        9
    }
}

/// The value of a digit string, most significant digit first.
pub open spec fn dec_value(ds: Seq<char>) -> int
    decreases ds.len(),
{
    if ds.len() == 0 {
        0
    } else {
        dec_value(ds.drop_last()) * 10 + digit_val(ds.last())
    }
}

/// A canonical digit string: non-empty, digits only, no leading zero.
pub open spec fn is_canon_digits(ds: Seq<char>) -> bool {
    &&& ds.len() >= 1
    &&& forall|i: int| 0 <= i < ds.len() ==> is_digit(#[trigger] ds[i])
    &&& (ds.len() > 1 ==> ds[0] != '0')
}

/// A canonical signed numeral: canonical digits, optionally preceded by a
/// minus sign that only a non-zero value may carry.
pub open spec fn is_canon_int(s: Seq<char>) -> bool {
    if s.len() >= 1 && s[0] == '-' {
        is_canon_digits(s.drop_first()) && dec_value(s.drop_first()) > 0
    } else {
        is_canon_digits(s)
    }
}

/// The value of a canonical signed numeral.
pub open spec fn int_value(s: Seq<char>) -> int {
    if s.len() >= 1 && s[0] == '-' {
        -dec_value(s.drop_first())
    } else {
        dec_value(s)
    }
}

/// Each digit character stands for its value.
pub proof fn lemma_digit_char_val(d: int)
    requires
        0 <= d < 10,
    ensures
        is_digit(digit_char(d)),
        digit_val(digit_char(d)) == d,
{
    if d == 0 {
        assert(digit_char(0) == '0');
    } else if d == 1 {
        assert(digit_char(1) == '1');
    } else if d == 2 {
        assert(digit_char(2) == '2');
    } else if d == 3 {
        assert(digit_char(3) == '3');
    } else if d == 4 {
        assert(digit_char(4) == '4');
    } else if d == 5 {
        assert(digit_char(5) == '5');
    } else if d == 6 {
        assert(digit_char(6) == '6');
    } else if d == 7 {
        assert(digit_char(7) == '7');
    } else if d == 8 {
        assert(digit_char(8) == '8');
    } else {
        assert(digit_char(9) == '9');
    }
}

/// Each digit character is recovered from its value.
pub proof fn lemma_char_digit(c: char)
    requires
        is_digit(c),
    ensures
        0 <= digit_val(c) < 10,
        digit_char(digit_val(c)) == c,
{
    lemma_digit_char_val(digit_val(c));
}

/// The numeral of a non-negative number is canonical and evaluates back to
/// it.
pub proof fn lemma_dec_digits_canon(n: nat)
    ensures
        is_canon_digits(dec_digits(n)),
        dec_value(dec_digits(n)) == n,
        n >= 1 ==> dec_digits(n)[0] != '0',
    decreases n,
{
    if n < 10 {
        lemma_digit_char_val(n as int);
        assert(dec_digits(n) == seq![digit_char(n as int)]);
        assert(dec_digits(n).drop_last() =~= Seq::<char>::empty());
        assert(dec_value(Seq::<char>::empty()) == 0);
        assert(dec_digits(n).last() == digit_char(n as int));
        if n >= 1 && digit_char(n as int) == '0' {
            assert(digit_val(digit_char(n as int)) == 0);
            assert(false);
        }
    } else {
        lemma_dec_digits_canon(n / 10);
        lemma_digit_char_val((n % 10) as int);
        let prefix = dec_digits(n / 10);
        let ds = dec_digits(n);
        assert(ds == prefix + seq![digit_char((n % 10) as int)]);
        assert(ds.drop_last() =~= prefix);
        assert(ds.last() == digit_char((n % 10) as int));
        assert(dec_value(ds) == dec_value(prefix) * 10 + (n % 10));
        lemma_fundamental_div_mod(n as int, 10);
        assert(dec_value(ds) == n);
        assert forall|i: int| 0 <= i < ds.len() implies is_digit(#[trigger] ds[i]) by {
            if i < prefix.len() {
                assert(ds[i] == prefix[i]);
            }
        }
        assert(ds[0] == prefix[0]);
    }
}

/// A digit string's value is non-negative, and positive when it does not
/// start with a zero.
pub proof fn lemma_dec_value_bounds(ds: Seq<char>)
    requires
        forall|i: int| 0 <= i < ds.len() ==> is_digit(#[trigger] ds[i]),
    ensures
        dec_value(ds) >= 0,
        ds.len() >= 1 && ds[0] != '0' ==> dec_value(ds) >= 1,
    decreases ds.len(),
{
    if ds.len() > 0 {
        assert(forall|i: int|
            0 <= i < ds.drop_last().len() ==> is_digit(#[trigger] ds.drop_last()[i]));
        lemma_dec_value_bounds(ds.drop_last());
        assert(digit_val(ds.last()) >= 0);
        if ds.len() == 1 {
            if ds[0] != '0' {
                assert(ds.last() == ds[0]);
                assert(digit_val(ds.last()) >= 1);
            }
        } else if ds[0] != '0' {
            assert(ds.drop_last()[0] == ds[0]);
            assert(dec_value(ds.drop_last()) >= 1);
        }
    }
}

/// A canonical digit string is the numeral of its value.
pub proof fn lemma_canon_digits_to_dec(ds: Seq<char>)
    requires
        is_canon_digits(ds),
    ensures
        dec_value(ds) >= 0,
        dec_digits(dec_value(ds) as nat) == ds,
    decreases ds.len(),
{
    lemma_dec_value_bounds(ds);
    if ds.len() == 1 {
        lemma_char_digit(ds[0]);
        assert(ds.drop_last() =~= Seq::<char>::empty());
        assert(dec_value(Seq::<char>::empty()) == 0);
        assert(ds.last() == ds[0]);
        assert(dec_value(ds) == digit_val(ds[0]));
        assert(dec_digits(dec_value(ds) as nat) == seq![digit_char(digit_val(ds[0]))]);
        assert(dec_digits(dec_value(ds) as nat) =~= ds);
    } else {
        let prefix = ds.drop_last();
        assert(forall|i: int| 0 <= i < prefix.len() ==> is_digit(#[trigger] prefix[i]));
        assert(prefix[0] == ds[0]);
        assert(is_canon_digits(prefix));
        lemma_canon_digits_to_dec(prefix);
        lemma_dec_value_bounds(prefix);
        lemma_char_digit(ds.last());
        let v = dec_value(ds);
        assert(v == dec_value(prefix) * 10 + digit_val(ds.last()));
        assert(dec_value(prefix) >= 1);
        assert(v >= 10);
        lemma_fundamental_div_mod_converse(v, 10, dec_value(prefix), digit_val(ds.last()));
        assert(v / 10 == dec_value(prefix));
        assert(v % 10 == digit_val(ds.last()));
        assert(dec_digits(v as nat) == dec_digits((v / 10) as nat) + seq![
            digit_char(digit_val(ds.last())),
        ]);
        assert(dec_digits(v as nat) =~= ds);
    }
}

/// The canonical numeral of any integer is indeed canonical and evaluates
/// back to it.
pub proof fn lemma_dec_str_canon(n: int)
    ensures
        is_canon_int(dec_str(n)),
        int_value(dec_str(n)) == n,
        dec_str(n).len() >= 1,
        forall|i: int|
            0 <= i < dec_str(n).len() ==> (#[trigger] dec_str(n)[i]) == '-' || is_digit(
                dec_str(n)[i],
            ),
{
    if n < 0 {
        lemma_dec_digits_canon((-n) as nat);
        lemma_dec_value_bounds(dec_digits((-n) as nat));
        let s = dec_str(n);
        assert(s[0] == '-');
        assert(s.drop_first() =~= dec_digits((-n) as nat));
        assert(forall|i: int|
            0 <= i < s.len() ==> (#[trigger] s[i]) == '-' || is_digit(s[i])) by {
            assert(forall|i: int|
                1 <= i < s.len() ==> #[trigger] s[i] == dec_digits((-n) as nat)[i - 1]);
        }
    } else {
        lemma_dec_digits_canon(n as nat);
        let s = dec_str(n);
        assert(is_digit(s[0]));
        assert(s[0] != '-');
    }
}

/// A canonical signed numeral is the canonical rendering of its value.
pub proof fn lemma_canon_int_to_dec_str(s: Seq<char>)
    requires
        is_canon_int(s),
    ensures
        dec_str(int_value(s)) == s,
{
    if s.len() >= 1 && s[0] == '-' {
        lemma_canon_digits_to_dec(s.drop_first());
        assert(dec_str(int_value(s)) =~= seq!['-'] + s.drop_first());
        assert(seq!['-'] + s.drop_first() =~= s);
    } else {
        lemma_canon_digits_to_dec(s);
        lemma_dec_value_bounds(s);
    }
}

/// Appends the canonical numeral of a signed number.
pub fn push_dec_signed(out: &mut String, n: i64)
    ensures
        final(out)@ == old(out)@ + dec_str(n as int),
{
    if n < 0 {
        push_char(out, '-');
        proof {
            assert(0 <= -(n as i128) <= u64::MAX as i128);
        }
        let mag: u64 = (-(n as i128)) as u64;
        push_dec(out, mag);
        proof {
            assert(old(out)@ + seq!['-'] + dec_digits(mag as nat) =~= old(out)@ + dec_str(
                n as int,
            ));
        }
    } else {
        push_dec(out, n as u64);
    }
}

/// The value of a decimal digit character, or `None` for any other
/// character.
fn digit_of(c: char) -> (r: Option<u8>)
    ensures
        r matches Some(d) ==> is_digit(c) && digit_val(c) == d as int,
        r is None <==> !is_digit(c),
{
    match c {
        '0' => Some(0),
        '1' => Some(1),
        '2' => Some(2),
        '3' => Some(3),
        '4' => Some(4),
        '5' => Some(5),
        '6' => Some(6),
        '7' => Some(7),
        '8' => Some(8),
        '9' => Some(9),
        _ => None,
    }
}

/// Parses a canonical signed numeral within the given bounds; anything
/// else, including a value out of bounds, yields `None`.
pub fn parse_int(v: &Vec<char>, lo: i64, hi: i64) -> (r: Option<i64>)
    requires
        i64::MIN < lo <= hi,
    ensures
        r matches Some(n) ==> is_canon_int(v@) && int_value(v@) == n as int && lo <= n <= hi
            && v@ == dec_str(n as int),
        r is None ==> !(is_canon_int(v@) && lo <= int_value(v@) <= hi),
{
    let len = v.len();
    if len == 0 {
        return None;
    }
    let neg = v[0] == '-';
    let s: usize = if neg {
        1
    } else {
        0
    };
    if len == s {
        return None;
    }
    let ghost ds = v@.skip(s as int);
    assert(ds.len() >= 1);
    let mut i: usize = s;
    let mut mag: i128 = 0;
    while i < len
        invariant
            s <= i <= len,
            len == v@.len(),
            neg <==> s == 1,
            neg <==> v@[0] == '-',
            1 <= len,
            s == 0 || s == 1,
            i64::MIN < lo <= hi,
            ds == v@.skip(s as int),
            forall|j: int| 0 <= j < i - s ==> is_digit(#[trigger] ds[j]),
            mag == dec_value(ds.take(i - s)),
            0 <= mag <= i64::MAX as i128,
        decreases len - i,
    {
        let c = v[i];
        let d: i128 = match digit_of(c) {
            None => {
                proof {
                    assert(ds[i - s] == c);
                    assert(!is_digit(c));
                    if neg {
                        assert(v@.drop_first() =~= ds);
                        assert(!is_digit(v@.drop_first()[i - 1]));
                    } else {
                        assert(v@.skip(0) =~= v@);
                        assert(!is_digit(v@[i as int]));
                    }
                    assert(!is_canon_int(v@));
                }
                return None;
            },
            Some(dd) => dd as i128,
        };
        proof {
            assert(ds.take(i + 1 - s).drop_last() =~= ds.take(i - s));
            assert(ds.take(i + 1 - s).last() == ds[i - s]);
            assert(digit_val(c) == d);
        }
        mag = mag * 10 + d;
        i = i + 1;
        if mag > i64::MAX as i128 {
            proof {
                assert(forall|j: int| 0 <= j < i - s ==> is_digit(#[trigger] ds[j]));
                if is_canon_int(v@) && lo <= int_value(v@) <= hi {
                    lemma_dec_value_grows(ds, i - s);
                    assert(dec_value(ds) >= mag);
                    if neg {
                        assert(v@.drop_first() =~= ds);
                    } else {
                        assert(v@.skip(0) =~= v@);
                    }
                    if neg {
                        assert(int_value(v@) == -dec_value(ds));
                        assert(int_value(v@) < lo);
                    } else {
                        assert(int_value(v@) == dec_value(ds));
                        assert(int_value(v@) > hi);
                    }
                    assert(false);
                }
            }
            return None;
        }
    }
    proof {
        assert(ds.take(len - s) =~= ds);
    }
    if len - s > 1 && v[s] == '0' {
        proof {
            assert(ds[0] == '0');
            assert(!is_canon_digits(ds));
            if neg {
                assert(v@.drop_first() =~= ds);
            } else {
                assert(v@.skip(0) =~= v@);
            }
            assert(!is_canon_int(v@));
        }
        return None;
    }
    proof {
        assert(is_canon_digits(ds));
    }
    if neg && mag == 0 {
        proof {
            assert(v@.drop_first() =~= ds);
            assert(!is_canon_int(v@));
        }
        return None;
    }
    let n: i64 = if neg {
        (-mag) as i64
    } else {
        mag as i64
    };
    proof {
        if neg {
            assert(v@.drop_first() =~= ds);
            lemma_dec_value_bounds(ds);
            assert(is_canon_int(v@));
            assert(int_value(v@) == -mag);
        } else {
            assert(v@.skip(0) =~= v@);
            assert(v@ == ds);
            assert(v@.len() >= 1 ==> v@[0] != '-');
            assert(is_canon_int(v@));
            assert(int_value(v@) == mag);
        }
        lemma_canon_int_to_dec_str(v@);
    }
    if n < lo || n > hi {
        return None;
    }
    Some(n)
}

/// A digit string's value is at least the value of any of its prefixes.
pub proof fn lemma_dec_value_grows(ds: Seq<char>, k: int)
    requires
        0 <= k <= ds.len(),
        forall|j: int| 0 <= j < ds.len() ==> is_digit(#[trigger] ds[j]),
    ensures
        dec_value(ds) >= dec_value(ds.take(k)),
    decreases ds.len() - k,
{
    if k < ds.len() {
        lemma_dec_value_grows(ds, k + 1);
        assert(ds.take(k + 1).drop_last() =~= ds.take(k));
        assert(ds.take(k + 1).last() == ds[k]);
        assert(forall|j: int| 0 <= j < ds.take(k).len() ==> is_digit(#[trigger] ds.take(k)[j]));
        lemma_dec_value_bounds(ds.take(k));
        assert(dec_value(ds.take(k + 1)) == dec_value(ds.take(k)) * 10 + digit_val(ds[k]));
        assert(dec_value(ds.take(k + 1)) >= dec_value(ds.take(k)));
    } else {
        assert(ds.take(k) =~= ds);
    }
}

} // verus!
