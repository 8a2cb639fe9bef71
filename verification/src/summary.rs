//! The aggregator: completed entries' durations summed into calendar
//! buckets — yearly, monthly, ISO-weekly or daily — each bucket keyed by an
//! integer that orders chronologically, and the buckets printed ascending.
use crate::calendar::{civil_date, civil_of};
use crate::durfmt::{dec_digits, push_dec, spec_format_dur};
use crate::entry::{entry_valid, Entry, MAX_SECS, MIN_SECS};
use crate::num::{dec_str, push_dec_signed};
use crate::text::push_char;
use std::collections::HashMap;
use vstd::prelude::*;

verus! {

broadcast use vstd::std_specs::hash::group_hash_axioms;

/// One of the four summary granularities.
#[derive(Clone, Copy, PartialEq, Eq, Structural, Debug)]
pub enum Granularity {
    Yearly,
    Monthly,
    Weekly,
    Daily,
}

/// Every bucket key lies below this bound (the keys encode years up to
/// 10001 with at most four further digits).
pub const KEY_BOUND: i64 = 110120000;

/// The largest magnitude a single completed entry's duration can have.
pub const DUR_BOUND: i64 = 315537897599;

/// The bucket key of an instant under a granularity: the civil year,
/// year-and-month, ISO-week (shifted one year up to stay non-negative), or
/// full date, encoded as one integer whose order is chronological.
pub open spec fn key_of(g: Granularity, secs: int, off: int) -> int {
    let c = civil_of(secs, off);
    match g {
        Granularity::Yearly => c.0,
        Granularity::Monthly => c.0 * 100 + c.1,
        Granularity::Weekly => (c.4 + 1) * 100 + c.5,
        Granularity::Daily => c.0 * 10000 + c.1 * 100 + c.2,
    }
}

/// Whether a session counts toward summaries: both ends recorded.
pub open spec fn closed_entry(e: Entry) -> bool {
    e.start is Some && e.stop is Some
}

/// A completed session's length in seconds.
pub open spec fn dur_of(e: Entry) -> int {
    e.stop.unwrap().secs - e.start.unwrap().secs
}

/// The bucket key of a completed session: taken from its start time.
pub open spec fn entry_key(g: Granularity, e: Entry) -> int {
    key_of(g, e.start.unwrap().secs as int, e.start.unwrap().off as int)
}

/// What one entry adds to the bucket `k`.
pub open spec fn bucket_part(e: Entry, g: Granularity, k: int) -> int {
    if closed_entry(e) && entry_key(g, e) == k {
        dur_of(e)
    } else {
        0
    }
}

/// The total duration in bucket `k`: the sum of every completed entry
/// whose start falls in that bucket.
pub open spec fn bucket_sum(es: Seq<Entry>, g: Granularity, k: int) -> int
    decreases es.len(),
{
    if es.len() == 0 {
        0
    } else {
        bucket_sum(es.drop_last(), g, k) + bucket_part(es.last(), g, k)
    }
}

/// Whether any completed entry falls in bucket `k`.
pub open spec fn has_bucket(es: Seq<Entry>, g: Granularity, k: int) -> bool {
    exists|i: int| 0 <= i < es.len() && closed_entry(#[trigger] es[i]) && entry_key(g, es[i]) == k
}

/// Strictly ascending keys.
pub open spec fn sorted_strict(s: Seq<(i64, i128)>) -> bool {
    forall|i: int, j: int| 0 <= i < j < s.len() ==> (#[trigger] s[i]).0 < (#[trigger] s[j]).0
}

/// The exact characterization of a granularity's totals: keys strictly
/// ascending, and a pair is present exactly for each non-empty bucket with
/// its total.
pub open spec fn totals_ok(es: Seq<Entry>, g: Granularity, t: Seq<(i64, i128)>) -> bool {
    &&& sorted_strict(t)
    &&& forall|p: (i64, i128)|
        #[trigger] t.contains(p) <==> has_bucket(es, g, p.0 as int) && p.1 as int == bucket_sum(
            es,
            g,
            p.0 as int,
        )
    &&& forall|i: int| 0 <= i < t.len() ==> 0 <= (#[trigger] t[i]).0 < KEY_BOUND
}

pub proof fn lemma_bucket_sum_step(es: Seq<Entry>, i: int, g: Granularity, k: int)
    requires
        0 <= i < es.len(),
    ensures
        bucket_sum(es.take(i + 1), g, k) == bucket_sum(es.take(i), g, k) + bucket_part(es[i], g, k),
{
    assert(es.take(i + 1).drop_last() =~= es.take(i));
    assert(es.take(i + 1).last() == es[i]);
}

/// The sum over a prefix is bounded by the prefix length times the largest
/// single duration.
pub proof fn lemma_bucket_sum_bound(es: Seq<Entry>, g: Granularity, k: int)
    requires
        forall|i: int| 0 <= i < es.len() ==> entry_valid(#[trigger] es[i]),
    ensures
        -(es.len() as int) * (DUR_BOUND as int) <= bucket_sum(es, g, k) <= (es.len() as int) * (
        DUR_BOUND as int),
    decreases es.len(),
{
    if es.len() > 0 {
        assert(forall|i: int|
            0 <= i < es.drop_last().len() ==> entry_valid(#[trigger] es.drop_last()[i]));
        lemma_bucket_sum_bound(es.drop_last(), g, k);
        assert(entry_valid(es.last()));
        if closed_entry(es.last()) {
            let a = es.last().start.unwrap();
            let b = es.last().stop.unwrap();
            assert(a.valid() && b.valid());
            assert(-(DUR_BOUND as int) <= b.secs - a.secs <= DUR_BOUND as int);
        }
        assert(-(DUR_BOUND as int) <= bucket_part(es.last(), g, k) <= DUR_BOUND as int);
        let nl = es.len() as int;
        assert(nl * (DUR_BOUND as int) == (nl - 1) * (DUR_BOUND as int) + (
        DUR_BOUND as int)) by (nonlinear_arith);
        assert(es.drop_last().len() as int == nl - 1);
    }
}

/// Computes the bucket key of a valid timestamp.
fn key_for(g: Granularity, secs: i64, off: i32) -> (r: i64)
    requires
        MIN_SECS <= secs <= MAX_SECS,
        -86399 <= off <= 86399,
    ensures
        r as int == key_of(g, secs as int, off as int),
        0 <= r < KEY_BOUND,
{
    let c = civil_date(secs, off);
    match g {
        Granularity::Yearly => c.0,
        Granularity::Monthly => c.0 * 100 + c.1,
        Granularity::Weekly => (c.4 + 1) * 100 + c.5,
        Granularity::Daily => c.0 * 10000 + c.1 * 100 + c.2,
    }
}

/// A sequence holds exactly a map's key-value pairs, each key once.
pub open spec fn pairs_of_map(r: Seq<(i64, i128)>, m: Map<i64, i128>) -> bool {
    &&& forall|p: (i64, i128)|
        r.contains(p) <==> m.contains_key(#[trigger] p.0) && m[p.0] == p.1
    &&& forall|i: int, j: int| 0 <= i < j < r.len() ==> (#[trigger] r[i]).0 != (#[trigger] r[j]).0
}

/// Relies on `HashMap::iter` through `Iterator::collect`: the map's
/// key-value pairs, each exactly once, in no promised order.
#[verifier::external_body]
fn hash_map_pairs(m: &HashMap<i64, i128>) -> (r: Vec<(i64, i128)>)
    ensures
        pairs_of_map(r@, m@),
{
    m.iter().map(|kv| (*kv.0, *kv.1)).collect()
}

/// A key no completed entry falls in has a zero total.
pub proof fn lemma_no_bucket_zero(es: Seq<Entry>, g: Granularity, k: int)
    requires
        !has_bucket(es, g, k),
    ensures
        bucket_sum(es, g, k) == 0,
    decreases es.len(),
{
    if es.len() > 0 {
        if has_bucket(es.drop_last(), g, k) {
            let w = choose|w: int|
                0 <= w < es.drop_last().len() && closed_entry(#[trigger] es.drop_last()[w])
                    && entry_key(g, es.drop_last()[w]) == k;
            assert(es[w] == es.drop_last()[w]);
            assert(has_bucket(es, g, k));
        }
        lemma_no_bucket_zero(es.drop_last(), g, k);
        if closed_entry(es.last()) && entry_key(g, es.last()) == k {
            assert(es[es.len() - 1] == es.last());
            assert(has_bucket(es, g, k));
        }
        assert(bucket_part(es.last(), g, k) == 0);
    }
}

/// A pair is in an inserted sequence exactly if it was there or is the new
/// one.
proof fn lemma_insert_contains(s: Seq<(i64, i128)>, j: int, x: (i64, i128))
    requires
        0 <= j <= s.len(),
    ensures
        forall|q: (i64, i128)|
            #[trigger] s.insert(j, x).contains(q) <==> s.contains(q) || q == x,
{
    let t = s.insert(j, x);
    assert forall|q: (i64, i128)| #[trigger] t.contains(q) implies s.contains(q) || q == x by {
        let idx = choose|idx: int| 0 <= idx < t.len() && t[idx] == q;
        if idx < j {
            assert(s[idx] == q);
        } else if idx == j {
        } else {
            assert(s[idx - 1] == q);
        }
    }
    assert forall|q: (i64, i128)| s.contains(q) || q == x implies #[trigger] t.contains(q) by {
        if q == x {
            assert(t[j] == q);
        } else {
            let idx = choose|idx: int| 0 <= idx < s.len() && s[idx] == q;
            if idx < j {
                assert(t[idx] == q);
            } else {
                assert(t[idx + 1] == q);
            }
        }
    }
}

/// Drains a hash map into a vector of pairs sorted ascending by key.
pub fn sort_hash_map(m: HashMap<i64, i128>) -> (r: Vec<(i64, i128)>)
    ensures
        sorted_strict(r@),
        forall|p: (i64, i128)|
            #[trigger] r@.contains(p) <==> m@.contains_key(p.0) && m@[p.0] == p.1,
{
    let ghost mv = m@;
    let pairs = hash_map_pairs(&m);
    let n = pairs.len();
    let mut out: Vec<(i64, i128)> = Vec::new();
    let mut i: usize = 0;
    proof {
        assert(pairs@.take(0) =~= Seq::<(i64, i128)>::empty());
    }
    while i < n
        invariant
            n == pairs@.len(),
            i <= n,
            forall|p: (i64, i128)|
                #[trigger] pairs@.contains(p) <==> mv.contains_key(p.0) && mv[p.0] == p.1,
            forall|a: int, b: int|
                0 <= a < b < pairs@.len() ==> (#[trigger] pairs@[a]).0 != (#[trigger] pairs@[b]).0,
            sorted_strict(out@),
            forall|q: (i64, i128)|
                #[trigger] out@.contains(q) <==> pairs@.take(i as int).contains(q),
        decreases n - i,
    {
        let p = pairs[i];
        let mut j: usize = out.len();
        while j > 0 && out[j - 1].0 > p.0
            invariant
                j <= out@.len(),
                forall|b: int| j <= b < out@.len() ==> (#[trigger] out@[b]).0 > p.0,
            decreases j,
        {
            j = j - 1;
        }
        proof {
            if j > 0 && out@[j - 1].0 == p.0 {
                assert(out@.contains(out@[j - 1]));
                let q = out@[j - 1];
                assert(pairs@.take(i as int).contains(q));
                let a = choose|a: int| 0 <= a < i && #[trigger] pairs@.take(i as int)[a] == q;
                assert(pairs@[a] == q);
                assert(pairs@[a].0 == pairs@[i as int].0);
                assert(false);
            }
        }
        let ghost before = out@;
        out.insert(j, p);
        proof {
            assert(out@ =~= before.insert(j as int, p));
            lemma_insert_contains(before, j as int, p);
            assert(pairs@.take(i + 1) =~= pairs@.take(i as int).push(pairs@[i as int]));
            assert forall|q: (i64, i128)| #[trigger] out@.contains(q) implies pairs@.take(
                i + 1,
            ).contains(q) by {
                if q == p {
                    assert(pairs@.take(i + 1)[i as int] == p);
                } else {
                    assert(before.contains(q));
                    let a = choose|a: int| 0 <= a < i && #[trigger] pairs@.take(i as int)[a] == q;
                    assert(pairs@.take(i + 1)[a] == q);
                }
            }
            assert forall|q: (i64, i128)| pairs@.take(i + 1).contains(q) implies out@.contains(
                q,
            ) by {
                let a = choose|a: int| 0 <= a < i + 1 && #[trigger] pairs@.take(i + 1)[a] == q;
                if a < i {
                    assert(pairs@.take(i as int)[a] == q);
                }
            }
            assert forall|a: int, b: int|
                0 <= a < b < out@.len() implies (#[trigger] out@[a]).0 < (#[trigger] out@[b]).0 by {
                assert(j == 0 || before[j - 1].0 < p.0);
            }
        }
        i = i + 1;
    }
    proof {
        assert(pairs@.take(n as int) =~= pairs@);
    }
    out
}

/// The totals of every non-empty bucket under one granularity, ascending
/// by key.
pub fn bucket_totals(entries: &Vec<Entry>, g: Granularity) -> (r: Vec<(i64, i128)>)
    requires
        forall|i: int| 0 <= i < entries@.len() ==> entry_valid(#[trigger] entries@[i]),
    ensures
        totals_ok(entries@, g, r@),
{
    let ghost es = entries@;
    let mut m: HashMap<i64, i128> = HashMap::new();
    let n = entries.len();
    let mut i: usize = 0;
    proof {
        assert(es.take(0) =~= Seq::<Entry>::empty());
        assert(vstd::std_specs::hash::obeys_key_model::<i64>());
    }
    while i < n
        invariant
            n == es.len(),
            entries@ == es,
            i <= n,
            forall|k: int| 0 <= k < es.len() ==> entry_valid(#[trigger] es[k]),
            vstd::std_specs::hash::builds_valid_hashers::<std::hash::RandomState>(),
            forall|k: i64| #[trigger] m@.contains_key(k) <==> has_bucket(es.take(i as int), g, k as int),
            forall|k: i64|
                #[trigger] m@.contains_key(k) ==> m@[k] as int == bucket_sum(
                    es.take(i as int),
                    g,
                    k as int,
                ),
            forall|k: i64| #[trigger] m@.contains_key(k) ==> 0 <= k < KEY_BOUND,
            forall|k: i64|
                #[trigger] m@.contains_key(k) ==> -((i as int) * (DUR_BOUND as int)) <= m@[k] as int
                    <= (i as int) * (DUR_BOUND as int),
        decreases n - i,
    {
        let e = &entries[i];
        let ghost stepped = es.take(i + 1);
        proof {
            assert(stepped.drop_last() =~= es.take(i as int));
            assert(stepped.last() == es[i as int]);
        }
        match (e.start, e.stop) {
            (Some(a), Some(b)) => {
                let dur: i64 = b.secs - a.secs;
                let k = key_for(g, a.secs, a.off);
                let prev: i128 = match m.get(&k) {
                    Some(v) => *v,
                    None => 0,
                };
                proof {
                    if !m@.contains_key(k) {
                        lemma_no_bucket_zero(es.take(i as int), g, k as int);
                    }
                    assert(prev as int == bucket_sum(es.take(i as int), g, k as int));
                    assert((i as int) * (DUR_BOUND as int) + (DUR_BOUND as int) == ((i + 1) as int)
                        * (DUR_BOUND as int)) by (nonlinear_arith);
                    assert(((i + 1) as int) * (DUR_BOUND as int) <= (n as int) * (
                    DUR_BOUND as int)) by (nonlinear_arith)
                        requires
                            0 <= i + 1 <= n as int,
                    ;
                    assert((n as int) * (DUR_BOUND as int) < i128::MAX) by (nonlinear_arith)
                        requires
                            0 <= n <= usize::MAX,
                    ;
                }
                let total: i128 = prev + (dur as i128);
                let ghost m0 = m@;
                m.insert(k, total);
                proof {
                    assert(m@ == m0.insert(k, total));
                    assert(closed_entry(es[i as int]));
                    assert(entry_key(g, es[i as int]) == k as int);
                    assert(bucket_part(es[i as int], g, k as int) == dur as int);
                    assert forall|kk: i64| #[trigger]
                        m@.contains_key(kk) implies m@[kk] as int == bucket_sum(
                        es.take(i + 1),
                        g,
                        kk as int,
                    ) by {
                        lemma_bucket_sum_step(es, i as int, g, kk as int);
                        if kk == k {
                            assert(m@[kk] == total);
                        } else {
                            assert(m@[kk] == m0[kk]);
                            assert(bucket_part(es[i as int], g, kk as int) == 0);
                        }
                    }
                    assert forall|kk: i64| #[trigger] m@.contains_key(kk) implies has_bucket(
                        es.take(i + 1),
                        g,
                        kk as int,
                    ) by {
                        if kk == k {
                            assert(es.take(i + 1)[i as int] == es[i as int]);
                        } else {
                            let w = choose|w: int|
                                0 <= w < i && closed_entry(#[trigger] es.take(i as int)[w])
                                    && entry_key(g, es.take(i as int)[w]) == kk as int;
                            assert(es.take(i + 1)[w] == es[w]);
                        }
                    }
                    assert forall|kk: i64|
                        has_bucket(es.take(i + 1), g, kk as int) implies #[trigger] m@.contains_key(
                        kk,
                    ) by {
                        let w = choose|w: int|
                            0 <= w < i + 1 && closed_entry(#[trigger] es.take(i + 1)[w])
                                && entry_key(g, es.take(i + 1)[w]) == kk as int;
                        if w < i {
                            assert(es.take(i as int)[w] == es[w]);
                            assert(has_bucket(es.take(i as int), g, kk as int));
                        }
                    }
                }
            },
            _ => {
                proof {
                    assert(!closed_entry(es[i as int]));
                    assert forall|kk: i64| #[trigger]
                        m@.contains_key(kk) implies m@[kk] as int == bucket_sum(
                        es.take(i + 1),
                        g,
                        kk as int,
                    ) by {
                        lemma_bucket_sum_step(es, i as int, g, kk as int);
                    }
                    assert forall|kk: i64| #[trigger] m@.contains_key(kk) implies has_bucket(
                        es.take(i + 1),
                        g,
                        kk as int,
                    ) by {
                        let w = choose|w: int|
                            0 <= w < i && closed_entry(#[trigger] es.take(i as int)[w]) && entry_key(
                                g,
                                es.take(i as int)[w],
                            ) == kk as int;
                        assert(es.take(i + 1)[w] == es[w]);
                    }
                    assert forall|kk: i64|
                        has_bucket(es.take(i + 1), g, kk as int) implies #[trigger] m@.contains_key(
                        kk,
                    ) by {
                        let w = choose|w: int|
                            0 <= w < i + 1 && closed_entry(#[trigger] es.take(i + 1)[w])
                                && entry_key(g, es.take(i + 1)[w]) == kk as int;
                        assert(w < i);
                        assert(es.take(i as int)[w] == es[w]);
                        assert(has_bucket(es.take(i as int), g, kk as int));
                    }
                }
            },
        }
        i = i + 1;
    }
    proof {
        assert(es.take(n as int) =~= es);
    }
    let r = sort_hash_map(m);
    proof {
        assert forall|p: (i64, i128)| #[trigger] r@.contains(p) implies has_bucket(
            es,
            g,
            p.0 as int,
        ) && p.1 as int == bucket_sum(es, g, p.0 as int) by {}
        assert forall|p: (i64, i128)|
            has_bucket(es, g, p.0 as int) && p.1 as int == bucket_sum(
                es,
                g,
                p.0 as int,
            ) implies #[trigger] r@.contains(p) by {
            assert(m@.contains_key(p.0));
            assert(m@[p.0] as int == p.1 as int);
            assert(m@[p.0] == p.1);
        }
        assert forall|i2: int| 0 <= i2 < r@.len() implies 0 <= (#[trigger] r@[i2]).0
            < KEY_BOUND by {
            assert(r@.contains(r@[i2]));
        }
    }
    r
}

/// A two-digit zero-padded number (for months and days).
pub open spec fn pad2(n: int) -> Seq<char> {
    if n < 10 {
        seq!['0'] + dec_digits(n as nat)
    } else {
        dec_digits(n as nat)
    }
}

pub open spec fn week_words() -> Seq<char> {
    seq![',', ' ', 'W', 'e', 'e', 'k', ' ']
}

/// The human label of a bucket key: the year, `year-month`,
/// `year, Week w` (ISO), or `year-month-day`.
pub open spec fn label_of(g: Granularity, k: int) -> Seq<char> {
    match g {
        Granularity::Yearly => dec_str(k),
        Granularity::Monthly => dec_str(k / 100) + seq!['-'] + pad2(k % 100),
        Granularity::Weekly => dec_str(k / 100 - 1) + week_words() + dec_str(k % 100),
        Granularity::Daily => dec_str(k / 10000) + seq!['-'] + pad2((k / 100) % 100) + seq!['-']
            + pad2(k % 100),
    }
}

/// One printed bucket: its label, a colon and space, and its total
/// duration formatted compactly.
pub open spec fn line_of(g: Granularity, p: (i64, i128)) -> Seq<char> {
    label_of(g, p.0 as int) + seq![':', ' '] + spec_format_dur(p.1 as int)
}

/// The printed block of one granularity: one line per bucket, in order.
pub open spec fn block_lines(g: Granularity, t: Seq<(i64, i128)>) -> Seq<Seq<char>> {
    Seq::new(t.len(), |i: int| line_of(g, t[i]))
}

/// Requested blocks joined with one blank line between non-empty blocks.
pub open spec fn assemble(bs: Seq<Seq<Seq<char>>>) -> Seq<Seq<char>>
    decreases bs.len(),
{
    if bs.len() == 0 {
        Seq::<Seq<char>>::empty()
    } else {
        let rest = assemble(bs.drop_first());
        if bs[0].len() == 0 {
            rest
        } else if rest.len() == 0 {
            bs[0]
        } else {
            bs[0] + seq![Seq::<char>::empty()] + rest
        }
    }
}

/// Appends the zero-padded two-digit form of `v`.
fn push_pad2(out: &mut String, v: i64)
    requires
        0 <= v < 100,
    ensures
        final(out)@ == old(out)@ + pad2(v as int),
{
    if v < 10 {
        push_char(out, '0');
    }
    push_dec(out, v as u64);
}

/// The human label of a bucket key.
pub fn bucket_label(g: Granularity, k: i64) -> (r: String)
    requires
        0 <= k < KEY_BOUND,
    ensures
        r@ == label_of(g, k as int),
{
    let mut out = String::new();
    match g {
        Granularity::Yearly => {
            push_dec_signed(&mut out, k);
        },
        Granularity::Monthly => {
            push_dec_signed(&mut out, k / 100);
            push_char(&mut out, '-');
            push_pad2(&mut out, k % 100);
        },
        Granularity::Weekly => {
            push_dec_signed(&mut out, k / 100 - 1);
            out.append(", Week ");
            proof {
                reveal_strlit(", Week ");
                assert(", Week "@ =~= week_words());
            }
            push_dec_signed(&mut out, k % 100);
        },
        Granularity::Daily => {
            push_dec_signed(&mut out, k / 10000);
            push_char(&mut out, '-');
            push_pad2(&mut out, (k / 100) % 100);
            push_char(&mut out, '-');
            push_pad2(&mut out, k % 100);
        },
    }
    proof {
        assert(out@ =~= label_of(g, k as int));
    }
    out
}

/// Appends the decimal digits of a wide number.
fn push_dec_u128(out: &mut String, n: u128)
    ensures
        final(out)@ == old(out)@ + dec_digits(n as nat),
    decreases n,
{
    if n >= 10 {
        push_dec_u128(out, n / 10);
    }
    let d: u64 = (n % 10) as u64;
    push_dec(out, d);
    proof {
        if n < 10 {
            assert(dec_digits(n as nat) =~= dec_digits(d as nat));
        } else {
            assert(dec_digits(n as nat) == dec_digits(n as nat / 10) + seq![
                crate::durfmt::digit_char((n as nat % 10) as int),
            ]);
            assert(dec_digits(d as nat) =~= seq![crate::durfmt::digit_char((n as nat % 10) as int)]);
        }
    }
}

/// Formats a wide span of seconds like `format_dur`.
pub fn format_dur_wide(secs: i128) -> (r: String)
    requires
        secs > i128::MIN,
    ensures
        r@ == spec_format_dur(secs as int),
{
    let neg = secs < 0;
    let mag: u128 = if neg {
        (-secs) as u128
    } else {
        secs as u128
    };
    assert(mag as nat == crate::durfmt::abs_secs(secs as int));
    let d: u128 = mag / 86400;
    let r1: u128 = mag % 86400;
    let h: u128 = r1 / 3600;
    let r2: u128 = r1 % 3600;
    let mi: u128 = r2 / 60;
    let sc: u128 = r2 % 60;
    let mut out = String::new();
    push_unit_wide(&mut out, d, neg, 'd');
    push_unit_wide(&mut out, h, neg, 'h');
    push_unit_wide(&mut out, mi, neg, 'm');
    push_unit_wide(&mut out, sc, neg, 's');
    out
}

fn push_unit_wide(out: &mut String, v: u128, neg: bool, unit: char)
    ensures
        final(out)@ == old(out)@ + crate::durfmt::unit_token(v as nat, neg, unit),
{
    if v != 0 {
        if neg {
            push_char(out, '-');
        }
        push_dec_u128(out, v);
        push_char(out, unit);
    }
}

/// Prints one granularity's totals, one line per bucket.
pub fn granularity_lines(totals: &Vec<(i64, i128)>, g: Granularity) -> (r: Vec<String>)
    requires
        forall|i: int| 0 <= i < totals@.len() ==> 0 <= (#[trigger] totals@[i]).0 < KEY_BOUND,
        forall|i: int| 0 <= i < totals@.len() ==> (#[trigger] totals@[i]).1 > i128::MIN,
    ensures
        r.deep_view() == block_lines(g, totals@),
{
    let n = totals.len();
    let mut r: Vec<String> = Vec::new();
    let mut i: usize = 0;
    while i < n
        invariant
            n == totals@.len(),
            i <= n,
            forall|j: int| 0 <= j < totals@.len() ==> 0 <= (#[trigger] totals@[j]).0 < KEY_BOUND,
            forall|j: int| 0 <= j < totals@.len() ==> (#[trigger] totals@[j]).1 > i128::MIN,
            r.deep_view() =~= block_lines(g, totals@).take(i as int),
        decreases n - i,
    {
        let p = totals[i];
        let mut line = bucket_label(g, p.0);
        line.append(": ");
        proof {
            reveal_strlit(": ");
            assert(": "@ =~= seq![':', ' ']);
        }
        let ghost prev_deep = r.deep_view();
        let dtxt = format_dur_wide(p.1);
        line.append(dtxt.as_str());
        r.push(line);
        proof {
            assert(r.deep_view() =~~= prev_deep + seq![line@]);
            assert(line@ =~= line_of(g, totals@[i as int]));
            assert(block_lines(g, totals@).take(i + 1) =~= block_lines(g, totals@).take(
                i as int,
            ).push(line_of(g, totals@[i as int])));
            assert(r.deep_view() =~~= block_lines(g, totals@).take(i + 1));
        }
        i = i + 1;
    }
    proof {
        assert(block_lines(g, totals@).take(n as int) =~= block_lines(g, totals@));
    }
    r
}

/// Joins one block onto the blocks after it, a blank line between when
/// both sides print something.
fn prepend_block(block: Vec<String>, rest: Vec<String>) -> (r: Vec<String>)
    ensures
        block@.len() == 0 ==> r.deep_view() == rest.deep_view(),
        block@.len() > 0 && rest@.len() == 0 ==> r.deep_view() == block.deep_view(),
        block@.len() > 0 && rest@.len() > 0 ==> r.deep_view() == block.deep_view() + seq![
            Seq::<char>::empty(),
        ] + rest.deep_view(),
{
    if block.len() == 0 {
        return rest;
    }
    if rest.len() == 0 {
        return block;
    }
    let ghost bdeep = block.deep_view();
    let ghost rdeep = rest.deep_view();
    let mut out = block;
    let ghost before = out.deep_view();
    out.push(String::new());
    proof {
        assert(out.deep_view() =~~= bdeep + seq![Seq::<char>::empty()]);
    }
    let n = rest.len();
    let mut i: usize = 0;
    while i < n
        invariant
            n == rest@.len(),
            i <= n,
            rest.deep_view() == rdeep,
            out.deep_view() =~~= bdeep + seq![Seq::<char>::empty()] + rdeep.take(i as int),
        decreases n - i,
    {
        let ghost prev = out.deep_view();
        let line = rest[i].clone();
        out.push(line);
        proof {
            assert(line@ == rdeep[i as int]);
            assert(out.deep_view() =~~= prev + seq![rdeep[i as int]]);
            assert(rdeep.take(i + 1) =~= rdeep.take(i as int).push(rdeep[i as int]));
            assert(out.deep_view() =~~= bdeep + seq![Seq::<char>::empty()] + rdeep.take(i + 1));
        }
        i = i + 1;
    }
    proof {
        assert(rdeep.take(n as int) =~= rdeep);
    }
    out
}

/// Summarizes the collection: for each requested granularity, the totals
/// of every non-empty bucket, each line `label: duration`, blocks in the
/// fixed order yearly, monthly, weekly, daily, a blank line between
/// printed blocks.
pub fn summarize(
    entries: &Vec<Entry>,
    yearly: bool,
    monthly: bool,
    weekly: bool,
    daily: bool,
) -> (r: Vec<String>)
    requires
        forall|i: int| 0 <= i < entries@.len() ==> entry_valid(#[trigger] entries@[i]),
    ensures
        exists|ty: Seq<(i64, i128)>, tm: Seq<(i64, i128)>, tw: Seq<(i64, i128)>, td: Seq<(i64, i128)>|
            {
                &&& totals_ok(entries@, Granularity::Yearly, ty)
                &&& totals_ok(entries@, Granularity::Monthly, tm)
                &&& totals_ok(entries@, Granularity::Weekly, tw)
                &&& totals_ok(entries@, Granularity::Daily, td)
                &&& r.deep_view() == assemble(
                    seq![
                        if yearly {
                            block_lines(Granularity::Yearly, ty)
                        } else {
                            Seq::<Seq<char>>::empty()
                        },
                        if monthly {
                            block_lines(Granularity::Monthly, tm)
                        } else {
                            Seq::<Seq<char>>::empty()
                        },
                        if weekly {
                            block_lines(Granularity::Weekly, tw)
                        } else {
                            Seq::<Seq<char>>::empty()
                        },
                        if daily {
                            block_lines(Granularity::Daily, td)
                        } else {
                            Seq::<Seq<char>>::empty()
                        },
                    ],
                )
            },
{
    let ty = bucket_totals(entries, Granularity::Yearly);
    let tm = bucket_totals(entries, Granularity::Monthly);
    let tw = bucket_totals(entries, Granularity::Weekly);
    let td = bucket_totals(entries, Granularity::Daily);
    let nlen = entries.len();
    proof {
        assert(entries@.len() == nlen as int);
        lemma_totals_values_bounded(entries@, Granularity::Yearly, ty@);
        lemma_totals_values_bounded(entries@, Granularity::Monthly, tm@);
        lemma_totals_values_bounded(entries@, Granularity::Weekly, tw@);
        lemma_totals_values_bounded(entries@, Granularity::Daily, td@);
    }
    let by: Vec<String> = if yearly {
        granularity_lines(&ty, Granularity::Yearly)
    } else {
        Vec::new()
    };
    let bm: Vec<String> = if monthly {
        granularity_lines(&tm, Granularity::Monthly)
    } else {
        Vec::new()
    };
    let bw: Vec<String> = if weekly {
        granularity_lines(&tw, Granularity::Weekly)
    } else {
        Vec::new()
    };
    let bd: Vec<String> = if daily {
        granularity_lines(&td, Granularity::Daily)
    } else {
        Vec::new()
    };
    let ghost b0 = by.deep_view();
    let ghost b1 = bm.deep_view();
    let ghost b2 = bw.deep_view();
    let ghost b3 = bd.deep_view();
    let tail: Vec<String> = Vec::new();
    proof {
        assert(tail.deep_view() =~~= Seq::<Seq<char>>::empty());
    }
    let r3 = prepend_block(bd, tail);
    let r2 = prepend_block(bw, r3);
    let r1 = prepend_block(bm, r2);
    let r = prepend_block(by, r1);
    proof {
        let bs = seq![b0, b1, b2, b3];
        assert(bs.drop_first() =~= seq![b1, b2, b3]);
        assert(seq![b1, b2, b3].drop_first() =~= seq![b2, b3]);
        assert(seq![b2, b3].drop_first() =~= seq![b3]);
        assert(seq![b3].drop_first() =~= Seq::<Seq<Seq<char>>>::empty());
        assert(assemble(Seq::<Seq<Seq<char>>>::empty()) == Seq::<Seq<char>>::empty());
        assert(r3.deep_view() =~~= assemble(seq![b3]));
        assert(r2.deep_view() =~~= assemble(seq![b2, b3]));
        assert(r1.deep_view() =~~= assemble(seq![b1, b2, b3]));
        assert(r.deep_view() =~~= assemble(bs));
        assert(r.deep_view() == assemble(
            seq![
                if yearly {
                    block_lines(Granularity::Yearly, ty@)
                } else {
                    Seq::<Seq<char>>::empty()
                },
                if monthly {
                    block_lines(Granularity::Monthly, tm@)
                } else {
                    Seq::<Seq<char>>::empty()
                },
                if weekly {
                    block_lines(Granularity::Weekly, tw@)
                } else {
                    Seq::<Seq<char>>::empty()
                },
                if daily {
                    block_lines(Granularity::Daily, td@)
                } else {
                    Seq::<Seq<char>>::empty()
                },
            ],
        ));
    }
    r
}

/// Every total in a characterized block is a bucket sum, hence bounded.
pub proof fn lemma_totals_values_bounded(es: Seq<Entry>, g: Granularity, t: Seq<(i64, i128)>)
    requires
        es.len() <= usize::MAX,
        forall|i: int| 0 <= i < es.len() ==> entry_valid(#[trigger] es[i]),
        totals_ok(es, g, t),
    ensures
        forall|i: int| 0 <= i < t.len() ==> (#[trigger] t[i]).1 > i128::MIN,
{
    assert forall|i: int| 0 <= i < t.len() implies (#[trigger] t[i]).1 > i128::MIN by {
        assert(t.contains(t[i]));
        assert(t[i].1 as int == bucket_sum(es, g, t[i].0 as int));
        lemma_bucket_sum_bound(es, g, t[i].0 as int);
        assert((es.len() as int) * (DUR_BOUND as int) < -(i128::MIN as int)) by (nonlinear_arith)
            requires
                0 <= es.len() <= usize::MAX,
        ;
    }
}

} // verus!
