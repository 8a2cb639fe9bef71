//! Character-level text helpers: building strings one character at a time,
//! and splitting/joining on a separator character, with exact specifications.
use vstd::prelude::*;

verus! {

/// Relies on `String::push`: appends one character at the end of the string.
#[verifier::external_body]
pub fn push_char(s: &mut String, c: char)
    ensures
        final(s)@ == old(s)@ + seq![c],
{
    s.push(c);
}

/// Relies on `String::from_iter` through `Iterator::collect`: builds the
/// string holding exactly the given characters.
#[verifier::external_body]
pub fn string_of_chars(v: &Vec<char>) -> (r: String)
    ensures
        r@ == v@,
{
    v.iter().collect()
}

/// Whether two character vectors hold the same characters.
pub fn vec_eq(a: &Vec<char>, b: &Vec<char>) -> (r: bool)
    ensures
        r == (a@ == b@),
{
    if a.len() != b.len() {
        proof {
            assert(a@ != b@);
        }
        return false;
    }
    let n = a.len();
    let mut i: usize = 0;
    while i < n
        invariant
            n == a@.len() && n == b@.len(),
            i <= n,
            forall|j: int| 0 <= j < i ==> a@[j] == b@[j],
        decreases n - i,
    {
        if a[i] != b[i] {
            return false;
        }
        i = i + 1;
    }
    proof {
        assert(a@ =~= b@);
    }
    true
}

/// Whether `p` is a prefix of `a`.
pub open spec fn has_prefix(a: Seq<char>, p: Seq<char>) -> bool {
    a.len() >= p.len() && a.take(p.len() as int) == p
}

pub fn vec_has_prefix(a: &Vec<char>, p: &Vec<char>) -> (r: bool)
    ensures
        r == has_prefix(a@, p@),
{
    if a.len() < p.len() {
        return false;
    }
    let n = p.len();
    let mut i: usize = 0;
    while i < n
        invariant
            n == p@.len(),
            n <= a@.len(),
            i <= n,
            forall|j: int| 0 <= j < i ==> a@[j] == p@[j],
        decreases n - i,
    {
        if a[i] != p[i] {
            proof {
                assert(a@.take(n as int)[i as int] != p@[i as int]);
            }
            return false;
        }
        i = i + 1;
    }
    proof {
        assert(a@.take(n as int) =~= p@);
    }
    true
}

/// The characters of `a` from position `k` on.
pub fn vec_skip(a: &Vec<char>, k: usize) -> (r: Vec<char>)
    requires
        k <= a@.len(),
    ensures
        r@ == a@.skip(k as int),
{
    let mut r: Vec<char> = Vec::new();
    let n = a.len();
    let mut i: usize = k;
    while i < n
        invariant
            n == a@.len(),
            k <= i <= n,
            r@ == a@.subrange(k as int, i as int),
        decreases n - i,
    {
        r.push(a[i]);
        proof {
            assert(a@.subrange(k as int, i + 1) =~= a@.subrange(k as int, i as int) + seq![
                a@[i as int],
            ]);
        }
        i = i + 1;
    }
    proof {
        assert(a@.subrange(k as int, n as int) =~= a@.skip(k as int));
    }
    r
}

/// Collects the characters of a string slice into a vector.
pub fn str_chars(s: &str) -> (r: Vec<char>)
    ensures
        r@ == s@,
{
    let n: usize = s.unicode_len();
    let mut r: Vec<char> = Vec::new();
    let mut i: usize = 0;
    while i < n
        invariant
            n == s@.len(),
            i <= n,
            r@ == s@.take(i as int),
        decreases n - i,
    {
        r.push(s.get_char(i));
        i = i + 1;
        proof {
            assert(s@.take(i as int) =~= s@.take(i - 1) + seq![s@[i - 1]]);
        }
    }
    proof {
        assert(s@.take(n as int) =~= s@);
    }
    r
}

/// Splitting a character sequence at every occurrence of `sep`: always at
/// least one part, and `n` separators give `n + 1` parts.
pub open spec fn split_chars(s: Seq<char>, sep: char) -> Seq<Seq<char>>
    decreases s.len(),
{
    if s.len() == 0 {
        seq![Seq::<char>::empty()]
    } else if s[0] == sep {
        seq![Seq::<char>::empty()] + split_chars(s.drop_first(), sep)
    } else {
        let rest = split_chars(s.drop_first(), sep);
        seq![seq![s[0]] + rest[0]] + rest.drop_first()
    }
}

/// Joining parts with a single `sep` between consecutive parts.
pub open spec fn join_chars(parts: Seq<Seq<char>>, sep: char) -> Seq<char>
    decreases parts.len(),
{
    if parts.len() == 0 {
        Seq::<char>::empty()
    } else if parts.len() == 1 {
        parts[0]
    } else {
        parts[0] + seq![sep] + join_chars(parts.drop_first(), sep)
    }
}

pub proof fn lemma_split_nonempty(s: Seq<char>, sep: char)
    ensures
        split_chars(s, sep).len() >= 1,
    decreases s.len(),
{
    if s.len() != 0 && s[0] != sep {
        lemma_split_nonempty(s.drop_first(), sep);
    }
}

/// Splitting a join restores the parts, provided no part contains the
/// separator.
pub proof fn lemma_split_join(parts: Seq<Seq<char>>, sep: char)
    requires
        parts.len() >= 1,
        forall|i: int| 0 <= i < parts.len() ==> !(#[trigger] parts[i]).contains(sep),
    ensures
        split_chars(join_chars(parts, sep), sep) =~~= parts,
    decreases parts.len(), parts[0].len(),
{
    if parts.len() == 1 {
        lemma_split_whole(parts[0], sep);
        assert(join_chars(parts, sep) == parts[0]);
        assert(split_chars(join_chars(parts, sep), sep) =~~= parts);
    } else if parts[0].len() == 0 {
        lemma_split_join(parts.drop_first(), sep);
        let j = join_chars(parts, sep);
        assert(j == parts[0] + seq![sep] + join_chars(parts.drop_first(), sep));
        assert(j[0] == sep);
        assert(j.len() >= 1);
        assert(j.drop_first() =~= join_chars(parts.drop_first(), sep));
        assert(split_chars(j, sep) == seq![Seq::<char>::empty()] + split_chars(
            j.drop_first(),
            sep,
        ));
        assert(split_chars(j, sep) =~~= parts);
    } else {
        let shrunk = seq![parts[0].drop_first()] + parts.drop_first();
        assert forall|i: int| 0 <= i < shrunk.len() implies !(#[trigger] shrunk[i]).contains(
            sep,
        ) by {
            if i == 0 {
                if parts[0].drop_first().contains(sep) {
                    let j = choose|j: int|
                        0 <= j < parts[0].drop_first().len() && parts[0].drop_first()[j] == sep;
                    assert(parts[0][j + 1] == sep);
                    assert(parts[0].contains(sep));
                    assert(false);
                }
            } else {
                assert(shrunk[i] == parts[i]);
            }
        }
        lemma_split_join(shrunk, sep);
        let j = join_chars(parts, sep);
        assert(j == parts[0] + seq![sep] + join_chars(parts.drop_first(), sep));
        assert(shrunk.len() >= 2);
        assert(shrunk.drop_first() =~= parts.drop_first());
        assert(join_chars(shrunk, sep) == parts[0].drop_first() + seq![sep] + join_chars(
            parts.drop_first(),
            sep,
        ));
        assert(j[0] == parts[0][0]);
        assert(parts[0][0] != sep);
        assert(j.drop_first() =~= join_chars(shrunk, sep));
        let rest = split_chars(join_chars(shrunk, sep), sep);
        assert(rest =~~= shrunk);
        lemma_split_nonempty(join_chars(shrunk, sep), sep);
        assert(split_chars(j, sep) == seq![seq![j[0]] + rest[0]] + rest.drop_first());
        assert(seq![parts[0][0]] + rest[0] =~= parts[0]);
        assert(rest.drop_first() =~~= parts.drop_first());
        assert(split_chars(j, sep) =~~= parts);
    }
}

/// A sequence without the separator splits into itself as the only part.
pub proof fn lemma_split_whole(s: Seq<char>, sep: char)
    requires
        !s.contains(sep),
    ensures
        split_chars(s, sep) =~~= seq![s],
    decreases s.len(),
{
    if s.len() != 0 {
        assert(s[0] != sep);
        if s.drop_first().contains(sep) {
            let j = choose|j: int| 0 <= j < s.drop_first().len() && s.drop_first()[j] == sep;
            assert(s[j + 1] == sep);
            assert(s.contains(sep));
            assert(false);
        }
        lemma_split_whole(s.drop_first(), sep);
        assert(seq![s[0]] + s.drop_first() =~= s);
        assert(split_chars(s, sep) =~~= seq![s]);
    }
}

/// How a split grows when one more character is appended: a separator opens
/// a new empty part, any other character extends the last part.
pub proof fn lemma_split_push(s: Seq<char>, sep: char, c: char)
    ensures
        c == sep ==> split_chars(s + seq![c], sep) =~~= split_chars(s, sep) + seq![
            Seq::<char>::empty(),
        ],
        c != sep ==> split_chars(s + seq![c], sep) =~~= split_chars(s, sep).update(
            split_chars(s, sep).len() - 1,
            split_chars(s, sep).last() + seq![c],
        ),
    decreases s.len(),
{
    lemma_split_nonempty(s, sep);
    if s.len() == 0 {
        let t = s + seq![c];
        assert(t[0] == c);
        assert(t.drop_first() =~= Seq::<char>::empty());
        assert(split_chars(t.drop_first(), sep) =~~= seq![Seq::<char>::empty()]);
        if c != sep {
            assert(split_chars(t, sep) =~~= seq![seq![c]]);
            assert(split_chars(s, sep).update(0, seq![c]) =~~= seq![seq![c]]);
        }
    } else {
        let t = s + seq![c];
        assert(t[0] == s[0]);
        assert(t.drop_first() =~= s.drop_first() + seq![c]);
        lemma_split_push(s.drop_first(), sep, c);
        lemma_split_nonempty(s.drop_first(), sep);
        let rest = split_chars(s.drop_first(), sep);
        let rest2 = split_chars(s.drop_first() + seq![c], sep);
        if s[0] == sep {
            if c == sep {
                assert(split_chars(t, sep) =~~= seq![Seq::<char>::empty()] + rest2);
                assert(split_chars(s, sep) + seq![Seq::<char>::empty()] =~~= seq![
                    Seq::<char>::empty(),
                ] + (rest + seq![Seq::<char>::empty()]));
            } else {
                assert(split_chars(t, sep) =~~= seq![Seq::<char>::empty()] + rest2);
            }
        } else {
            if c == sep {
                assert(rest2[0] == rest[0]);
                assert(split_chars(t, sep) =~~= seq![seq![s[0]] + rest2[0]] + rest2.drop_first());
                assert(rest2.drop_first() =~~= rest.drop_first() + seq![Seq::<char>::empty()]);
            } else {
                if rest.len() == 1 {
                    assert(rest2 =~~= seq![rest[0] + seq![c]]);
                    assert(split_chars(t, sep) =~~= seq![seq![s[0]] + (rest[0] + seq![c])]);
                } else {
                    assert(rest2[0] == rest[0]);
                    assert(split_chars(t, sep) =~~= seq![seq![s[0]] + rest2[0]]
                        + rest2.drop_first());
                }
            }
        }
    }
}

/// Splits a character vector at every occurrence of `sep`.
pub fn split_vec(s: &Vec<char>, sep: char) -> (r: Vec<Vec<char>>)
    ensures
        r.deep_view() == split_chars(s@, sep),
{
    let mut r: Vec<Vec<char>> = Vec::new();
    let mut cur: Vec<char> = Vec::new();
    let mut i: usize = 0;
    proof {
        assert(s@.take(0) =~= Seq::<char>::empty());
    }
    while i < s.len()
        invariant
            i <= s@.len(),
            r.deep_view() + seq![cur@] =~= split_chars(s@.take(i as int), sep),
        decreases s@.len() - i,
    {
        let c = s[i];
        proof {
            assert(s@.take(i + 1) =~= s@.take(i as int) + seq![s@[i as int]]);
            lemma_split_push(s@.take(i as int), sep, c);
            lemma_split_nonempty(s@.take(i as int), sep);
        }
        if c == sep {
            let ghost prev_deep = r.deep_view();
            let ghost pushed = cur@;
            r.push(cur);
            cur = Vec::new();
            proof {
                assert(r.deep_view() =~~= prev_deep + seq![pushed]);
                assert(r.deep_view() + seq![cur@] =~~= split_chars(s@.take(i + 1), sep));
            }
        } else {
            cur.push(c);
            proof {
                let prev = split_chars(s@.take(i as int), sep);
                assert(r.deep_view() + seq![cur@] =~~= prev.update(
                    prev.len() - 1,
                    prev.last() + seq![c],
                ));
            }
        }
        i = i + 1;
    }
    proof {
        assert(s@.take(s@.len() as int) =~= s@);
    }
    let ghost prev_deep = r.deep_view();
    r.push(cur);
    proof {
        assert(r.deep_view() =~~= prev_deep + seq![cur@]);
    }
    r
}

} // verus!
