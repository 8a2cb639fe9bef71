//! The persistence codec: the collection saved as structured text, one
//! record per `entry` line followed by its fields, each field on one line
//! with newlines and backslashes escaped; and the parser that reads the
//! same format back, proved to invert the writer.
use crate::entry::{entry_valid, Entry, EntryModel, Timestamp, MAX_SECS, MIN_SECS};
use crate::log::{lemma_multiset_insert, Log};
use crate::num::{
    dec_str, int_value, is_canon_int, is_digit, lemma_dec_str_canon, parse_int, push_dec_signed,
};
use crate::text::{push_char, split_chars, split_vec, str_chars, string_of_chars, vec_eq, vec_has_prefix, vec_skip};
use vstd::prelude::*;

verus! {

pub open spec fn kw_entry() -> Seq<char> {
    seq!['e', 'n', 't', 'r', 'y']
}

pub open spec fn kw_start() -> Seq<char> {
    seq!['s', 't', 'a', 'r', 't', ' ']
}

pub open spec fn kw_stop() -> Seq<char> {
    seq!['s', 't', 'o', 'p', ' ']
}

pub open spec fn kw_goal() -> Seq<char> {
    seq!['g', 'o', 'a', 'l', ' ']
}

pub open spec fn kw_result() -> Seq<char> {
    seq!['r', 'e', 's', 'u', 'l', 't', ' ']
}

pub open spec fn kw_note() -> Seq<char> {
    seq!['n', 'o', 't', 'e', ' ']
}

/// One character of free text as it is stored: newline and backslash get a
/// two-character escape, everything else stands for itself.
pub open spec fn esc_char(c: char) -> Seq<char> {
    if c == '\n' {
        seq!['\\', 'n']
    } else if c == '\\' {
        seq!['\\', '\\']
    } else {
        seq![c]
    }
}

/// Free text as it is stored: every character escaped.
pub open spec fn esc(s: Seq<char>) -> Seq<char>
    decreases s.len(),
{
    if s.len() == 0 {
        Seq::<char>::empty()
    } else {
        esc_char(s[0]) + esc(s.drop_first())
    }
}

/// Decoding stored text: the inverse of `esc`, or `None` for a stray
/// backslash.
pub open spec fn unesc(s: Seq<char>) -> Option<Seq<char>>
    decreases s.len(),
{
    if s.len() == 0 {
        Some(Seq::<char>::empty())
    } else if s[0] == '\\' {
        if s.len() >= 2 && (s[1] == 'n' || s[1] == '\\') {
            match unesc(s.skip(2)) {
                None => None,
                Some(t) => Some(seq![if s[1] == 'n' { '\n' } else { '\\' }] + t),
            }
        } else {
            None
        }
    } else {
        match unesc(s.drop_first()) {
            None => None,
            Some(t) => Some(seq![s[0]] + t),
        }
    }
}

/// Escaping one more character extends the escaped text.
pub proof fn lemma_esc_append(s: Seq<char>, c: char)
    ensures
        esc(s.push(c)) == esc(s) + esc_char(c),
    decreases s.len(),
{
    if s.len() == 0 {
        assert(s.push(c)[0] == c);
        assert(s.push(c).drop_first() =~= Seq::<char>::empty());
        assert(esc(Seq::<char>::empty()) == Seq::<char>::empty());
        assert(esc(s.push(c)) =~= esc_char(c));
        assert(esc(s) + esc_char(c) =~= esc_char(c));
    } else {
        lemma_esc_append(s.drop_first(), c);
        assert(s.push(c)[0] == s[0]);
        assert(s.push(c).drop_first() =~= s.drop_first().push(c));
        assert(esc(s.push(c)) == esc_char(s[0]) + esc(s.drop_first().push(c)));
        assert(esc(s.push(c)) =~= esc(s) + esc_char(c));
    }
}

/// Escaped text never contains a newline.
pub proof fn lemma_esc_no_newline(s: Seq<char>)
    ensures
        !esc(s).contains('\n'),
    decreases s.len(),
{
    if s.len() > 0 {
        lemma_esc_no_newline(s.drop_first());
        if esc(s).contains('\n') {
            let j = choose|j: int| 0 <= j < esc(s).len() && esc(s)[j] == '\n';
            let head = esc_char(s[0]);
            assert(!head.contains('\n'));
            if j < head.len() {
                assert(head[j] == '\n');
                assert(false);
            } else {
                assert(esc(s.drop_first())[j - head.len()] == '\n');
                assert(esc(s.drop_first()).contains('\n'));
                assert(false);
            }
        }
    }
}

/// Unescaping inverts escaping.
pub proof fn lemma_unesc_esc(s: Seq<char>)
    ensures
        unesc(esc(s)) == Some(s),
    decreases s.len(),
{
    if s.len() > 0 {
        lemma_unesc_esc(s.drop_first());
        let e = esc(s);
        let head = esc_char(s[0]);
        assert(e == head + esc(s.drop_first()));
        if s[0] == '\n' {
            assert(e[0] == '\\' && e[1] == 'n');
            assert(e.skip(2) =~= esc(s.drop_first()));
            assert(seq!['\n'] + s.drop_first() =~= s);
        } else if s[0] == '\\' {
            assert(e[0] == '\\' && e[1] == '\\');
            assert(e.skip(2) =~= esc(s.drop_first()));
            assert(seq!['\\'] + s.drop_first() =~= s);
        } else {
            assert(e[0] == s[0]);
            assert(e[0] != '\\');
            assert(e.drop_first() =~= esc(s.drop_first()));
            assert(seq![s[0]] + s.drop_first() =~= s);
        }
    }
}

/// A timestamp line: the keyword, then the second count and the offset as
/// canonical numerals separated by one space.
pub open spec fn ts_line(kw: Seq<char>, t: Timestamp) -> Seq<char> {
    kw + dec_str(t.secs as int) + seq![' '] + dec_str(t.off as int)
}

/// The lines of one saved entry: the `entry` marker, then one line per
/// present or non-empty field, in fixed order, notes last in stored order.
pub open spec fn entry_lines(e: Entry) -> Seq<Seq<char>> {
    seq![kw_entry()] + (match e.start {
        Some(t) => seq![ts_line(kw_start(), t)],
        None => Seq::<Seq<char>>::empty(),
    }) + (match e.stop {
        Some(t) => seq![ts_line(kw_stop(), t)],
        None => Seq::<Seq<char>>::empty(),
    }) + (if e.goal@.len() == 0 {
        Seq::<Seq<char>>::empty()
    } else {
        seq![kw_goal() + esc(e.goal@)]
    }) + (if e.result@.len() == 0 {
        Seq::<Seq<char>>::empty()
    } else {
        seq![kw_result() + esc(e.result@)]
    }) + note_lines(e.notes.deep_view())
}

/// One line per note, in order.
pub open spec fn note_lines(ns: Seq<Seq<char>>) -> Seq<Seq<char>>
    decreases ns.len(),
{
    if ns.len() == 0 {
        Seq::<Seq<char>>::empty()
    } else {
        seq![kw_note() + esc(ns[0])] + note_lines(ns.drop_first())
    }
}

/// The lines of a whole saved collection, in collection order.
pub open spec fn log_lines(es: Seq<Entry>) -> Seq<Seq<char>>
    decreases es.len(),
{
    if es.len() == 0 {
        Seq::<Seq<char>>::empty()
    } else {
        entry_lines(es[0]) + log_lines(es.drop_first())
    }
}

/// What `write_entries` produces: the lines joined with single newlines,
/// and the empty text for an empty collection.
pub open spec fn spec_save(es: Seq<Entry>) -> Seq<char> {
    if es.len() == 0 {
        Seq::<char>::empty()
    } else {
        crate::text::join_chars(log_lines(es), '\n')
    }
}

/// Appending an entry appends its lines.
pub proof fn lemma_log_lines_append(es: Seq<Entry>, e: Entry)
    ensures
        log_lines(es.push(e)) == log_lines(es) + entry_lines(e),
    decreases es.len(),
{
    if es.len() == 0 {
        assert(es.push(e)[0] == e);
        assert(es.push(e).drop_first() =~= Seq::<Entry>::empty());
        assert(log_lines(Seq::<Entry>::empty()) == Seq::<Seq<char>>::empty());
        assert(log_lines(es.push(e)) =~= entry_lines(e));
        assert(log_lines(es) + entry_lines(e) =~= entry_lines(e));
    } else {
        lemma_log_lines_append(es.drop_first(), e);
        assert(es.push(e)[0] == es[0]);
        assert(es.push(e).drop_first() =~= es.drop_first().push(e));
        assert(log_lines(es.push(e)) == entry_lines(es[0]) + log_lines(es.drop_first().push(e)));
        assert(log_lines(es.push(e)) =~= log_lines(es) + entry_lines(e));
    }
}

/// Appending a note appends its line.
pub proof fn lemma_note_lines_append(ns: Seq<Seq<char>>, n: Seq<char>)
    ensures
        note_lines(ns.push(n)) == note_lines(ns) + seq![kw_note() + esc(n)],
    decreases ns.len(),
{
    if ns.len() == 0 {
        assert(ns.push(n)[0] == n);
        assert(ns.push(n).drop_first() =~= Seq::<Seq<char>>::empty());
        assert(note_lines(Seq::<Seq<char>>::empty()) == Seq::<Seq<char>>::empty());
        assert(note_lines(ns.push(n)) =~= note_lines(ns) + seq![kw_note() + esc(n)]);
    } else {
        lemma_note_lines_append(ns.drop_first(), n);
        assert(ns.push(n)[0] == ns[0]);
        assert(ns.push(n).drop_first() =~= ns.drop_first().push(n));
        assert(note_lines(ns.push(n)) == seq![kw_note() + esc(ns[0])] + note_lines(
            ns.drop_first().push(n),
        ));
        assert(note_lines(ns.push(n)) =~= note_lines(ns) + seq![kw_note() + esc(n)]);
    }
}

/// Appends the escaped form of `text` to `out`.
fn push_escaped(out: &mut String, text: &str)
    ensures
        final(out)@ == old(out)@ + esc(text@),
{
    let chars = str_chars(text);
    let n = chars.len();
    let mut i: usize = 0;
    proof {
        assert(chars@.take(0) =~= Seq::<char>::empty());
    }
    while i < n
        invariant
            n == chars@.len(),
            chars@ == text@,
            i <= n,
            out@ == old(out)@ + esc(text@.take(i as int)),
        decreases n - i,
    {
        let c = chars[i];
        proof {
            assert(text@.take(i + 1) =~= text@.take(i as int).push(text@[i as int]));
            lemma_esc_append(text@.take(i as int), c);
        }
        if c == '\n' {
            push_char(out, '\\');
            push_char(out, 'n');
        } else if c == '\\' {
            push_char(out, '\\');
            push_char(out, '\\');
        } else {
            push_char(out, c);
        }
        i = i + 1;
    }
    proof {
        assert(text@.take(n as int) =~= text@);
    }
}

/// Appends a timestamp line (without the leading newline).
fn push_ts_line(out: &mut String, kw: &str, t: Timestamp)
    ensures
        final(out)@ == old(out)@ + ts_line(kw@, t),
{
    out.append(kw);
    push_dec_signed(out, t.secs);
    push_char(out, ' ');
    push_dec_signed(out, t.off as i64);
    proof {
        assert(out@ =~= old(out)@ + ts_line(kw@, t));
    }
}

/// Appends one entry's lines to `out`, each preceded by a newline.
#[verifier::rlimit(60)]
fn push_entry_text(out: &mut String, e: &Entry)
    requires
        entry_valid(*e),
    ensures
        final(out)@ == old(out)@ + lines_text(entry_lines(*e)),
{
    proof {
        reveal_strlit("entry");
        reveal_strlit("start ");
        reveal_strlit("stop ");
        reveal_strlit("goal ");
        reveal_strlit("result ");
        reveal_strlit("note ");
        assert("entry"@ =~= kw_entry());
        assert("start "@ =~= kw_start());
        assert("stop "@ =~= kw_stop());
        assert("goal "@ =~= kw_goal());
        assert("result "@ =~= kw_result());
        assert("note "@ =~= kw_note());
    }
    push_char(out, '\n');
    out.append("entry");
    let ghost seg0 = seq![kw_entry()];
    proof {
        assert(seg0.drop_first() =~= Seq::<Seq<char>>::empty());
        assert(lines_text(Seq::<Seq<char>>::empty()) == Seq::<char>::empty());
        assert(lines_text(seg0) == seq!['\n'] + seg0[0] + lines_text(seg0.drop_first()));
        assert(out@ =~= old(out)@ + lines_text(seg0));
    }
    let ghost mut done = seg0;
    match e.start {
        Some(t) => {
            push_char(out, '\n');
            push_ts_line(out, "start ", t);
            proof {
                lemma_lines_text_append(done, ts_line(kw_start(), t));
                done = done.push(ts_line(kw_start(), t));
                assert(out@ =~= old(out)@ + lines_text(done));
            }
        },
        None => {},
    }
    match e.stop {
        Some(t) => {
            push_char(out, '\n');
            push_ts_line(out, "stop ", t);
            proof {
                lemma_lines_text_append(done, ts_line(kw_stop(), t));
                done = done.push(ts_line(kw_stop(), t));
                assert(out@ =~= old(out)@ + lines_text(done));
            }
        },
        None => {},
    }
    if !e.goal.as_str().is_empty() {
        push_char(out, '\n');
        out.append("goal ");
        push_escaped(out, e.goal.as_str());
        proof {
            lemma_lines_text_append(done, kw_goal() + esc(e.goal@));
            done = done.push(kw_goal() + esc(e.goal@));
            assert(out@ =~= old(out)@ + lines_text(done));
        }
    }
    if !e.result.as_str().is_empty() {
        push_char(out, '\n');
        out.append("result ");
        push_escaped(out, e.result.as_str());
        proof {
            lemma_lines_text_append(done, kw_result() + esc(e.result@));
            done = done.push(kw_result() + esc(e.result@));
            assert(out@ =~= old(out)@ + lines_text(done));
        }
    }
    let ghost base = done;
    let nn = e.notes.len();
    let mut j: usize = 0;
    while j < nn
        invariant
            nn == e.notes@.len(),
            j <= nn,
            out@ == old(out)@ + lines_text(base + note_lines(e.notes.deep_view().take(j as int))),
        decreases nn - j,
    {
        push_char(out, '\n');
        out.append("note ");
        push_escaped(out, e.notes[j].as_str());
        proof {
            reveal_strlit("note ");
            assert("note "@ =~= kw_note());
            let ns = e.notes.deep_view();
            assert(ns.take(j + 1) =~= ns.take(j as int).push(ns[j as int]));
            assert(ns[j as int] == e.notes@[j as int]@);
            lemma_note_lines_append(ns.take(j as int), ns[j as int]);
            lemma_lines_text_concat(
                base + note_lines(ns.take(j as int)),
                seq![kw_note() + esc(ns[j as int])],
            );
            assert((base + note_lines(ns.take(j as int))).push(kw_note() + esc(ns[j as int]))
                =~= base + note_lines(ns.take(j + 1)));
            lemma_lines_text_append(
                base + note_lines(ns.take(j as int)),
                kw_note() + esc(ns[j as int]),
            );
            assert(out@ =~= old(out)@ + lines_text(base + note_lines(ns.take(j + 1))));
        }
        j = j + 1;
    }
    proof {
        let ns = e.notes.deep_view();
        assert(ns.take(nn as int) =~= ns);
        assert(base + note_lines(ns) =~= entry_lines(*e));
    }
}

/// The flat text of a sequence of lines, each preceded by one newline.
pub open spec fn lines_text(lines: Seq<Seq<char>>) -> Seq<char>
    decreases lines.len(),
{
    if lines.len() == 0 {
        Seq::<char>::empty()
    } else {
        seq!['\n'] + lines[0] + lines_text(lines.drop_first())
    }
}

/// Appending a line appends a newline and the line.
pub proof fn lemma_lines_text_append(lines: Seq<Seq<char>>, l: Seq<char>)
    ensures
        lines_text(lines.push(l)) == lines_text(lines) + seq!['\n'] + l,
    decreases lines.len(),
{
    if lines.len() == 0 {
        assert(lines.push(l)[0] == l);
        assert(lines.push(l).drop_first() =~= Seq::<Seq<char>>::empty());
        assert(lines_text(Seq::<Seq<char>>::empty()) == Seq::<char>::empty());
        assert(lines_text(lines.push(l)) =~= lines_text(lines) + seq!['\n'] + l);
    } else {
        lemma_lines_text_append(lines.drop_first(), l);
        assert(lines.push(l)[0] == lines[0]);
        assert(lines.push(l).drop_first() =~= lines.drop_first().push(l));
        assert(lines_text(lines.push(l)) == seq!['\n'] + lines[0] + lines_text(
            lines.drop_first().push(l),
        ));
        assert(lines_text(lines.push(l)) =~= lines_text(lines) + seq!['\n'] + l);
    }
}

/// Flat text distributes over concatenation of line sequences.
pub proof fn lemma_lines_text_concat(a: Seq<Seq<char>>, b: Seq<Seq<char>>)
    ensures
        lines_text(a + b) == lines_text(a) + lines_text(b),
    decreases a.len(),
{
    if a.len() == 0 {
        assert(a + b =~= b);
    } else {
        lemma_lines_text_concat(a.drop_first(), b);
        assert((a + b)[0] == a[0]);
        assert((a + b).drop_first() =~= a.drop_first() + b);
        assert(lines_text(a + b) == seq!['\n'] + a[0] + lines_text(a.drop_first() + b));
        assert(lines_text(a + b) =~= lines_text(a) + lines_text(b));
    }
}

/// The saved text is the flat text of the lines, without the very first
/// newline.
pub proof fn lemma_save_is_lines_text(es: Seq<Entry>)
    requires
        es.len() > 0,
    ensures
        lines_text(log_lines(es)).len() >= 1,
        spec_save(es) == lines_text(log_lines(es)).drop_first(),
        lines_text(log_lines(es))[0] == '\n',
    decreases es.len(),
{
    lemma_join_is_lines_text(log_lines(es));
}

/// Joining lines with newlines equals the flat text minus its leading
/// newline.
pub proof fn lemma_join_is_lines_text(lines: Seq<Seq<char>>)
    requires
        lines.len() >= 1,
    ensures
        lines_text(lines).len() >= 1,
        lines_text(lines)[0] == '\n',
        crate::text::join_chars(lines, '\n') == lines_text(lines).drop_first(),
    decreases lines.len(),
{
    if lines.len() == 1 {
        assert(lines.drop_first() =~= Seq::<Seq<char>>::empty());
        assert(lines_text(lines) == seq!['\n'] + lines[0] + Seq::<char>::empty());
        assert(crate::text::join_chars(lines, '\n') == lines[0]);
        assert(lines_text(lines).drop_first() =~= lines[0]);
    } else {
        lemma_join_is_lines_text(lines.drop_first());
        assert(crate::text::join_chars(lines, '\n') == lines[0] + seq!['\n']
            + crate::text::join_chars(lines.drop_first(), '\n'));
        assert(lines_text(lines) == seq!['\n'] + lines[0] + lines_text(lines.drop_first()));
        assert(crate::text::join_chars(lines, '\n') =~= lines_text(lines).drop_first());
    }
}

/// Serializes the collection: entries ascending by start time, one record
/// each, as `spec_save` describes; an empty collection gives empty text.
pub fn write_entries(entries: Log) -> (r: String)
    requires
        entries.wf(),
    ensures
        r@ == spec_save(entries@),
{
    let ghost es = entries@;
    let v = entries.into_sorted_vec();
    let mut out = String::new();
    let n = v.len();
    if n == 0 {
        return out;
    }
    let mut i: usize = 0;
    proof {
        assert(es.take(0) =~= Seq::<Entry>::empty());
    }
    while i < n
        invariant
            n == v@.len(),
            v@ == es,
            i <= n,
            forall|k: int| 0 <= k < es.len() ==> entry_valid(#[trigger] es[k]),
            out@ == lines_text(log_lines(es.take(i as int))),
        decreases n - i,
    {
        proof {
            assert(es.take(i + 1) =~= es.take(i as int).push(es[i as int]));
            lemma_log_lines_append(es.take(i as int), es[i as int]);
        }
        let ghost before = out@;
        push_entry_text(&mut out, &v[i]);
        proof {
            lemma_lines_text_concat(log_lines(es.take(i as int)), entry_lines(es[i as int]));
            assert(out@ =~= lines_text(log_lines(es.take(i + 1))));
        }
        i = i + 1;
    }
    proof {
        assert(es.take(n as int) =~= es);
        lemma_save_is_lines_text(es);
    }
    let r = strip_first_char(out);
    proof {
        assert(r@ == spec_save(es));
    }
    r
}

/// Removes the first character of a non-empty string by rebuilding it.
fn strip_first_char(s: String) -> (r: String)
    requires
        s@.len() >= 1,
    ensures
        r@ == s@.drop_first(),
{
    let chars = str_chars(s.as_str());
    let mut r = String::new();
    let n = chars.len();
    let mut i: usize = 1;
    proof {
        assert(s@.drop_first().take(0) =~= Seq::<char>::empty());
    }
    while i < n
        invariant
            n == chars@.len(),
            chars@ == s@,
            n >= 1,
            1 <= i <= n,
            r@ == s@.drop_first().take(i - 1),
        decreases n - i,
    {
        push_char(&mut r, chars[i]);
        proof {
            assert(s@.drop_first().take(i as int) =~= s@.drop_first().take(i - 1).push(
                s@[i as int],
            ));
        }
        i = i + 1;
    }
    proof {
        assert(s@.drop_first().take(n - 1) =~= s@.drop_first());
    }
    r
}

/// The parser's state after some prefix of the lines: whether anything went
/// wrong, the completed records, and the record still being read.
#[verifier::ext_equal]
pub struct MState {
    pub ok: bool,
    pub done: Seq<EntryModel>,
    pub cur: Option<EntryModel>,
}

pub open spec fn empty_model() -> EntryModel {
    EntryModel {
        start: None,
        stop: None,
        goal: Seq::<char>::empty(),
        result: Seq::<char>::empty(),
        notes: Seq::<Seq<char>>::empty(),
    }
}

pub open spec fn fail_state(st: MState) -> MState {
    MState { ok: false, ..st }
}

pub open spec fn flush(cur: Option<EntryModel>) -> Seq<EntryModel> {
    match cur {
        None => Seq::<EntryModel>::empty(),
        Some(m) => seq![m],
    }
}

/// What a timestamp line's remainder means: two canonical numerals in the
/// supported ranges, separated by one space.
pub open spec fn parse_ts_parts(rest: Seq<char>) -> Option<Timestamp> {
    let parts = split_chars(rest, ' ');
    if parts.len() == 2 && is_canon_int(parts[0]) && is_canon_int(parts[1]) && MIN_SECS as int
        <= int_value(parts[0]) <= MAX_SECS as int && -86399 <= int_value(parts[1]) <= 86399 {
        Some(
            Timestamp {
                secs: int_value(parts[0]) as i64,
                off: int_value(parts[1]) as i32,
            },
        )
    } else {
        None
    }
}

/// One parsing step: an `entry` line completes the previous record and
/// opens a fresh one; a field line amends the open record; anything else,
/// or a field line before the first record, is an error.
pub open spec fn step(st: MState, line: Seq<char>) -> MState {
    if !st.ok {
        st
    } else if line == kw_entry() {
        MState { ok: true, done: st.done + flush(st.cur), cur: Some(empty_model()) }
    } else if st.cur is None {
        fail_state(st)
    } else {
        let m = st.cur.unwrap();
        if crate::text::has_prefix(line, kw_start()) {
            match parse_ts_parts(line.skip(kw_start().len() as int)) {
                Some(t) => if m.start is None {
                    MState { cur: Some(EntryModel { start: Some(t), ..m }), ..st }
                } else {
                    fail_state(st)
                },
                None => fail_state(st),
            }
        } else if crate::text::has_prefix(line, kw_stop()) {
            match parse_ts_parts(line.skip(kw_stop().len() as int)) {
                Some(t) => if m.stop is None {
                    MState { cur: Some(EntryModel { stop: Some(t), ..m }), ..st }
                } else {
                    fail_state(st)
                },
                None => fail_state(st),
            }
        } else if crate::text::has_prefix(line, kw_goal()) {
            match unesc(line.skip(kw_goal().len() as int)) {
                Some(t) => MState { cur: Some(EntryModel { goal: t, ..m }), ..st },
                None => fail_state(st),
            }
        } else if crate::text::has_prefix(line, kw_result()) {
            match unesc(line.skip(kw_result().len() as int)) {
                Some(t) => MState { cur: Some(EntryModel { result: t, ..m }), ..st },
                None => fail_state(st),
            }
        } else if crate::text::has_prefix(line, kw_note()) {
            match unesc(line.skip(kw_note().len() as int)) {
                Some(t) => MState { cur: Some(EntryModel { notes: m.notes.push(t), ..m }), ..st },
                None => fail_state(st),
            }
        } else {
            fail_state(st)
        }
    }
}

pub open spec fn init_state() -> MState {
    MState { ok: true, done: Seq::<EntryModel>::empty(), cur: None }
}

pub open spec fn run(st: MState, lines: Seq<Seq<char>>) -> MState
    decreases lines.len(),
{
    if lines.len() == 0 {
        st
    } else {
        run(step(st, lines[0]), lines.drop_first())
    }
}

pub open spec fn finish(st: MState) -> Option<Seq<EntryModel>> {
    if st.ok {
        Some(st.done + flush(st.cur))
    } else {
        None
    }
}

/// What `read_entries` accepts and returns: the empty text is the empty
/// collection; any other text is split into lines and run through the
/// parser.
pub open spec fn spec_load(s: Seq<char>) -> Option<Seq<EntryModel>> {
    if s.len() == 0 {
        Some(Seq::<EntryModel>::empty())
    } else {
        finish(run(init_state(), split_chars(s, '\n')))
    }
}

/// The models of a sequence of entries, in order.
pub open spec fn models(es: Seq<Entry>) -> Seq<EntryModel> {
    Seq::new(es.len(), |i: int| es[i]@)
}

pub open spec fn model_opt(c: Option<Entry>) -> Option<EntryModel> {
    match c {
        None => None,
        Some(e) => Some(e@),
    }
}

/// Running a failed state changes nothing.
pub proof fn lemma_run_fail(st: MState, lines: Seq<Seq<char>>)
    requires
        !st.ok,
    ensures
        run(st, lines) == st,
    decreases lines.len(),
{
    if lines.len() > 0 {
        assert(step(st, lines[0]) == st);
        lemma_run_fail(st, lines.drop_first());
    }
}

/// Running over a concatenation runs the pieces in turn.
pub proof fn lemma_run_concat(st: MState, a: Seq<Seq<char>>, b: Seq<Seq<char>>)
    ensures
        run(st, a + b) == run(run(st, a), b),
    decreases a.len(),
{
    if a.len() == 0 {
        assert(a + b =~= b);
    } else {
        lemma_run_concat(step(st, a[0]), a.drop_first(), b);
        assert((a + b)[0] == a[0]);
        assert((a + b).drop_first() =~= a.drop_first() + b);
    }
}

/// A failing step at any position fails the whole parse.
pub proof fn lemma_fail_at(ls: Seq<Seq<char>>, i: int, st: MState)
    requires
        0 <= i < ls.len(),
        run(init_state(), ls.take(i)) == st,
        !step(st, ls[i]).ok,
    ensures
        finish(run(init_state(), ls)) is None,
{
    lemma_run_concat(init_state(), ls.take(i), ls.skip(i));
    assert(ls.take(i) + ls.skip(i) =~= ls);
    assert(ls.skip(i)[0] == ls[i]);
    assert(ls.skip(i).drop_first() =~= ls.skip(i + 1));
    assert(run(st, ls.skip(i)) == run(step(st, ls[i]), ls.skip(i + 1)));
    lemma_run_fail(step(st, ls[i]), ls.skip(i + 1));
}

pub proof fn lemma_models_push(es: Seq<Entry>, e: Entry)
    ensures
        models(es.push(e)) == models(es).push(e@),
{
    assert(models(es.push(e)) =~= models(es).push(e@));
}

/// Why reading stored text can fail: the contents do not follow the format.
#[derive(Clone, Copy, PartialEq, Eq, Structural, Debug)]
pub enum LoadError {
    Malformed,
}

/// Decodes stored text from the line's remainder.
fn unesc_vec(v: &Vec<char>) -> (r: Option<Vec<char>>)
    ensures
        r matches Some(t) ==> unesc(v@) == Some(t@),
        r is None ==> unesc(v@) is None,
{
    let n = v.len();
    let mut out: Vec<char> = Vec::new();
    let mut i: usize = 0;
    proof {
        assert(v@.skip(0) =~= v@);
        match unesc(v@) {
            Some(t) => {
                assert(Seq::<char>::empty() + t =~= t);
            },
            None => {},
        }
    }
    while i < n
        invariant
            n == v@.len(),
            i <= n,
            unesc(v@.skip(i as int)) matches Some(t) ==> unesc(v@) == Some(out@ + t),
            unesc(v@.skip(i as int)) is None ==> unesc(v@) is None,
        decreases n - i,
    {
        let ghost rem = v@.skip(i as int);
        let ghost old_out = out@;
        let c = v[i];
        if c == '\\' {
            if i + 1 < n && (v[i + 1] == 'n' || v[i + 1] == '\\') {
                let d = if v[i + 1] == 'n' {
                    '\n'
                } else {
                    '\\'
                };
                out.push(d);
                i = i + 2;
                proof {
                    assert(rem[0] == '\\');
                    assert(rem[1] == v@[i - 1]);
                    assert(rem.skip(2) =~= v@.skip(i as int));
                    match unesc(v@.skip(i as int)) {
                        Some(t2) => {
                            assert(unesc(rem) == Some(seq![d] + t2));
                            assert(old_out + (seq![d] + t2) =~= out@ + t2);
                        },
                        None => {
                            assert(unesc(rem) is None);
                        },
                    }
                }
            } else {
                proof {
                    assert(rem[0] == '\\');
                    if rem.len() >= 2 {
                        assert(rem[1] == v@[i + 1]);
                    }
                    assert(unesc(rem) is None);
                }
                return None;
            }
        } else {
            out.push(c);
            i = i + 1;
            proof {
                assert(rem[0] == c);
                assert(rem.drop_first() =~= v@.skip(i as int));
                match unesc(v@.skip(i as int)) {
                    Some(t2) => {
                        assert(unesc(rem) == Some(seq![c] + t2));
                        assert(old_out + (seq![c] + t2) =~= out@ + t2);
                    },
                    None => {
                        assert(unesc(rem) is None);
                    },
                }
            }
        }
    }
    proof {
        assert(v@.skip(n as int) =~= Seq::<char>::empty());
        assert(unesc(Seq::<char>::empty()) == Some(Seq::<char>::empty()));
        assert(out@ + Seq::<char>::empty() =~= out@);
    }
    Some(out)
}

/// Reads a timestamp line's remainder.
fn parse_ts(rest: &Vec<char>) -> (r: Option<Timestamp>)
    ensures
        r == parse_ts_parts(rest@),
        r matches Some(t) ==> t.valid(),
{
    let parts = split_vec(rest, ' ');
    if parts.len() != 2 {
        return None;
    }
    proof {
        assert(parts.deep_view()[0] == parts@[0]@);
        assert(parts.deep_view()[1] == parts@[1]@);
    }
    let secs = match parse_int(&parts[0], MIN_SECS, MAX_SECS) {
        Some(n) => n,
        None => {
            return None;
        },
    };
    let off64 = match parse_int(&parts[1], -86399, 86399) {
        Some(n) => n,
        None => {
            return None;
        },
    };
    Some(Timestamp { secs, off: off64 as i32 })
}

/// Loads a collection from stored text. Absent storage (`None`) is the
/// empty collection, not an error; empty text likewise. Any other text
/// must follow the stored format exactly, or loading fails; on success the
/// collection holds exactly the records the text describes, sorted.
pub fn read_entries(content: Option<&str>) -> (r: Result<Log, LoadError>)
    ensures
        content is None ==> (r matches Ok(log) && log@ == Seq::<Entry>::empty()),
        content matches Some(s) && spec_load(s@) is None ==> r is Err,
        content matches Some(s) ==> (spec_load(s@) matches Some(ms) ==> (r matches Ok(log)
            && models(log@).to_multiset() == ms.to_multiset())),
        r matches Ok(log) ==> log.wf(),
{
    let text = match content {
        None => {
            return Ok(Log::new());
        },
        Some(s) => s,
    };
    if text.is_empty() {
        let log = Log::new();
        proof {
            assert(models(log@) =~= Seq::<EntryModel>::empty());
            broadcast use vstd::seq_lib::group_to_multiset_ensures;

            assert(models(log@).to_multiset() =~= Seq::<EntryModel>::empty().to_multiset());
        }
        return Ok(log);
    }
    let chars = str_chars(text);
    let lines = split_vec(&chars, '\n');
    let ghost ls = split_chars(text@, '\n');
    proof {
        assert(lines.deep_view() == ls);
    }
    let kv_entry = str_chars("entry");
    let kv_start = str_chars("start ");
    let kv_stop = str_chars("stop ");
    let kv_goal = str_chars("goal ");
    let kv_result = str_chars("result ");
    let kv_note = str_chars("note ");
    proof {
        reveal_strlit("entry");
        reveal_strlit("start ");
        reveal_strlit("stop ");
        reveal_strlit("goal ");
        reveal_strlit("result ");
        reveal_strlit("note ");
        assert(kv_entry@ =~= kw_entry());
        assert(kv_start@ =~= kw_start());
        assert(kv_stop@ =~= kw_stop());
        assert(kv_goal@ =~= kw_goal());
        assert(kv_result@ =~= kw_result());
        assert(kv_note@ =~= kw_note());
    }
    let mut done: Vec<Entry> = Vec::new();
    let mut cur: Option<Entry> = None;
    let n = lines.len();
    let mut i: usize = 0;
    proof {
        assert(ls.take(0) =~= Seq::<Seq<char>>::empty());
        assert(models(done@) =~= Seq::<EntryModel>::empty());
    }
    while i < n
        invariant
            n == lines@.len(),
            lines.deep_view() == ls,
            content == Some(text),
            text@.len() != 0,
            ls == split_chars(text@, '\n'),
            i <= n,
            kv_entry@ == kw_entry(),
            kv_start@ == kw_start(),
            kv_stop@ == kw_stop(),
            kv_goal@ == kw_goal(),
            kv_result@ == kw_result(),
            kv_note@ == kw_note(),
            run(init_state(), ls.take(i as int)) == (MState {
                ok: true,
                done: models(done@),
                cur: model_opt(cur),
            }),
            forall|k: int| 0 <= k < done@.len() ==> entry_valid(#[trigger] done@[k]),
            cur matches Some(e) ==> entry_valid(e),
        decreases n - i,
    {
        let ghost st = run(init_state(), ls.take(i as int));
        let ghost line_v = ls[i as int];
        proof {
            assert(ls.take(i + 1) =~= ls.take(i as int).push(ls[i as int]));
            lemma_run_snoc(init_state(), ls.take(i as int), ls[i as int]);
            assert(lines.deep_view()[i as int] == lines@[i as int]@);
        }
        let line = &lines[i];
        if vec_eq(line, &kv_entry) {
            let ghost old_done = done@;
            match cur {
                Some(e) => {
                    done.push(e);
                    proof {
                        lemma_models_push(old_done, e);
                    }
                },
                None => {},
            }
            cur = Some(
                Entry {
                    start: None,
                    stop: None,
                    goal: String::new(),
                    result: String::new(),
                    notes: Vec::new(),
                },
            );
            proof {
                assert(model_opt(cur).unwrap() =~~= empty_model());
                assert(models(done@) =~= step(st, line_v).done);
            }
        } else {
            let mut e = match cur {
                Some(e) => e,
                None => {
                    proof {
                        assert(!step(st, line_v).ok);
                        lemma_fail_at(ls, i as int, st);
                    }
                    return Err(LoadError::Malformed);
                },
            };
            if vec_has_prefix(line, &kv_start) {
                let rest = vec_skip(line, 6);
                match parse_ts(&rest) {
                    Some(t) => {
                        if e.start.is_none() {
                            e.start = Some(t);
                            cur = Some(e);
                            proof {
                                assert(model_opt(cur).unwrap() =~~= step(st, line_v).cur.unwrap());
                            }
                        } else {
                            proof {
                                lemma_fail_at(ls, i as int, st);
                            }
                            return Err(LoadError::Malformed);
                        }
                    },
                    None => {
                        proof {
                            lemma_fail_at(ls, i as int, st);
                        }
                        return Err(LoadError::Malformed);
                    },
                }
            } else if vec_has_prefix(line, &kv_stop) {
                let rest = vec_skip(line, 5);
                match parse_ts(&rest) {
                    Some(t) => {
                        if e.stop.is_none() {
                            e.stop = Some(t);
                            cur = Some(e);
                            proof {
                                assert(model_opt(cur).unwrap() =~~= step(st, line_v).cur.unwrap());
                            }
                        } else {
                            proof {
                                lemma_fail_at(ls, i as int, st);
                            }
                            return Err(LoadError::Malformed);
                        }
                    },
                    None => {
                        proof {
                            lemma_fail_at(ls, i as int, st);
                        }
                        return Err(LoadError::Malformed);
                    },
                }
            } else if vec_has_prefix(line, &kv_goal) {
                let rest = vec_skip(line, 5);
                match unesc_vec(&rest) {
                    Some(t) => {
                        e.goal = crate::text::string_of_chars(&t);
                        cur = Some(e);
                        proof {
                            assert(model_opt(cur).unwrap() =~~= step(st, line_v).cur.unwrap());
                        }
                    },
                    None => {
                        proof {
                            lemma_fail_at(ls, i as int, st);
                        }
                        return Err(LoadError::Malformed);
                    },
                }
            } else if vec_has_prefix(line, &kv_result) {
                let rest = vec_skip(line, 7);
                match unesc_vec(&rest) {
                    Some(t) => {
                        e.result = crate::text::string_of_chars(&t);
                        cur = Some(e);
                        proof {
                            assert(model_opt(cur).unwrap() =~~= step(st, line_v).cur.unwrap());
                        }
                    },
                    None => {
                        proof {
                            lemma_fail_at(ls, i as int, st);
                        }
                        return Err(LoadError::Malformed);
                    },
                }
            } else if vec_has_prefix(line, &kv_note) {
                let rest = vec_skip(line, 5);
                match unesc_vec(&rest) {
                    Some(t) => {
                        let ghost old_notes = e.notes.deep_view();
                        e.notes.push(crate::text::string_of_chars(&t));
                        cur = Some(e);
                        proof {
                            assert(cur.unwrap().notes.deep_view() =~= old_notes.push(t@));
                            assert(model_opt(cur).unwrap() =~~= step(st, line_v).cur.unwrap());
                        }
                    },
                    None => {
                        proof {
                            lemma_fail_at(ls, i as int, st);
                        }
                        return Err(LoadError::Malformed);
                    },
                }
            } else {
                proof {
                    assert(!step(st, line_v).ok);
                    lemma_fail_at(ls, i as int, st);
                }
                return Err(LoadError::Malformed);
            }
        }
        i = i + 1;
    }
    proof {
        assert(ls.take(n as int) =~= ls);
    }
    let ghost ms = models(done@) + flush(model_opt(cur));
    proof {
        assert(run(init_state(), ls) == (MState {
            ok: true,
            done: models(done@),
            cur: model_opt(cur),
        }));
        assert(finish(run(init_state(), ls)) == Some(ms));
        assert(spec_load(text@) == Some(ms));
    }
    let mut log = Log::new();
    let ghost all = models(done@);
    proof {
        broadcast use vstd::seq_lib::group_to_multiset_ensures;

        assert(models(log@) =~= Seq::<EntryModel>::empty());
    }
    while done.len() > 0
        invariant
            log.wf(),
            forall|k: int| 0 <= k < done@.len() ==> entry_valid(#[trigger] done@[k]),
            models(log@).to_multiset().add(models(done@).to_multiset()) == all.to_multiset(),
        decreases done@.len(),
    {
        let ghost pre = done@;
        let e = match done.pop() {
            Some(e) => e,
            None => {
                proof {
                    assert(false);
                }
                Entry {
                    start: None,
                    stop: None,
                    goal: String::new(),
                    result: String::new(),
                    notes: Vec::new(),
                }
            },
        };
        proof {
            broadcast use vstd::seq_lib::group_to_multiset_ensures;

            assert(pre =~= pre.drop_last().push(pre.last()));
            assert(models(pre) =~= models(pre.drop_last()).push(e@));
            assert(models(pre).to_multiset() == models(pre.drop_last()).to_multiset().insert(e@));
        }
        let ghost lpre = log@;
        log.push(e);
        proof {
            let k = choose|k: int| 0 <= k <= lpre.len() && log@ == lpre.insert(k, e);
            assert(models(log@) =~= models(lpre).insert(k, e@));
            lemma_multiset_insert(models(lpre), k, e@);
            assert(models(log@).to_multiset().add(models(done@).to_multiset())
                =~= all.to_multiset());
        }
    }
    proof {
        broadcast use vstd::seq_lib::group_to_multiset_ensures;
        broadcast use vstd::multiset::group_multiset_axioms;
        broadcast use vstd::multiset::lemma_multiset_empty_len;

        assert(models(done@) =~= Seq::<EntryModel>::empty());
        assert(models(done@).to_multiset().len() == 0);
        assert(models(done@).to_multiset() =~= vstd::multiset::Multiset::<EntryModel>::empty());
        assert(models(log@).to_multiset().add(models(done@).to_multiset()) =~= models(
            log@,
        ).to_multiset());
        assert(models(log@).to_multiset() == all.to_multiset());
    }
    match cur {
        Some(e) => {
            let ghost lpre = log@;
            log.push(e);
            proof {
                broadcast use vstd::seq_lib::group_to_multiset_ensures;

                let k = choose|k: int| 0 <= k <= lpre.len() && log@ == lpre.insert(k, e);
                assert(models(log@) =~= models(lpre).insert(k, e@));
                lemma_multiset_insert(models(lpre), k, e@);
                assert(ms =~= all.push(e@));
                assert(ms.to_multiset() == all.to_multiset().insert(e@));
            }
        },
        None => {
            proof {
                assert(ms =~= all);
            }
        },
    }
    proof {
        assert(models(log@).to_multiset() == ms.to_multiset());
        assert(spec_load(text@) == Some(ms));
    }
    Ok(log)
}

/// Appending one line runs one more step.
pub proof fn lemma_run_snoc(st: MState, lines: Seq<Seq<char>>, x: Seq<char>)
    ensures
        run(st, lines.push(x)) == step(run(st, lines), x),
    decreases lines.len(),
{
    if lines.len() == 0 {
        assert(lines.push(x)[0] == x);
        assert(lines.push(x).drop_first() =~= Seq::<Seq<char>>::empty());
        assert(run(step(st, x), Seq::<Seq<char>>::empty()) == step(st, x));
        assert(run(st, lines.push(x)) == step(st, x));
        assert(run(st, lines) == st);
    } else {
        lemma_run_snoc(step(st, lines[0]), lines.drop_first(), x);
        assert(lines.push(x)[0] == lines[0]);
        assert(lines.push(x).drop_first() =~= lines.drop_first().push(x));
        assert(run(st, lines.push(x)) == run(step(st, lines[0]), lines.drop_first().push(x)));
        assert(run(st, lines) == run(step(st, lines[0]), lines.drop_first()));
    }
}

/// No character of a canonical numeral is a newline or a space.
proof fn lemma_dec_str_clean(n: int)
    ensures
        !dec_str(n).contains('\n'),
        !dec_str(n).contains(' '),
{
    lemma_dec_str_canon(n);
    if dec_str(n).contains('\n') {
        let j = choose|j: int| 0 <= j < dec_str(n).len() && dec_str(n)[j] == '\n';
        assert(dec_str(n)[j] == '-' || is_digit(dec_str(n)[j]));
        assert(false);
    }
    if dec_str(n).contains(' ') {
        let j = choose|j: int| 0 <= j < dec_str(n).len() && dec_str(n)[j] == ' ';
        assert(dec_str(n)[j] == '-' || is_digit(dec_str(n)[j]));
        assert(false);
    }
}

/// No line a record is saved as contains a newline.
proof fn lemma_entry_lines_clean(e: Entry)
    ensures
        forall|i: int|
            0 <= i < entry_lines(e).len() ==> !(#[trigger] entry_lines(e)[i]).contains('\n'),
{
    assert forall|i: int|
        0 <= i < entry_lines(e).len() implies !(#[trigger] entry_lines(e)[i]).contains('\n') by {
        let l = entry_lines(e)[i];
        if l.contains('\n') {
            let j = choose|j: int| 0 <= j < l.len() && l[j] == '\n';
            lemma_line_char(e, i, j);
            assert(false);
        }
    }
}

/// Any character of any saved line is not a newline.
proof fn lemma_line_char(e: Entry, i: int, j: int)
    requires
        0 <= i < entry_lines(e).len(),
        0 <= j < entry_lines(e)[i].len(),
    ensures
        entry_lines(e)[i][j] != '\n',
{
    let ls = entry_lines(e);
    let l = ls[i];
    if i == 0 {
        assert(l =~= kw_entry());
        if j == 0 {
            assert(l[0] == 'e');
        } else if j == 1 {
            assert(l[1] == 'n');
        } else if j == 2 {
            assert(l[2] == 't');
        } else if j == 3 {
            assert(l[3] == 'r');
        } else {
            assert(l[4] == 'y');
        }
    } else {
        lemma_nonfirst_line_clean(e, i, j);
    }
}

/// A keyword-plus-payload line contains no newline, provided the payload
/// has none.
proof fn lemma_kw_line_clean(kw: Seq<char>, payload: Seq<char>, j: int)
    requires
        forall|k: int| 0 <= k < kw.len() ==> (#[trigger] kw[k]) != '\n',
        !payload.contains('\n'),
        0 <= j < (kw + payload).len(),
    ensures
        (kw + payload)[j] != '\n',
{
    if j < kw.len() {
    } else {
        assert((kw + payload)[j] == payload[j - kw.len()]);
        if payload[j - kw.len()] == '\n' {
            assert(payload.contains('\n'));
        }
    }
}

/// A timestamp line contains no newline.
proof fn lemma_ts_line_clean(kw: Seq<char>, t: Timestamp, j: int)
    requires
        forall|k: int| 0 <= k < kw.len() ==> (#[trigger] kw[k]) != '\n',
        0 <= j < ts_line(kw, t).len(),
    ensures
        ts_line(kw, t)[j] != '\n',
{
    lemma_dec_str_clean(t.secs as int);
    lemma_dec_str_clean(t.off as int);
    let payload = dec_str(t.secs as int) + seq![' '] + dec_str(t.off as int);
    assert(ts_line(kw, t) =~= kw + payload);
    if payload.contains('\n') {
        let k = choose|k: int| 0 <= k < payload.len() && payload[k] == '\n';
        let a = dec_str(t.secs as int);
        let b = dec_str(t.off as int);
        if k < a.len() {
            assert(a.contains('\n'));
        } else if k == a.len() {
            assert(payload[k] == ' ');
        } else {
            assert(payload[k] == b[k - a.len() - 1]);
            assert(b.contains('\n'));
        }
        assert(false);
    }
    lemma_kw_line_clean(kw, payload, j);
}

proof fn lemma_kw_chars()
    ensures
        forall|k: int| 0 <= k < kw_start().len() ==> (#[trigger] kw_start()[k]) != '\n',
        forall|k: int| 0 <= k < kw_stop().len() ==> (#[trigger] kw_stop()[k]) != '\n',
        forall|k: int| 0 <= k < kw_goal().len() ==> (#[trigger] kw_goal()[k]) != '\n',
        forall|k: int| 0 <= k < kw_result().len() ==> (#[trigger] kw_result()[k]) != '\n',
        forall|k: int| 0 <= k < kw_note().len() ==> (#[trigger] kw_note()[k]) != '\n',
{
    assert forall|k: int| 0 <= k < kw_start().len() implies (#[trigger] kw_start()[k]) != '\n' by {
        if k == 0 {
        } else if k == 1 {
        } else if k == 2 {
        } else if k == 3 {
        } else if k == 4 {
        } else {
        }
    }
    assert forall|k: int| 0 <= k < kw_stop().len() implies (#[trigger] kw_stop()[k]) != '\n' by {
        if k == 0 {
        } else if k == 1 {
        } else if k == 2 {
        } else if k == 3 {
        } else {
        }
    }
    assert forall|k: int| 0 <= k < kw_goal().len() implies (#[trigger] kw_goal()[k]) != '\n' by {
        if k == 0 {
        } else if k == 1 {
        } else if k == 2 {
        } else if k == 3 {
        } else {
        }
    }
    assert forall|k: int| 0 <= k < kw_result().len() implies (#[trigger] kw_result()[k])
        != '\n' by {
        if k == 0 {
        } else if k == 1 {
        } else if k == 2 {
        } else if k == 3 {
        } else if k == 4 {
        } else if k == 5 {
        } else {
        }
    }
    assert forall|k: int| 0 <= k < kw_note().len() implies (#[trigger] kw_note()[k]) != '\n' by {
        if k == 0 {
        } else if k == 1 {
        } else if k == 2 {
        } else if k == 3 {
        } else {
        }
    }
}

/// Every line of a record after the marker line is clean of newlines.
proof fn lemma_nonfirst_line_clean(e: Entry, i: int, j: int)
    requires
        1 <= i < entry_lines(e).len(),
        0 <= j < entry_lines(e)[i].len(),
    ensures
        entry_lines(e)[i][j] != '\n',
{
    lemma_kw_chars();
    let l = entry_lines(e)[i];
    let s1: Seq<Seq<char>> = match e.start {
        Some(t) => seq![ts_line(kw_start(), t)],
        None => Seq::<Seq<char>>::empty(),
    };
    let s2: Seq<Seq<char>> = match e.stop {
        Some(t) => seq![ts_line(kw_stop(), t)],
        None => Seq::<Seq<char>>::empty(),
    };
    let s3: Seq<Seq<char>> = if e.goal@.len() == 0 {
        Seq::<Seq<char>>::empty()
    } else {
        seq![kw_goal() + esc(e.goal@)]
    };
    let s4: Seq<Seq<char>> = if e.result@.len() == 0 {
        Seq::<Seq<char>>::empty()
    } else {
        seq![kw_result() + esc(e.result@)]
    };
    let ns = note_lines(e.notes.deep_view());
    assert(entry_lines(e) == seq![kw_entry()] + s1 + s2 + s3 + s4 + ns);
    let p = i - 1;
    if p < s1.len() {
        let t = e.start.unwrap();
        assert(l == ts_line(kw_start(), t));
        lemma_ts_line_clean(kw_start(), t, j);
    } else if p < s1.len() + s2.len() {
        let t = e.stop.unwrap();
        assert(l == ts_line(kw_stop(), t));
        lemma_ts_line_clean(kw_stop(), t, j);
    } else if p < s1.len() + s2.len() + s3.len() {
        assert(l == kw_goal() + esc(e.goal@));
        lemma_esc_no_newline(e.goal@);
        lemma_kw_line_clean(kw_goal(), esc(e.goal@), j);
    } else if p < s1.len() + s2.len() + s3.len() + s4.len() {
        assert(l == kw_result() + esc(e.result@));
        lemma_esc_no_newline(e.result@);
        lemma_kw_line_clean(kw_result(), esc(e.result@), j);
    } else {
        let q = p - s1.len() - s2.len() - s3.len() - s4.len();
        assert(l == ns[q]);
        lemma_note_line_clean(e.notes.deep_view(), q, j);
    }
}

/// Every note line is clean of newlines.
proof fn lemma_note_line_clean(notes: Seq<Seq<char>>, q: int, j: int)
    requires
        0 <= q < note_lines(notes).len(),
        0 <= j < note_lines(notes)[q].len(),
    ensures
        note_lines(notes)[q][j] != '\n',
    decreases notes.len(),
{
    lemma_kw_chars();
    if q == 0 {
        assert(note_lines(notes)[0] == kw_note() + esc(notes[0]));
        lemma_esc_no_newline(notes[0]);
        lemma_kw_line_clean(kw_note(), esc(notes[0]), j);
    } else {
        assert(note_lines(notes)[q] == note_lines(notes.drop_first())[q - 1]);
        lemma_note_line_clean(notes.drop_first(), q - 1, j);
    }
}

/// Running a single line is a single step.
proof fn lemma_run_one(st: MState, l: Seq<char>)
    ensures
        run(st, seq![l]) == step(st, l),
{
    assert(seq![l][0] == l);
    assert(seq![l].drop_first() =~= Seq::<Seq<char>>::empty());
    assert(run(step(st, l), Seq::<Seq<char>>::empty()) == step(st, l));
}

/// A saved timestamp line parses back to its timestamp.
proof fn lemma_parse_ts_line(kw: Seq<char>, t: Timestamp)
    requires
        t.valid(),
    ensures
        parse_ts_parts(ts_line(kw, t).skip(kw.len() as int)) == Some(t),
{
    let a = dec_str(t.secs as int);
    let b = dec_str(t.off as int);
    let rest = ts_line(kw, t).skip(kw.len() as int);
    assert(rest =~= a + seq![' '] + b);
    lemma_dec_str_clean(t.secs as int);
    lemma_dec_str_clean(t.off as int);
    lemma_dec_str_canon(t.secs as int);
    lemma_dec_str_canon(t.off as int);
    let parts0 = seq![a, b];
    assert(parts0.drop_first() =~= seq![b]);
    assert(crate::text::join_chars(seq![b], ' ') == b);
    assert(crate::text::join_chars(parts0, ' ') == a + seq![' '] + b);
    assert forall|i: int| 0 <= i < parts0.len() implies !(#[trigger] parts0[i]).contains(' ') by {
        if i == 0 {
            assert(parts0[0] == a);
        } else {
            assert(parts0[1] == b);
        }
    }
    crate::text::lemma_split_join(parts0, ' ');
    assert(split_chars(rest, ' ') =~~= parts0);
    let parts = split_chars(rest, ' ');
    assert(parts.len() == 2);
    assert(parts[0] == a && parts[1] == b);
    assert(int_value(parts[0]) == t.secs as int);
    assert(int_value(parts[1]) == t.off as int);
    assert(parse_ts_parts(rest) == Some(Timestamp { secs: t.secs, off: t.off }));
    assert(Timestamp { secs: t.secs, off: t.off } == t);
}

/// A start line sets the open record's start time.
proof fn lemma_step_start(st: MState, t: Timestamp)
    requires
        st.ok,
        st.cur is Some,
        st.cur.unwrap().start is None,
        t.valid(),
    ensures
        step(st, ts_line(kw_start(), t)) == (MState {
            cur: Some(EntryModel { start: Some(t), ..st.cur.unwrap() }),
            ..st
        }),
{
    let l = ts_line(kw_start(), t);
    assert(l[0] == 's');
    assert(kw_entry()[0] == 'e');
    assert(l != kw_entry());
    assert(l.take(6) =~= kw_start());
    assert(crate::text::has_prefix(l, kw_start()));
    lemma_parse_ts_line(kw_start(), t);
    assert(step(st, l) =~~= (MState {
        cur: Some(EntryModel { start: Some(t), ..st.cur.unwrap() }),
        ..st
    }));
}

/// A stop line sets the open record's stop time.
proof fn lemma_step_stop(st: MState, t: Timestamp)
    requires
        st.ok,
        st.cur is Some,
        st.cur.unwrap().stop is None,
        t.valid(),
    ensures
        step(st, ts_line(kw_stop(), t)) == (MState {
            cur: Some(EntryModel { stop: Some(t), ..st.cur.unwrap() }),
            ..st
        }),
{
    let l = ts_line(kw_stop(), t);
    assert(l[0] == 's');
    assert(l[2] == 'o');
    assert(l != kw_entry());
    if crate::text::has_prefix(l, kw_start()) {
        assert(l.take(6)[2] == kw_start()[2]);
        assert(l[2] == 'a');
        assert(false);
    }
    assert(l.take(5) =~= kw_stop());
    assert(crate::text::has_prefix(l, kw_stop()));
    lemma_parse_ts_line(kw_stop(), t);
    assert(step(st, l) =~~= (MState {
        cur: Some(EntryModel { stop: Some(t), ..st.cur.unwrap() }),
        ..st
    }));
}

/// A payload line beginning with a distinct letter is dispatched to its
/// own keyword alone.
proof fn lemma_step_text(st: MState, kw: Seq<char>, text: Seq<char>)
    requires
        st.ok,
        st.cur is Some,
        kw == kw_goal() || kw == kw_result() || kw == kw_note(),
    ensures
        kw == kw_goal() ==> step(st, kw + esc(text)) == (MState {
            cur: Some(EntryModel { goal: text, ..st.cur.unwrap() }),
            ..st
        }),
        kw == kw_result() ==> step(st, kw + esc(text)) == (MState {
            cur: Some(EntryModel { result: text, ..st.cur.unwrap() }),
            ..st
        }),
        kw == kw_note() ==> step(st, kw + esc(text)) == (MState {
            cur: Some(EntryModel { notes: st.cur.unwrap().notes.push(text), ..st.cur.unwrap() }),
            ..st
        }),
{
    let l = kw + esc(text);
    lemma_unesc_esc(text);
    assert(l[0] == kw[0]);
    assert(l != kw_entry()) by {
        assert(kw[0] != 'e');
        if l == kw_entry() {
            assert(l[0] == 'e');
        }
    }
    assert(!crate::text::has_prefix(l, kw_start())) by {
        if crate::text::has_prefix(l, kw_start()) {
            assert(l.take(6)[0] == kw_start()[0]);
            assert(l[0] == 's');
        }
    }
    assert(!crate::text::has_prefix(l, kw_stop())) by {
        if crate::text::has_prefix(l, kw_stop()) {
            assert(l.take(5)[0] == kw_stop()[0]);
            assert(l[0] == 's');
        }
    }
    if kw == kw_goal() {
        assert(l.take(5) =~= kw_goal());
        assert(crate::text::has_prefix(l, kw_goal()));
        assert(l.skip(5) =~= esc(text));
        assert(step(st, l) =~~= (MState {
            cur: Some(EntryModel { goal: text, ..st.cur.unwrap() }),
            ..st
        }));
    } else if kw == kw_result() {
        assert(!crate::text::has_prefix(l, kw_goal())) by {
            if crate::text::has_prefix(l, kw_goal()) {
                assert(l.take(5)[0] == kw_goal()[0]);
                assert(l[0] == 'g');
            }
        }
        assert(l.take(7) =~= kw_result());
        assert(crate::text::has_prefix(l, kw_result()));
        assert(l.skip(7) =~= esc(text));
        assert(step(st, l) =~~= (MState {
            cur: Some(EntryModel { result: text, ..st.cur.unwrap() }),
            ..st
        }));
    } else {
        assert(!crate::text::has_prefix(l, kw_goal())) by {
            if crate::text::has_prefix(l, kw_goal()) {
                assert(l.take(5)[0] == kw_goal()[0]);
                assert(l[0] == 'g');
            }
        }
        assert(!crate::text::has_prefix(l, kw_result())) by {
            if crate::text::has_prefix(l, kw_result()) {
                assert(l.take(7)[0] == kw_result()[0]);
                assert(l[0] == 'r');
            }
        }
        assert(l.take(5) =~= kw_note());
        assert(crate::text::has_prefix(l, kw_note()));
        assert(l.skip(5) =~= esc(text));
        assert(step(st, l) =~~= (MState {
            cur: Some(EntryModel { notes: st.cur.unwrap().notes.push(text), ..st.cur.unwrap() }),
            ..st
        }));
    }
}

/// Note lines append their texts in order.
proof fn lemma_run_notes(st: MState, ns: Seq<Seq<char>>)
    requires
        st.ok,
        st.cur is Some,
    ensures
        run(st, note_lines(ns)) == (MState {
            cur: Some(EntryModel { notes: st.cur.unwrap().notes + ns, ..st.cur.unwrap() }),
            ..st
        }),
    decreases ns.len(),
{
    let m = st.cur.unwrap();
    if ns.len() == 0 {
        assert(note_lines(ns).len() == 0);
        assert(m.notes + ns =~= m.notes);
        assert(st =~~= (MState { cur: Some(EntryModel { notes: m.notes + ns, ..m }), ..st }));
    } else {
        lemma_step_text(st, kw_note(), ns[0]);
        let st1 = step(st, kw_note() + esc(ns[0]));
        lemma_run_notes(st1, ns.drop_first());
        assert(note_lines(ns)[0] == kw_note() + esc(ns[0]));
        assert(note_lines(ns).drop_first() =~= note_lines(ns.drop_first()));
        assert(run(st, note_lines(ns)) == run(st1, note_lines(ns.drop_first())));
        assert(m.notes.push(ns[0]) + ns.drop_first() =~= m.notes + ns);
        assert(run(st, note_lines(ns)) =~~= (MState {
            cur: Some(EntryModel { notes: m.notes + ns, ..m }),
            ..st
        }));
    }
}

/// Running one saved record from any healthy state completes the previous
/// record and leaves the saved one open.
#[verifier::rlimit(100)]
#[verifier::spinoff_prover]
proof fn lemma_run_block(st: MState, e: Entry)
    requires
        st.ok,
        entry_valid(e),
    ensures
        run(st, entry_lines(e)) == (MState {
            ok: true,
            done: st.done + flush(st.cur),
            cur: Some(e@),
        }),
{
    let s1: Seq<Seq<char>> = match e.start {
        Some(t) => seq![ts_line(kw_start(), t)],
        None => Seq::<Seq<char>>::empty(),
    };
    let s2: Seq<Seq<char>> = match e.stop {
        Some(t) => seq![ts_line(kw_stop(), t)],
        None => Seq::<Seq<char>>::empty(),
    };
    let s3: Seq<Seq<char>> = if e.goal@.len() == 0 {
        Seq::<Seq<char>>::empty()
    } else {
        seq![kw_goal() + esc(e.goal@)]
    };
    let s4: Seq<Seq<char>> = if e.result@.len() == 0 {
        Seq::<Seq<char>>::empty()
    } else {
        seq![kw_result() + esc(e.result@)]
    };
    let ns = note_lines(e.notes.deep_view());
    assert(entry_lines(e) == seq![kw_entry()] + s1 + s2 + s3 + s4 + ns);
    let st0 = step(st, kw_entry());
    assert(st0 == (MState { ok: true, done: st.done + flush(st.cur), cur: Some(empty_model()) }));
    lemma_run_one(st, kw_entry());
    lemma_run_concat(st, seq![kw_entry()], s1 + s2 + s3 + s4 + ns);
    assert(seq![kw_entry()] + (s1 + s2 + s3 + s4 + ns) =~= entry_lines(e));
    assert(s1 + s2 + s3 + s4 + ns =~= s1 + (s2 + s3 + s4 + ns));
    assert(s2 + s3 + s4 + ns =~= s2 + (s3 + s4 + ns));
    assert(s3 + s4 + ns =~= s3 + (s4 + ns));
    let st1 = if e.start is Some {
        step(st0, ts_line(kw_start(), e.start.unwrap()))
    } else {
        st0
    };
    match e.start {
        Some(t) => {
            lemma_step_start(st0, t);
            lemma_run_one(st0, ts_line(kw_start(), t));
            lemma_run_concat(st0, s1, s2 + s3 + s4 + ns);
        },
        None => {
            assert(s1 + (s2 + s3 + s4 + ns) =~= s2 + s3 + s4 + ns);
            lemma_run_concat(st0, s1, s2 + s3 + s4 + ns);
            assert(run(st0, s1) == st0);
        },
    }
    assert(run(st0, s1 + (s2 + s3 + s4 + ns)) == run(st1, s2 + s3 + s4 + ns));
    assert(st1.ok && st1.cur is Some && st1.done == st0.done);
    assert(st1.cur.unwrap().start == e.start);
    assert(st1.cur.unwrap().stop is None);
    assert(st1.cur.unwrap().goal =~= Seq::<char>::empty());
    assert(st1.cur.unwrap().result =~= Seq::<char>::empty());
    assert(st1.cur.unwrap().notes =~= Seq::<Seq<char>>::empty());
    let st2 = if e.stop is Some {
        step(st1, ts_line(kw_stop(), e.stop.unwrap()))
    } else {
        st1
    };
    match e.stop {
        Some(t) => {
            lemma_step_stop(st1, t);
            lemma_run_one(st1, ts_line(kw_stop(), t));
            lemma_run_concat(st1, s2, s3 + s4 + ns);
        },
        None => {
            assert(s2 + (s3 + s4 + ns) =~= s3 + s4 + ns);
            lemma_run_concat(st1, s2, s3 + s4 + ns);
            assert(run(st1, s2) == st1);
        },
    }
    assert(run(st1, s2 + (s3 + s4 + ns)) == run(st2, s3 + s4 + ns));
    assert(st2.ok && st2.cur is Some && st2.done == st0.done);
    assert(st2.cur.unwrap().start == e.start);
    assert(st2.cur.unwrap().stop == e.stop);
    let st3 = if e.goal@.len() != 0 {
        step(st2, kw_goal() + esc(e.goal@))
    } else {
        st2
    };
    if e.goal@.len() != 0 {
        lemma_step_text(st2, kw_goal(), e.goal@);
        lemma_run_one(st2, kw_goal() + esc(e.goal@));
        lemma_run_concat(st2, s3, s4 + ns);
    } else {
        assert(s3 + (s4 + ns) =~= s4 + ns);
        lemma_run_concat(st2, s3, s4 + ns);
        assert(run(st2, s3) == st2);
    }
    assert(run(st2, s3 + (s4 + ns)) == run(st3, s4 + ns));
    assert(st3.ok && st3.cur is Some && st3.done == st0.done);
    assert(st3.cur.unwrap().start == e.start);
    assert(st3.cur.unwrap().stop == e.stop);
    assert(st3.cur.unwrap().goal =~= e.goal@);
    let st4 = if e.result@.len() != 0 {
        step(st3, kw_result() + esc(e.result@))
    } else {
        st3
    };
    if e.result@.len() != 0 {
        lemma_step_text(st3, kw_result(), e.result@);
        lemma_run_one(st3, kw_result() + esc(e.result@));
        lemma_run_concat(st3, s4, ns);
    } else {
        assert(s4 + ns =~= ns);
        lemma_run_concat(st3, s4, ns);
        assert(run(st3, s4) == st3);
    }
    assert(run(st3, s4 + ns) == run(st4, ns));
    assert(st4.ok && st4.cur is Some && st4.done == st0.done);
    lemma_run_notes(st4, e.notes.deep_view());
    let fin = run(st4, ns);
    assert(fin.cur.unwrap().notes =~= e.notes.deep_view());
    assert(fin.cur.unwrap() =~~= e@);
    assert(run(st, entry_lines(e)) == fin);
    assert(fin =~~= (MState { ok: true, done: st.done + flush(st.cur), cur: Some(e@) }));
}

/// Running a saved collection from a healthy state yields its records in
/// order, the last still open.
proof fn lemma_run_log(st: MState, es: Seq<Entry>)
    requires
        st.ok,
        es.len() >= 1,
        forall|k: int| 0 <= k < es.len() ==> entry_valid(#[trigger] es[k]),
    ensures
        run(st, log_lines(es)) == (MState {
            ok: true,
            done: st.done + flush(st.cur) + models(es).drop_last(),
            cur: Some(es.last()@),
        }),
    decreases es.len(),
{
    lemma_run_block(st, es[0]);
    let st1 = run(st, entry_lines(es[0]));
    if es.len() == 1 {
        assert(log_lines(es.drop_first()).len() == 0);
        assert(entry_lines(es[0]) + log_lines(es.drop_first()) =~= entry_lines(es[0]));
        assert(log_lines(es) == entry_lines(es[0]));
        assert(models(es).drop_last() =~= Seq::<EntryModel>::empty());
        assert(st.done + flush(st.cur) + models(es).drop_last() =~= st.done + flush(st.cur));
        assert(run(st, log_lines(es)) =~~= (MState {
            ok: true,
            done: st.done + flush(st.cur) + models(es).drop_last(),
            cur: Some(es.last()@),
        }));
    } else {
        lemma_run_concat(st, entry_lines(es[0]), log_lines(es.drop_first()));
        assert(entry_lines(es[0]) + log_lines(es.drop_first()) =~= log_lines(es));
        assert(forall|k: int|
            0 <= k < es.drop_first().len() ==> entry_valid(#[trigger] es.drop_first()[k]));
        lemma_run_log(st1, es.drop_first());
        assert(es.drop_first().last() == es.last());
        assert(st1.done + flush(st1.cur) + models(es.drop_first()).drop_last() =~= st.done + flush(
            st.cur,
        ) + models(es).drop_last());
        assert(run(st, log_lines(es)) =~~= (MState {
            ok: true,
            done: st.done + flush(st.cur) + models(es).drop_last(),
            cur: Some(es.last()@),
        }));
    }
}

/// Every saved line is clean of newlines.
proof fn lemma_log_lines_clean(es: Seq<Entry>)
    ensures
        forall|i: int|
            0 <= i < log_lines(es).len() ==> !(#[trigger] log_lines(es)[i]).contains('\n'),
    decreases es.len(),
{
    if es.len() > 0 {
        lemma_entry_lines_clean(es[0]);
        lemma_log_lines_clean(es.drop_first());
        assert forall|i: int|
            0 <= i < log_lines(es).len() implies !(#[trigger] log_lines(es)[i]).contains(
            '\n',
        ) by {
            if i < entry_lines(es[0]).len() {
                assert(log_lines(es)[i] == entry_lines(es[0])[i]);
            } else {
                assert(log_lines(es)[i] == log_lines(es.drop_first())[i - entry_lines(
                    es[0],
                ).len()]);
            }
        }
    }
}

/// Persistence round-trip: saving any collection of in-range entries and
/// loading the text back yields exactly the same records, in saved order.
pub proof fn lemma_save_load_roundtrip(es: Seq<Entry>)
    requires
        forall|k: int| 0 <= k < es.len() ==> entry_valid(#[trigger] es[k]),
    ensures
        spec_load(spec_save(es)) == Some(models(es)),
{
    if es.len() == 0 {
        assert(models(es) =~= Seq::<EntryModel>::empty());
        assert(spec_load(spec_save(es)) == Some(Seq::<EntryModel>::empty()));
    } else {
        let lines = log_lines(es);
        assert(lines.len() >= 1);
        assert(lines[0] == kw_entry());
        lemma_log_lines_clean(es);
        crate::text::lemma_split_join(lines, '\n');
        let text = crate::text::join_chars(lines, '\n');
        assert(spec_save(es) == text);
        assert(text.len() >= lines[0].len()) by {
            if lines.len() == 1 {
                assert(text == lines[0]);
            } else {
                assert(text == lines[0] + seq!['\n'] + crate::text::join_chars(
                    lines.drop_first(),
                    '\n',
                ));
            }
        }
        assert(text.len() != 0);
        assert(split_chars(text, '\n') =~~= lines);
        lemma_run_log(init_state(), es);
        let fin = run(init_state(), lines);
        assert(fin.done =~= models(es).drop_last());
        assert(finish(fin) == Some(models(es).drop_last() + seq![es.last()@]));
        assert(models(es).drop_last() + seq![es.last()@] =~= models(es));
        assert(spec_load(text) == Some(models(es)));
    }
}

} // verus!
