//! Rendering an entry as a block of labeled lines: labels padded to a
//! uniform column, multi-line values continued under the value column.
use crate::calendar::{format_timestamp, local_time_text};
use crate::durfmt::{format_dur, spec_format_dur};
use crate::entry::{entry_valid, Entry, EntryModel, Timestamp};
use crate::text::{push_char, split_chars, split_vec, str_chars};
use vstd::prelude::*;

verus! {

/// `n` spaces (none for a non-positive count).
pub open spec fn spaces(n: int) -> Seq<char> {
    if n <= 0 {
        Seq::<char>::empty()
    } else {
        Seq::new(n as nat, |i: int| ' ')
    }
}

/// A label padded with spaces to the column width.
pub open spec fn pad_to(title: Seq<char>, w: int) -> Seq<char> {
    title + spaces(w - title.len())
}

/// The lines of a text value: split at newlines, with one trailing newline
/// not opening an extra blank line, and no lines at all for empty text.
pub open spec fn text_lines(s: Seq<char>) -> Seq<Seq<char>> {
    if s.len() == 0 {
        Seq::<Seq<char>>::empty()
    } else if s.last() == '\n' {
        split_chars(s.drop_last(), '\n')
    } else {
        split_chars(s, '\n')
    }
}

/// A labeled multi-line value: the label padded on the first line, later
/// lines indented to the value column; a label alone when the text is
/// empty.
pub open spec fn spec_fmt_str_title_pad(text: Seq<char>, title: Seq<char>, pad: int) -> Seq<char> {
    let lines = text_lines(text);
    if lines.len() == 0 {
        pad_to(title, pad)
    } else {
        pad_to(title, pad) + lines[0] + rest_rows(lines.drop_first(), pad)
    }
}

/// Continuation rows: each on its own line, indented by the column width.
pub open spec fn rest_rows(lines: Seq<Seq<char>>, pad: int) -> Seq<char>
    decreases lines.len(),
{
    if lines.len() == 0 {
        Seq::<char>::empty()
    } else {
        seq!['\n'] + spaces(pad) + lines[0] + rest_rows(lines.drop_first(), pad)
    }
}

/// A labeled optional value: the label padded, then the value or `--`.
pub open spec fn spec_fmt_option_title_pad(text: Option<Seq<char>>, title: Seq<char>, pad: int) -> Seq<char> {
    match text {
        Some(v) => pad_to(title, pad) + v,
        None => pad_to(title, pad) + seq!['-', '-'],
    }
}

/// Appends `n` spaces.
fn push_spaces(out: &mut String, n: usize)
    ensures
        final(out)@ == old(out)@ + spaces(n as int),
{
    let mut i: usize = 0;
    while i < n
        invariant
            i <= n,
            out@ == old(out)@ + spaces(i as int),
        decreases n - i,
    {
        push_char(out, ' ');
        proof {
            assert(spaces(i + 1) =~= spaces(i as int) + seq![' ']);
        }
        i = i + 1;
    }
}

/// Appends a label padded to the column width.
fn push_pad_to(out: &mut String, title: &str, pad: usize)
    ensures
        final(out)@ == old(out)@ + pad_to(title@, pad as int),
{
    out.append(title);
    let n = title.unicode_len();
    if n < pad {
        push_spaces(out, pad - n);
    } else {
        proof {
            assert(spaces(pad - title@.len()) =~= Seq::<char>::empty());
        }
    }
}

/// Renders a labeled optional value, `--` standing for an absent one.
pub fn fmt_option_title_pad(text: &Option<String>, title: &str, pad: usize) -> (r: String)
    ensures
        r@ == spec_fmt_option_title_pad(
            match text {
                Some(v) => Some(v@),
                None => None,
            },
            title@,
            pad as int,
        ),
{
    let mut out = String::new();
    push_pad_to(&mut out, title, pad);
    match text {
        Some(v) => {
            out.append(v.as_str());
        },
        None => {
            out.append("--");
            proof {
                reveal_strlit("--");
                assert("--"@ =~= seq!['-', '-']);
            }
        },
    }
    out
}

/// Renders a labeled multi-line value, continuation lines indented under
/// the value column.
pub fn fmt_str_title_pad(text: &str, title: &str, pad: usize) -> (r: String)
    ensures
        r@ == spec_fmt_str_title_pad(text@, title@, pad as int),
{
    let mut out = String::new();
    push_pad_to(&mut out, title, pad);
    let mut chars = str_chars(text);
    if chars.len() == 0 {
        proof {
            assert(text_lines(text@).len() == 0);
        }
        return out;
    }
    let ghost full = chars@;
    if chars[chars.len() - 1] == '\n' {
        chars.pop();
        proof {
            assert(chars@ =~= full.drop_last());
        }
    }
    let ghost lines = text_lines(text@);
    let parts = split_vec(&chars, '\n');
    proof {
        assert(parts.deep_view() == split_chars(chars@, '\n'));
        assert(parts.deep_view() == lines);
        crate::text::lemma_split_nonempty(chars@, '\n');
    }
    let first = &parts[0];
    let fs = crate::text::string_of_chars(first);
    out.append(fs.as_str());
    let n = parts.len();
    let mut i: usize = 1;
    proof {
        assert(lines.drop_first().skip(0) =~= lines.drop_first());
        assert(lines.skip(1) =~= lines.drop_first());
    }
    while i < n
        invariant
            n == parts@.len(),
            parts.deep_view() == lines,
            1 <= i <= n,
            out@ == pad_to(title@, pad as int) + lines[0] + built_rows(lines, i as int, pad as int),
            pad <= usize::MAX,
        decreases n - i,
    {
        push_char(&mut out, '\n');
        push_spaces(&mut out, pad);
        let ps = crate::text::string_of_chars(&parts[i]);
        out.append(ps.as_str());
        proof {
            assert(parts.deep_view()[i as int] == parts@[i as int]@);
            lemma_built_rows_step(lines, i as int, pad as int);
        }
        i = i + 1;
    }
    proof {
        lemma_built_rows_all(lines, pad as int);
    }
    out
}

/// The continuation rows for lines `1 .. k`.
pub open spec fn built_rows(lines: Seq<Seq<char>>, k: int, pad: int) -> Seq<char>
    decreases k,
{
    if k <= 1 {
        Seq::<char>::empty()
    } else {
        built_rows(lines, k - 1, pad) + seq!['\n'] + spaces(pad) + lines[k - 1]
    }
}

proof fn lemma_built_rows_step(lines: Seq<Seq<char>>, i: int, pad: int)
    requires
        1 <= i,
    ensures
        built_rows(lines, i + 1, pad) == built_rows(lines, i, pad) + seq!['\n'] + spaces(pad)
            + lines[i],
{
}

/// All continuation rows built stepwise equal the recursive definition.
proof fn lemma_built_rows_all(lines: Seq<Seq<char>>, pad: int)
    ensures
        forall|k: int|
            1 <= k <= lines.len() ==> built_rows(lines, k, pad) =~= rows_prefix(lines, k, pad),
        lines.len() >= 1 ==> built_rows(lines, lines.len() as int, pad) =~= rest_rows(
            lines.drop_first(),
            pad,
        ),
{
    assert forall|k: int|
        1 <= k <= lines.len() implies built_rows(lines, k, pad) =~= rows_prefix(lines, k, pad) by {
        lemma_rows_eq(lines, k, pad);
    }
    if lines.len() >= 1 {
        lemma_rows_eq(lines, lines.len() as int, pad);
        lemma_rows_prefix_full(lines, pad);
    }
}

/// The continuation rows for the first `k` lines, defined from the front.
pub open spec fn rows_prefix(lines: Seq<Seq<char>>, k: int, pad: int) -> Seq<char> {
    rest_rows(lines.subrange(1, k), pad)
}

proof fn lemma_rows_eq(lines: Seq<Seq<char>>, k: int, pad: int)
    requires
        1 <= k <= lines.len(),
    ensures
        built_rows(lines, k, pad) =~= rest_rows(lines.subrange(1, k), pad),
    decreases k,
{
    if k == 1 {
        assert(lines.subrange(1, 1) =~= Seq::<Seq<char>>::empty());
    } else {
        lemma_rows_eq(lines, k - 1, pad);
        lemma_rest_rows_append(lines.subrange(1, k - 1), lines[k - 1], pad);
        assert(lines.subrange(1, k) =~= lines.subrange(1, k - 1).push(lines[k - 1]));
    }
}

proof fn lemma_rest_rows_append(ls: Seq<Seq<char>>, l: Seq<char>, pad: int)
    ensures
        rest_rows(ls.push(l), pad) == rest_rows(ls, pad) + seq!['\n'] + spaces(pad) + l,
    decreases ls.len(),
{
    if ls.len() == 0 {
        assert(ls.push(l)[0] == l);
        assert(ls.push(l).drop_first() =~= Seq::<Seq<char>>::empty());
        assert(rest_rows(Seq::<Seq<char>>::empty(), pad) == Seq::<char>::empty());
        assert(rest_rows(ls.push(l), pad) =~= rest_rows(ls, pad) + seq!['\n'] + spaces(pad) + l);
    } else {
        lemma_rest_rows_append(ls.drop_first(), l, pad);
        assert(ls.push(l)[0] == ls[0]);
        assert(ls.push(l).drop_first() =~= ls.drop_first().push(l));
        assert(rest_rows(ls.push(l), pad) == seq!['\n'] + spaces(pad) + ls[0] + rest_rows(
            ls.drop_first().push(l),
            pad,
        ));
        assert(rest_rows(ls.push(l), pad) =~= rest_rows(ls, pad) + seq!['\n'] + spaces(pad) + l);
    }
}

proof fn lemma_rows_prefix_full(lines: Seq<Seq<char>>, pad: int)
    requires
        lines.len() >= 1,
    ensures
        lines.subrange(1, lines.len() as int) =~= lines.drop_first(),
{
}

pub open spec fn label_start() -> Seq<char> {
    seq!['S', 't', 'a', 'r', 't', ' ', 'T', 'i', 'm', 'e', ':']
}

pub open spec fn label_stop() -> Seq<char> {
    seq!['S', 't', 'o', 'p', ' ', 'T', 'i', 'm', 'e', ':']
}

pub open spec fn label_duration() -> Seq<char> {
    seq!['D', 'u', 'r', 'a', 't', 'i', 'o', 'n', ':']
}

pub open spec fn label_goal() -> Seq<char> {
    seq!['G', 'o', 'a', 'l', ':']
}

pub open spec fn label_result() -> Seq<char> {
    seq!['R', 'e', 's', 'u', 'l', 't', ':']
}

pub open spec fn label_note() -> Seq<char> {
    seq!['N', 'o', 't', 'e', ':']
}

/// A timestamp's display text, where present.
pub open spec fn opt_ts_text(t: Option<Timestamp>) -> Option<Seq<char>> {
    match t {
        Some(ts) => Some(local_time_text(ts.secs as int, ts.off as int)),
        None => None,
    }
}

/// The duration row's text: defined only when both ends are set.
pub open spec fn dur_text(m: EntryModel) -> Option<Seq<char>> {
    match (m.start, m.stop) {
        (Some(a), Some(b)) => Some(spec_format_dur(b.secs - a.secs)),
        _ => None,
    }
}

/// One `Note:` block per note, each opening on a fresh line.
pub open spec fn notes_rows(ns: Seq<Seq<char>>) -> Seq<char>
    decreases ns.len(),
{
    if ns.len() == 0 {
        Seq::<char>::empty()
    } else {
        seq!['\n'] + spec_fmt_str_title_pad(ns[0], label_note(), 12) + notes_rows(ns.drop_first())
    }
}

proof fn lemma_notes_rows_append(ns: Seq<Seq<char>>, n: Seq<char>)
    ensures
        notes_rows(ns.push(n)) == notes_rows(ns) + (seq!['\n'] + spec_fmt_str_title_pad(
            n,
            label_note(),
            12,
        )),
    decreases ns.len(),
{
    if ns.len() == 0 {
        assert(ns.push(n)[0] == n);
        assert(ns.push(n).drop_first() =~= Seq::<Seq<char>>::empty());
        assert(notes_rows(Seq::<Seq<char>>::empty()) == Seq::<char>::empty());
        assert(notes_rows(ns.push(n)) =~= notes_rows(ns) + (seq!['\n'] + spec_fmt_str_title_pad(
            n,
            label_note(),
            12,
        )));
    } else {
        lemma_notes_rows_append(ns.drop_first(), n);
        assert(ns.push(n)[0] == ns[0]);
        assert(ns.push(n).drop_first() =~= ns.drop_first().push(n));
        assert(notes_rows(ns.push(n)) == seq!['\n'] + spec_fmt_str_title_pad(
            ns[0],
            label_note(),
            12,
        ) + notes_rows(ns.drop_first().push(n)));
        assert(notes_rows(ns.push(n)) =~= notes_rows(ns) + (seq!['\n'] + spec_fmt_str_title_pad(
            n,
            label_note(),
            12,
        )));
    }
}

/// The whole rendered block: the five fixed rows in order, then one block
/// per note, labels padded to one uniform column, no trailing line break.
pub open spec fn spec_render_entry(m: EntryModel) -> Seq<char> {
    spec_fmt_option_title_pad(opt_ts_text(m.start), label_start(), 12) + seq!['\n']
        + spec_fmt_option_title_pad(opt_ts_text(m.stop), label_stop(), 12) + seq!['\n']
        + spec_fmt_option_title_pad(dur_text(m), label_duration(), 12) + seq!['\n']
        + spec_fmt_str_title_pad(m.goal, label_goal(), 12) + seq!['\n'] + spec_fmt_str_title_pad(
        m.result,
        label_result(),
        12,
    ) + notes_rows(m.notes)
}

/// Renders an entry for display: start, stop, duration, goal, result and
/// every note, labels aligned, `--` for an absent time or duration.
pub fn render_entry(e: &Entry) -> (r: String)
    requires
        entry_valid(*e),
    ensures
        r@ == spec_render_entry(e@),
{
    proof {
        reveal_strlit("Start Time:");
        reveal_strlit("Stop Time:");
        reveal_strlit("Duration:");
        reveal_strlit("Goal:");
        reveal_strlit("Result:");
        assert("Start Time:"@ =~= label_start());
        assert("Stop Time:"@ =~= label_stop());
        assert("Duration:"@ =~= label_duration());
        assert("Goal:"@ =~= label_goal());
        assert("Result:"@ =~= label_result());
    }
    let start_txt: Option<String> = match e.start {
        Some(t) => Some(format_timestamp(t.secs, t.off)),
        None => None,
    };
    let stop_txt: Option<String> = match e.stop {
        Some(t) => Some(format_timestamp(t.secs, t.off)),
        None => None,
    };
    let dur_txt: Option<String> = match (e.start, e.stop) {
        (Some(a), Some(b)) => Some(format_dur(b.secs - a.secs)),
        _ => None,
    };
    let mut out = fmt_option_title_pad(&start_txt, "Start Time:", 12);
    push_char(&mut out, '\n');
    let row2 = fmt_option_title_pad(&stop_txt, "Stop Time:", 12);
    out.append(row2.as_str());
    push_char(&mut out, '\n');
    let row3 = fmt_option_title_pad(&dur_txt, "Duration:", 12);
    out.append(row3.as_str());
    push_char(&mut out, '\n');
    let row4 = fmt_str_title_pad(e.goal.as_str(), "Goal:", 12);
    out.append(row4.as_str());
    push_char(&mut out, '\n');
    let row5 = fmt_str_title_pad(e.result.as_str(), "Result:", 12);
    out.append(row5.as_str());
    let ghost head = out@;
    let nn = e.notes.len();
    let mut j: usize = 0;
    proof {
        assert(notes_rows(e.notes.deep_view().take(0)) == Seq::<char>::empty());
        assert(out@ =~= head + notes_rows(e.notes.deep_view().take(0)));
    }
    while j < nn
        invariant
            nn == e.notes@.len(),
            j <= nn,
            out@ == head + notes_rows(e.notes.deep_view().take(j as int)),
        decreases nn - j,
    {
        proof {
            reveal_strlit("Note:");
            assert("Note:"@ =~= label_note());
        }
        push_char(&mut out, '\n');
        let row = fmt_str_title_pad(e.notes[j].as_str(), "Note:", 12);
        out.append(row.as_str());
        proof {
            let ns = e.notes.deep_view();
            assert(ns[j as int] == e.notes@[j as int]@);
            assert(ns.take(j + 1) =~= ns.take(j as int).push(ns[j as int]));
            lemma_notes_rows_append(ns.take(j as int), ns[j as int]);
            assert(out@ =~= head + notes_rows(ns.take(j + 1)));
        }
        j = j + 1;
    }
    proof {
        assert(e.notes.deep_view().take(nn as int) =~= e.notes.deep_view());
        assert(out@ =~= spec_render_entry(e@));
    }
    out
}

/// Neither side of a concatenation holds a newline, so nor does the whole.
proof fn lemma_concat_no_nl(a: Seq<char>, b: Seq<char>)
    requires
        !a.contains('\n'),
        !b.contains('\n'),
    ensures
        !(a + b).contains('\n'),
{
    if (a + b).contains('\n') {
        let j = choose|j: int| 0 <= j < (a + b).len() && (a + b)[j] == '\n';
        if j < a.len() {
            assert(a[j] == '\n');
        } else {
            assert(b[j - a.len()] == '\n');
        }
        assert(false);
    }
}

proof fn lemma_spaces_no_nl(n: int)
    ensures
        !spaces(n).contains('\n'),
{
    if spaces(n).contains('\n') {
        let j = choose|j: int| 0 <= j < spaces(n).len() && spaces(n)[j] == '\n';
        assert(spaces(n)[j] == ' ');
        assert(false);
    }
}

/// A label padded to the column holds no newline if the label holds none.
proof fn lemma_pad_no_nl(title: Seq<char>, pad: int)
    requires
        !title.contains('\n'),
    ensures
        !pad_to(title, pad).contains('\n'),
{
    lemma_spaces_no_nl(pad - title.len());
    lemma_concat_no_nl(title, spaces(pad - title.len()));
}

/// An optional-value row is one line when its value is one line.
proof fn lemma_opt_row_no_nl(v: Option<Seq<char>>, title: Seq<char>, pad: int)
    requires
        !title.contains('\n'),
        v matches Some(t) ==> !t.contains('\n'),
    ensures
        !spec_fmt_option_title_pad(v, title, pad).contains('\n'),
{
    lemma_pad_no_nl(title, pad);
    match v {
        Some(t) => {
            lemma_concat_no_nl(pad_to(title, pad), t);
        },
        None => {
            assert(!seq!['-', '-'].contains('\n')) by {
                if seq!['-', '-'].contains('\n') {
                    let j = choose|j: int| 0 <= j < 2 && seq!['-', '-'][j] == '\n';
                    if j == 0 {
                    } else {
                    }
                }
            }
            lemma_concat_no_nl(pad_to(title, pad), seq!['-', '-']);
        },
    }
}

/// A text row is one line when its text is one line.
proof fn lemma_str_row_no_nl(text: Seq<char>, title: Seq<char>, pad: int)
    requires
        !title.contains('\n'),
        !text.contains('\n'),
    ensures
        !spec_fmt_str_title_pad(text, title, pad).contains('\n'),
{
    lemma_pad_no_nl(title, pad);
    if text.len() == 0 {
    } else {
        assert(text.last() != '\n');
        crate::text::lemma_split_whole(text, '\n');
        let lines = text_lines(text);
        assert(lines =~= seq![text]);
        assert(lines.drop_first() =~= Seq::<Seq<char>>::empty());
        assert(rest_rows(lines.drop_first(), pad) == Seq::<char>::empty());
        lemma_concat_no_nl(pad_to(title, pad), text);
        assert(spec_fmt_str_title_pad(text, title, pad) =~= pad_to(title, pad) + text);
    }
}

/// The digits of a number hold no newline.
proof fn lemma_dec_digits_no_nl(n: nat)
    ensures
        !crate::durfmt::dec_digits(n).contains('\n'),
{
    crate::num::lemma_dec_digits_canon(n);
    let ds = crate::durfmt::dec_digits(n);
    if ds.contains('\n') {
        let j = choose|j: int| 0 <= j < ds.len() && ds[j] == '\n';
        assert(crate::num::is_digit(ds[j]));
        assert(false);
    }
}

/// One unit token of a formatted span holds no newline.
proof fn lemma_unit_no_nl(v: nat, neg: bool, unit: char)
    requires
        unit != '\n',
    ensures
        !crate::durfmt::unit_token(v, neg, unit).contains('\n'),
{
    lemma_dec_digits_no_nl(v);
    if v != 0 {
        assert(!seq!['-'].contains('\n')) by {
            if seq!['-'].contains('\n') {
                let j = choose|j: int| 0 <= j < 1 && seq!['-'][j] == '\n';
            }
        }
        assert(!seq![unit].contains('\n')) by {
            if seq![unit].contains('\n') {
                let j = choose|j: int| 0 <= j < 1 && seq![unit][j] == '\n';
            }
        }
        if neg {
            lemma_concat_no_nl(seq!['-'], crate::durfmt::dec_digits(v));
            lemma_concat_no_nl(seq!['-'] + crate::durfmt::dec_digits(v), seq![unit]);
        } else {
            lemma_concat_no_nl(crate::durfmt::dec_digits(v), seq![unit]);
        }
    }
}

/// A formatted span is a single line.
proof fn lemma_format_dur_no_nl(secs: int)
    ensures
        !spec_format_dur(secs).contains('\n'),
{
    let neg = secs < 0;
    let mag = crate::durfmt::abs_secs(secs);
    let t1 = crate::durfmt::unit_token(mag / 86400, neg, 'd');
    let t2 = crate::durfmt::unit_token((mag % 86400) / 3600, neg, 'h');
    let t3 = crate::durfmt::unit_token(((mag % 86400) % 3600) / 60, neg, 'm');
    let t4 = crate::durfmt::unit_token(((mag % 86400) % 3600) % 60, neg, 's');
    lemma_unit_no_nl(mag / 86400, neg, 'd');
    lemma_unit_no_nl((mag % 86400) / 3600, neg, 'h');
    lemma_unit_no_nl(((mag % 86400) % 3600) / 60, neg, 'm');
    lemma_unit_no_nl(((mag % 86400) % 3600) % 60, neg, 's');
    lemma_concat_no_nl(t1, t2);
    lemma_concat_no_nl(t1 + t2, t3);
    lemma_concat_no_nl(t1 + t2 + t3, t4);
    assert(spec_format_dur(secs) == t1 + t2 + t3 + t4);
}

proof fn lemma_labels_no_nl()
    ensures
        !label_start().contains('\n'),
        !label_stop().contains('\n'),
        !label_duration().contains('\n'),
        !label_goal().contains('\n'),
        !label_result().contains('\n'),
        !label_note().contains('\n'),
{
    assert forall|j: int| 0 <= j < label_start().len() implies label_start()[j] != '\n' by {
        if j < 6 {
            if j == 0 {
            } else if j == 1 {
            } else if j == 2 {
            } else if j == 3 {
            } else if j == 4 {
            } else {
            }
        } else {
            if j == 6 {
            } else if j == 7 {
            } else if j == 8 {
            } else if j == 9 {
            } else {
            }
        }
    }
    assert forall|j: int| 0 <= j < label_stop().len() implies label_stop()[j] != '\n' by {
        if j < 5 {
            if j == 0 {
            } else if j == 1 {
            } else if j == 2 {
            } else if j == 3 {
            } else {
            }
        } else {
            if j == 5 {
            } else if j == 6 {
            } else if j == 7 {
            } else if j == 8 {
            } else {
            }
        }
    }
    assert forall|j: int| 0 <= j < label_duration().len() implies label_duration()[j] != '\n' by {
        if j < 5 {
            if j == 0 {
            } else if j == 1 {
            } else if j == 2 {
            } else if j == 3 {
            } else {
            }
        } else {
            if j == 5 {
            } else if j == 6 {
            } else if j == 7 {
            } else {
            }
        }
    }
    assert forall|j: int| 0 <= j < label_goal().len() implies label_goal()[j] != '\n' by {
        if j == 0 {
        } else if j == 1 {
        } else if j == 2 {
        } else if j == 3 {
        } else {
        }
    }
    assert forall|j: int| 0 <= j < label_result().len() implies label_result()[j] != '\n' by {
        if j < 4 {
            if j == 0 {
            } else if j == 1 {
            } else if j == 2 {
            } else {
            }
        } else {
            if j == 4 {
            } else if j == 5 {
            } else {
            }
        }
    }
    assert forall|j: int| 0 <= j < label_note().len() implies label_note()[j] != '\n' by {
        if j == 0 {
        } else if j == 1 {
        } else if j == 2 {
        } else if j == 3 {
        } else {
        }
    }
    if label_start().contains('\n') {
        let j = choose|j: int| 0 <= j < label_start().len() && label_start()[j] == '\n';
        assert(false);
    }
    if label_stop().contains('\n') {
        let j = choose|j: int| 0 <= j < label_stop().len() && label_stop()[j] == '\n';
        assert(false);
    }
    if label_duration().contains('\n') {
        let j = choose|j: int| 0 <= j < label_duration().len() && label_duration()[j] == '\n';
        assert(false);
    }
    if label_goal().contains('\n') {
        let j = choose|j: int| 0 <= j < label_goal().len() && label_goal()[j] == '\n';
        assert(false);
    }
    if label_result().contains('\n') {
        let j = choose|j: int| 0 <= j < label_result().len() && label_result()[j] == '\n';
        assert(false);
    }
    if label_note().contains('\n') {
        let j = choose|j: int| 0 <= j < label_note().len() && label_note()[j] == '\n';
        assert(false);
    }
}

/// The five fixed rows and one row per note, in display order.
pub open spec fn render_rows(m: EntryModel) -> Seq<Seq<char>> {
    seq![
        spec_fmt_option_title_pad(opt_ts_text(m.start), label_start(), 12),
        spec_fmt_option_title_pad(opt_ts_text(m.stop), label_stop(), 12),
        spec_fmt_option_title_pad(dur_text(m), label_duration(), 12),
        spec_fmt_str_title_pad(m.goal, label_goal(), 12),
        spec_fmt_str_title_pad(m.result, label_result(), 12),
    ] + Seq::new(m.notes.len(), |i: int| spec_fmt_str_title_pad(m.notes[i], label_note(), 12))
}

/// The note blocks are a leading line break and the joined note rows.
proof fn lemma_notes_rows_join(ns: Seq<Seq<char>>)
    ensures
        ns.len() == 0 ==> notes_rows(ns) == Seq::<char>::empty(),
        ns.len() > 0 ==> notes_rows(ns) == seq!['\n'] + crate::text::join_chars(
            Seq::new(ns.len(), |i: int| spec_fmt_str_title_pad(ns[i], label_note(), 12)),
            '\n',
        ),
    decreases ns.len(),
{
    let rows = Seq::new(ns.len(), |i: int| spec_fmt_str_title_pad(ns[i], label_note(), 12));
    if ns.len() > 0 {
        lemma_notes_rows_join(ns.drop_first());
        let rest_rows_seq = Seq::new(
            ns.drop_first().len(),
            |i: int| spec_fmt_str_title_pad(ns.drop_first()[i], label_note(), 12),
        );
        assert(rows[0] == spec_fmt_str_title_pad(ns[0], label_note(), 12));
        assert(rows.drop_first() =~= rest_rows_seq);
        if ns.len() == 1 {
            assert(rows.len() == 1);
            assert(crate::text::join_chars(rows, '\n') == rows[0]);
            assert(notes_rows(ns.drop_first()) == Seq::<char>::empty());
            assert(notes_rows(ns) =~= seq!['\n'] + crate::text::join_chars(rows, '\n'));
        } else {
            assert(crate::text::join_chars(rows, '\n') == rows[0] + seq!['\n']
                + crate::text::join_chars(rest_rows_seq, '\n'));
            assert(notes_rows(ns) == seq!['\n'] + rows[0] + notes_rows(ns.drop_first()));
            assert(notes_rows(ns) =~= seq!['\n'] + crate::text::join_chars(rows, '\n'));
        }
    }
}

/// Re-associating the five rows and a tail changes nothing.
proof fn lemma_flatten_rows(
    a: Seq<char>,
    b: Seq<char>,
    c: Seq<char>,
    d: Seq<char>,
    e: Seq<char>,
    t: Seq<char>,
)
    ensures
        a + seq!['\n'] + b + seq!['\n'] + c + seq!['\n'] + d + seq!['\n'] + e + t == a + seq![
            '\n',
        ] + (b + seq!['\n'] + (c + seq!['\n'] + (d + seq!['\n'] + (e + t)))),
{
    assert(a + seq!['\n'] + b + seq!['\n'] + c + seq!['\n'] + d + seq!['\n'] + e + t =~= a
        + seq!['\n'] + (b + seq!['\n'] + (c + seq!['\n'] + (d + seq!['\n'] + (e + t)))));
}

/// The rendered block is its rows joined with single line breaks.
#[verifier::spinoff_prover]
pub proof fn lemma_render_join(m: EntryModel)
    ensures
        spec_render_entry(m) == crate::text::join_chars(render_rows(m), '\n'),
{
    let rows = render_rows(m);
    let r1 = rows[0];
    let r2 = rows[1];
    let r3 = rows[2];
    let r4 = rows[3];
    let r5 = rows[4];
    let nr = Seq::new(m.notes.len(), |i: int| spec_fmt_str_title_pad(m.notes[i], label_note(), 12));
    assert(rows =~= seq![r1, r2, r3, r4, r5] + nr);
    assert(rows.drop_first() =~= seq![r2, r3, r4, r5] + nr);
    assert((seq![r2, r3, r4, r5] + nr).drop_first() =~= seq![r3, r4, r5] + nr);
    assert((seq![r3, r4, r5] + nr).drop_first() =~= seq![r4, r5] + nr);
    assert((seq![r4, r5] + nr).drop_first() =~= seq![r5] + nr);
    assert((seq![r5] + nr).drop_first() =~= nr);
    let j = crate::text::join_chars(rows, '\n');
    assert(j == r1 + seq!['\n'] + crate::text::join_chars(seq![r2, r3, r4, r5] + nr, '\n'));
    assert(crate::text::join_chars(seq![r2, r3, r4, r5] + nr, '\n') == r2 + seq!['\n']
        + crate::text::join_chars(seq![r3, r4, r5] + nr, '\n'));
    assert(crate::text::join_chars(seq![r3, r4, r5] + nr, '\n') == r3 + seq!['\n']
        + crate::text::join_chars(seq![r4, r5] + nr, '\n'));
    assert(crate::text::join_chars(seq![r4, r5] + nr, '\n') == r4 + seq!['\n']
        + crate::text::join_chars(seq![r5] + nr, '\n'));
    lemma_notes_rows_join(m.notes);
    let tail = notes_rows(m.notes);
    if m.notes.len() == 0 {
        assert(seq![r5] + nr =~= seq![r5]);
        assert(crate::text::join_chars(seq![r5] + nr, '\n') == r5);
        assert(r5 + tail =~= r5);
    } else {
        assert((seq![r5] + nr).len() >= 2);
        assert(crate::text::join_chars(seq![r5] + nr, '\n') == r5 + seq!['\n']
            + crate::text::join_chars(nr, '\n'));
        assert(r5 + seq!['\n'] + crate::text::join_chars(nr, '\n') =~= r5 + (seq!['\n']
            + crate::text::join_chars(nr, '\n')));
        assert(crate::text::join_chars(seq![r5] + nr, '\n') == r5 + tail);
    }
    lemma_flatten_rows(r1, r2, r3, r4, r5, tail);
    assert(spec_render_entry(m) == r1 + seq!['\n'] + r2 + seq!['\n'] + r3 + seq!['\n'] + r4
        + seq!['\n'] + r5 + tail);
    assert(j == r1 + seq!['\n'] + (r2 + seq!['\n'] + (r3 + seq!['\n'] + (r4 + seq!['\n'] + (r5
        + tail)))));
}

/// Display line count: an entry whose goal, result, notes and timestamp
/// texts are each a single line renders as exactly five labeled rows plus
/// one row per note, joined by line breaks with none trailing.
#[verifier::spinoff_prover]
pub proof fn lemma_render_line_count(m: EntryModel)
    requires
        m.start matches Some(t) ==> !crate::calendar::local_time_text(
            t.secs as int,
            t.off as int,
        ).contains('\n'),
        m.stop matches Some(t) ==> !crate::calendar::local_time_text(
            t.secs as int,
            t.off as int,
        ).contains('\n'),
        !m.goal.contains('\n'),
        !m.result.contains('\n'),
        forall|i: int| 0 <= i < m.notes.len() ==> !(#[trigger] m.notes[i]).contains('\n'),
    ensures
        split_chars(spec_render_entry(m), '\n') == render_rows(m),
        split_chars(spec_render_entry(m), '\n').len() == 5 + m.notes.len(),
{
    lemma_labels_no_nl();
    let rows = render_rows(m);
    lemma_opt_row_no_nl(opt_ts_text(m.start), label_start(), 12);
    lemma_opt_row_no_nl(opt_ts_text(m.stop), label_stop(), 12);
    match (m.start, m.stop) {
        (Some(a), Some(b)) => {
            lemma_format_dur_no_nl(b.secs - a.secs);
        },
        _ => {},
    }
    lemma_opt_row_no_nl(dur_text(m), label_duration(), 12);
    lemma_str_row_no_nl(m.goal, label_goal(), 12);
    lemma_str_row_no_nl(m.result, label_result(), 12);
    assert forall|i: int| 0 <= i < rows.len() implies !(#[trigger] rows[i]).contains('\n') by {
        if i >= 5 {
            lemma_str_row_no_nl(m.notes[i - 5], label_note(), 12);
        }
    }
    lemma_render_join(m);
    crate::text::lemma_split_join(rows, '\n');
    assert(split_chars(spec_render_entry(m), '\n') =~~= rows);
}

} // verus!
