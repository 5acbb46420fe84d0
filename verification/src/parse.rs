//! The status parser: one forward pass over the report's lines.
//!
//! A line `NAME connected ...` (NAME from uppercase letters, digits and
//! hyphens) starts a monitor; an indented line `  WIDTHxHEIGHT  RATES...`
//! adds a modeline to the monitor under construction, with the best decimal
//! rate found in RATES; every other line is ignored. A modeline line with no
//! monitor under way, or a numeric field the model cannot hold, is a
//! malformed report.

use vstd::prelude::*;
use crate::num::{is_digit_char, digit_val, digits_val, lemma_digits_val_step, lemma_digits_val_mono};
use crate::rate::{Rate, pow10, max_rate, lemma_max_rate, lemma_pow10_mono, lemma_digits_val_bound};
use vstd::seq_lib::group_to_multiset_ensures;
use crate::model::{
    Modeline, Monitor, MonitorView, ParseError, Screen, ScreenView, screen_of, sort_desc,
    insert_desc, ml_key, mon_key, sorted_desc_by, lemma_sort_desc, lemma_insert_pos_is,
};

verus! {

/// Characters an output identifier is made of.
pub open spec fn is_id_char(c: char) -> bool {
    ('A' <= c && c <= 'Z') || ('0' <= c && c <= '9') || c == '-'
}

/// Horizontal whitespace inside a report line.
pub open spec fn is_space_char(c: char) -> bool {
    c == ' ' || c == '\t'
}

pub open spec fn id_pred() -> spec_fn(char) -> bool {
    |c: char| is_id_char(c)
}

pub open spec fn digit_pred() -> spec_fn(char) -> bool {
    |c: char| is_digit_char(c)
}

pub open spec fn space_pred() -> spec_fn(char) -> bool {
    |c: char| is_space_char(c)
}

pub open spec fn not_newline_pred() -> spec_fn(char) -> bool {
    |c: char| c != '\n'
}

/// The end of the maximal run of characters satisfying `p` that starts at
/// `from`: the first index at or after `from` whose character fails `p`.
pub open spec fn run_end(l: Seq<char>, from: int, p: spec_fn(char) -> bool) -> int
    decreases l.len() - from,
        when 0 <= from <= l.len()
{
    if from < l.len() && p(l[from]) {
        run_end(l, from + 1, p)
    } else {
        from
    }
}

pub proof fn lemma_run_end(l: Seq<char>, from: int, p: spec_fn(char) -> bool)
    requires
        0 <= from <= l.len(),
    ensures
        from <= run_end(l, from, p) <= l.len(),
        forall|i: int| from <= i < run_end(l, from, p) ==> p(#[trigger] l[i]),
        run_end(l, from, p) < l.len() ==> !p(l[run_end(l, from, p)]),
    decreases l.len() - from,
{
    if from < l.len() && p(l[from]) {
        lemma_run_end(l, from + 1, p);
    }
}

/// The run end is the unique index bounding a run: everything before it from
/// `from` on satisfies `p`, and it is the line's end or fails `p`.
pub proof fn lemma_run_end_is(l: Seq<char>, from: int, q: int, p: spec_fn(char) -> bool)
    requires
        0 <= from <= q <= l.len(),
        forall|i: int| from <= i < q ==> p(#[trigger] l[i]),
        q < l.len() ==> !p(l[q]),
    ensures
        run_end(l, from, p) == q,
    decreases q - from,
{
    if from < q {
        lemma_run_end_is(l, from + 1, q, p);
    }
}

// ---------------------------------------------------------------------------
// Line shapes.
// ---------------------------------------------------------------------------

/// The text ` connected ` that follows an output name.
pub open spec fn connected_marker() -> Seq<char> {
    seq![' ', 'c', 'o', 'n', 'n', 'e', 'c', 't', 'e', 'd', ' ']
}

/// A line announcing a connected output: a non-empty run of identifier
/// characters followed immediately by ` connected `.
pub open spec fn is_output_line(l: Seq<char>) -> bool {
    let k = run_end(l, 0, id_pred());
    k >= 1 && k + 11 <= l.len() && l.subrange(k, k + 11) == connected_marker()
}

/// The output identifier of an output line.
pub open spec fn output_name(l: Seq<char>) -> Seq<char> {
    l.subrange(0, run_end(l, 0, id_pred()))
}

/// A modeline-shaped line: `\s+ WIDTH x HEIGHT \s+ RATES`, the resolution as
/// two non-empty digit runs joined by `x`, followed by at least one space.
pub open spec fn is_modeline_line(l: Seq<char>) -> bool {
    let s1 = run_end(l, 0, space_pred());
    let we = if s1 <= l.len() {
        run_end(l, s1, digit_pred())
    } else {
        s1
    };
    s1 >= 1 && we > s1 && we < l.len() && l[we] == 'x' && {
        let he = run_end(l, we + 1, digit_pred());
        he > we + 1 && he < l.len() && is_space_char(l[he])
    }
}

pub open spec fn width_digits(l: Seq<char>) -> Seq<char> {
    let s1 = run_end(l, 0, space_pred());
    l.subrange(s1, run_end(l, s1, digit_pred()))
}

pub open spec fn height_digits(l: Seq<char>) -> Seq<char> {
    let we = run_end(l, run_end(l, 0, space_pred()), digit_pred());
    l.subrange(we + 1, run_end(l, we + 1, digit_pred()))
}

/// Where the rate list starts: after the spaces that follow the height.
pub open spec fn rates_start(l: Seq<char>) -> int {
    let he = run_end(l, run_end(l, run_end(l, 0, space_pred()), digit_pred()) + 1, digit_pred());
    run_end(l, he, space_pred())
}

// ---------------------------------------------------------------------------
// Scanning the rate list for decimal substrings.
// ---------------------------------------------------------------------------

/// All substrings `DIGITS . DIGITS` of `l` from index `i` on, scanned left to
/// right with maximal digit runs, non-overlapping, each as the pair of its
/// whole-part and fraction-part digit runs.
pub open spec fn scan_rates(l: Seq<char>, i: int) -> Seq<(Seq<char>, Seq<char>)>
    decreases l.len() - i,
        when 0 <= i <= l.len()
        via scan_rates_decreases
{
    if i >= l.len() {
        Seq::empty()
    } else if !is_digit_char(l[i]) {
        scan_rates(l, i + 1)
    } else {
        let j = run_end(l, i, digit_pred());
        if j < l.len() && l[j] == '.' && j + 1 < l.len() && is_digit_char(l[j + 1]) {
            let k = run_end(l, j + 1, digit_pred());
            seq![(l.subrange(i, j), l.subrange(j + 1, k))] + scan_rates(l, k)
        } else {
            scan_rates(l, j)
        }
    }
}

#[via_fn]
proof fn scan_rates_decreases(l: Seq<char>, i: int) {
    if 0 <= i <= l.len() && i < l.len() && is_digit_char(l[i]) {
        lemma_run_end(l, i, digit_pred());
        let j = run_end(l, i, digit_pred());
        assert(digit_pred()(l[i]));
        assert(j > i) by {
            if j == i {
                assert(!digit_pred()(l[i]));
            }
        }
        if j < l.len() && l[j] == '.' && j + 1 < l.len() && is_digit_char(l[j + 1]) {
            lemma_run_end(l, j + 1, digit_pred());
            let k = run_end(l, j + 1, digit_pred());
            assert(k > j + 1) by {
                if k == j + 1 {
                    assert(!digit_pred()(l[j + 1]));
                }
            }
        }
    }
}

/// The fraction digits with trailing zeros removed.
pub open spec fn trim_zeros(f: Seq<char>) -> Seq<char>
    decreases f.len(),
{
    if f.len() > 0 && f.last() == '0' {
        trim_zeros(f.drop_last())
    } else {
        f
    }
}

/// A scanned rate the model can hold exactly: the whole part fits 64 bits and
/// the normalized fraction keeps at most 19 digits.
pub open spec fn rate_ok(ud: Seq<char>, fd: Seq<char>) -> bool {
    digits_val(ud) <= u64::MAX && trim_zeros(fd).len() <= 19
}

/// The rate a scanned `DIGITS . DIGITS` substring denotes, normalized.
pub open spec fn rate_of(ud: Seq<char>, fd: Seq<char>) -> Rate
    recommends
        rate_ok(ud, fd),
{
    Rate {
        units: digits_val(ud) as u64,
        frac: digits_val(trim_zeros(fd)) as u64,
        frac_len: trim_zeros(fd).len() as u8,
    }
}

/// The scanned rates of a modeline line, as [`Rate`] values.
pub open spec fn line_rates(l: Seq<char>) -> Seq<Rate> {
    scan_rates(l, rates_start(l)).map_values(|p: (Seq<char>, Seq<char>)| rate_of(p.0, p.1))
}

/// Every numeric field of the modeline line fits the model: positive width
/// and height within 64 bits, every scanned rate representable.
pub open spec fn modeline_ok(l: Seq<char>) -> bool
    recommends
        is_modeline_line(l),
{
    &&& 1 <= digits_val(width_digits(l)) <= u64::MAX
    &&& 1 <= digits_val(height_digits(l)) <= u64::MAX
    &&& forall|q: int|
        0 <= q < scan_rates(l, rates_start(l)).len() ==> rate_ok(
            (#[trigger] scan_rates(l, rates_start(l))[q]).0,
            scan_rates(l, rates_start(l))[q].1,
        )
}

/// The modeline a well-formed modeline line denotes: the resolution, and the
/// numerically largest scanned rate (absent when none was scanned).
pub open spec fn ml_of(l: Seq<char>) -> Modeline
    recommends
        is_modeline_line(l),
        modeline_ok(l),
{
    Modeline {
        width: digits_val(width_digits(l)) as u64,
        height: digits_val(height_digits(l)) as u64,
        best_rate: max_rate(line_rates(l)),
    }
}

// ---------------------------------------------------------------------------
// Splitting the report into lines.
// ---------------------------------------------------------------------------

/// `l` without one trailing carriage return.
pub open spec fn strip_cr(l: Seq<char>) -> Seq<char> {
    if l.len() > 0 && l.last() == '\r' {
        l.drop_last()
    } else {
        l
    }
}

/// The text split at newlines, as `str::lines` does it: a final newline ends
/// the last line rather than opening an empty one, and a carriage return
/// before a newline is dropped.
pub open spec fn lines_of(t: Seq<char>) -> Seq<Seq<char>>
    decreases t.len(),
    via lines_of_decreases
{
    if t.len() == 0 {
        Seq::empty()
    } else {
        let e = run_end(t, 0, not_newline_pred());
        if e == t.len() {
            seq![strip_cr(t)]
        } else {
            seq![strip_cr(t.subrange(0, e))] + lines_of(t.subrange(e + 1, t.len() as int))
        }
    }
}

#[via_fn]
proof fn lines_of_decreases(t: Seq<char>) {
    if t.len() > 0 {
        lemma_run_end(t, 0, not_newline_pred());
    }
}

/// Splits the report text into its lines.
pub fn split_lines<'a>(input: &'a str) -> (r: Vec<&'a str>)
    ensures
        r.deep_view() == lines_of(input@),
{
    let n = input.unicode_len();
    let mut out: Vec<&'a str> = Vec::new();
    let mut start: usize = 0;
    proof {
        assert(out.deep_view() =~= Seq::<Seq<char>>::empty());
        assert(input@.subrange(0, n as int) =~= input@);
    }
    while start < n
        invariant
            n == input@.len(),
            start <= n,
            lines_of(input@) =~= out.deep_view() + lines_of(input@.subrange(start as int, n as int)),
        decreases n - start,
    {
        let ghost rest = input@.subrange(start as int, n as int);
        let mut i: usize = start;
        while i < n && input.get_char(i) != '\n'
            invariant
                n == input@.len(),
                start <= i <= n,
                forall|j: int| start <= j < i ==> input@[j] != '\n',
            decreases n - i,
        {
            i = i + 1;
        }
        proof {
            assert forall|j: int| 0 <= j < i - start implies not_newline_pred()(rest[j]) by {
                assert(rest[j] == input@[start + j]);
            }
            if i < n {
                assert(rest[i - start] == input@[i as int]);
            }
            lemma_run_end_is(rest, 0, i - start, not_newline_pred());
        }
        let line: &'a str = if i > start && input.get_char(i - 1) == '\r' {
            input.substring_char(start, i - 1)
        } else {
            input.substring_char(start, i)
        };
        proof {
            if i > start && input@[i - 1] == '\r' {
                assert(rest.subrange(0, i - start as int).last() == input@[i - 1]);
                assert(line@ =~= strip_cr(rest.subrange(0, i - start as int)));
            } else {
                if i > start {
                    assert(rest.subrange(0, i - start as int).last() == input@[i - 1]);
                }
                assert(line@ =~= strip_cr(rest.subrange(0, i - start as int)));
            }
        }
        let ghost old_out = out.deep_view();
        out.push(line);
        proof {
            assert(out.deep_view() =~= old_out.push(line@));
        }
        if i == n {
            proof {
                assert(rest.subrange(0, i - start as int) =~= rest);
                assert(lines_of(rest) =~= seq![line@]);
                assert(lines_of(input@) =~= out.deep_view() + lines_of(
                    input@.subrange(n as int, n as int),
                )) by {
                    assert(old_out + lines_of(rest) =~= out.deep_view());
                    assert(lines_of(input@.subrange(n as int, n as int)) =~= Seq::<
                        Seq<char>,
                    >::empty());
                }
            }
            start = n;
        } else {
            proof {
                assert(rest.subrange(i + 1 - start as int, rest.len() as int) =~= input@.subrange(
                    i + 1,
                    n as int,
                ));
                assert(lines_of(rest) =~= seq![line@] + lines_of(input@.subrange(i + 1, n as int)));
                assert(old_out + lines_of(rest) =~= out.deep_view() + lines_of(
                    input@.subrange(i + 1, n as int),
                ));
            }
            start = i + 1;
        }
    }
    proof {
        assert(lines_of(input@.subrange(n as int, n as int)) =~= Seq::<Seq<char>>::empty());
        assert(lines_of(input@) =~= out.deep_view());
    }
    out
}

// ---------------------------------------------------------------------------
// Character-level scanning.
// ---------------------------------------------------------------------------

fn id_run_end(l: &str, from: usize) -> (r: usize)
    requires
        from <= l@.len(),
    ensures
        r == run_end(l@, from as int, id_pred()),
        from <= r <= l@.len(),
{
    let n = l.unicode_len();
    let mut k: usize = from;
    let mut stop = false;
    while !stop && k < n
        invariant
            n == l@.len(),
            from <= k <= n,
            forall|j: int| from <= j < k ==> is_id_char(#[trigger] l@[j]),
            stop ==> k < n && !is_id_char(l@[k as int]),
        decreases n - k, !stop as int,
    {
        let c = l.get_char(k);
        if ('A' <= c && c <= 'Z') || ('0' <= c && c <= '9') || c == '-' {
            k = k + 1;
        } else {
            stop = true;
        }
    }
    proof {
        lemma_run_end_is(l@, from as int, k as int, id_pred());
    }
    k
}

fn digit_run_end(l: &str, from: usize) -> (r: usize)
    requires
        from <= l@.len(),
    ensures
        r == run_end(l@, from as int, digit_pred()),
        from <= r <= l@.len(),
{
    let n = l.unicode_len();
    let mut k: usize = from;
    let mut stop = false;
    while !stop && k < n
        invariant
            n == l@.len(),
            from <= k <= n,
            forall|j: int| from <= j < k ==> is_digit_char(#[trigger] l@[j]),
            stop ==> k < n && !is_digit_char(l@[k as int]),
        decreases n - k, !stop as int,
    {
        let c = l.get_char(k);
        if '0' <= c && c <= '9' {
            k = k + 1;
        } else {
            stop = true;
        }
    }
    proof {
        lemma_run_end_is(l@, from as int, k as int, digit_pred());
    }
    k
}

fn space_run_end(l: &str, from: usize) -> (r: usize)
    requires
        from <= l@.len(),
    ensures
        r == run_end(l@, from as int, space_pred()),
        from <= r <= l@.len(),
{
    let n = l.unicode_len();
    let mut k: usize = from;
    let mut stop = false;
    while !stop && k < n
        invariant
            n == l@.len(),
            from <= k <= n,
            forall|j: int| from <= j < k ==> is_space_char(#[trigger] l@[j]),
            stop ==> k < n && !is_space_char(l@[k as int]),
        decreases n - k, !stop as int,
    {
        let c = l.get_char(k);
        if c == ' ' || c == '\t' {
            k = k + 1;
        } else {
            stop = true;
        }
    }
    proof {
        lemma_run_end_is(l@, from as int, k as int, space_pred());
    }
    k
}

fn is_marker_at(l: &str, k: usize) -> (r: bool)
    requires
        k + 11 <= l@.len(),
        l@.len() <= usize::MAX,
    ensures
        r == (l@.subrange(k as int, k as int + 11) == connected_marker()),
{
    let m = " connected ";
    proof {
        reveal_strlit(" connected ");
        assert(m@ =~= connected_marker());
    }
    let mut i: usize = 0;
    while i < 11
        invariant
            k + 11 <= l@.len(),
            l@.len() <= usize::MAX,
            i <= 11,
            m@ == connected_marker(),
            m@.len() == 11,
            forall|j: int| 0 <= j < i ==> l@[k + j] == m@[j],
        decreases 11 - i,
    {
        if l.get_char(k + i) != m.get_char(i) {
            proof {
                assert(l@.subrange(k as int, k as int + 11)[i as int] != connected_marker()[
                i as int]);
            }
            return false;
        }
        i = i + 1;
    }
    proof {
        assert(l@.subrange(k as int, k as int + 11) =~= connected_marker());
    }
    true
}

/// Recognizes a connected-output line and hands back the output's name.
pub fn classify_output(l: &str) -> (r: Option<String>)
    ensures
        match r {
            Some(nm) => is_output_line(l@) && nm@ == output_name(l@),
            None => !is_output_line(l@),
        },
{
    let n = l.unicode_len();
    let k = id_run_end(l, 0);
    if k == 0 {
        return None;
    }
    if n - k < 11 {
        return None;
    }
    if !is_marker_at(l, k) {
        return None;
    }
    let name = l.substring_char(0, k);
    Some(name.to_owned())
}

/// Reads the value of the digit run `l[from..to]`, or reports that it
/// exceeds 64 bits.
fn parse_digits(l: &str, from: usize, to: usize) -> (r: Option<u64>)
    requires
        from <= to <= l@.len(),
        forall|i: int| from <= i < to ==> is_digit_char(#[trigger] l@[i]),
    ensures
        match r {
            Some(v) => v == digits_val(l@.subrange(from as int, to as int)) && digits_val(
                l@.subrange(from as int, to as int),
            ) <= u64::MAX,
            None => digits_val(l@.subrange(from as int, to as int)) > u64::MAX,
        },
{
    let mut acc: u128 = 0;
    let mut i: usize = from;
    proof {
        assert(l@.subrange(from as int, from as int) =~= Seq::<char>::empty());
    }
    while i < to
        invariant
            from <= i <= to <= l@.len(),
            forall|j: int| from <= j < to ==> is_digit_char(#[trigger] l@[j]),
            acc == digits_val(l@.subrange(from as int, i as int)),
            acc <= u64::MAX,
        decreases to - i,
    {
        let c = l.get_char(i);
        let d: u128 = ((c as u32) - ('0' as u32)) as u128;
        proof {
            assert(is_digit_char(l@[i as int]));
            assert(d == digit_val(l@[i as int]));
            assert(d <= 9);
            lemma_digits_val_step(l@, from as int, i as int);
        }
        let next: u128 = acc * 10 + d;
        if next > u64::MAX as u128 {
            proof {
                lemma_digits_val_mono(l@, from as int, i as int + 1, to as int);
            }
            return None;
        }
        acc = next;
        i = i + 1;
    }
    Some(acc as u64)
}

/// Reads a line as a modeline if it is shaped like one: `Ok(None)` when the
/// line has another shape, the parsed [`Modeline`] when every numeric field
/// fits the model, and a malformed report otherwise.
#[verifier::rlimit(100)]
pub fn parse_modeline(l: &str) -> (r: Result<Option<Modeline>, ParseError>)
    ensures
        is_modeline_line(l@) ==> r == (if modeline_ok(l@) {
            Ok::<Option<Modeline>, ParseError>(Some(ml_of(l@)))
        } else {
            Err::<Option<Modeline>, ParseError>(ParseError::MalformedReport)
        }),
        !is_modeline_line(l@) ==> r == Ok::<Option<Modeline>, ParseError>(None),
{
    let n = l.unicode_len();
    let s1 = space_run_end(l, 0);
    if s1 == 0 {
        return Ok(None);
    }
    let we = digit_run_end(l, s1);
    if we == s1 || we >= n || l.get_char(we) != 'x' {
        return Ok(None);
    }
    let he = digit_run_end(l, we + 1);
    if he == we + 1 || he >= n {
        return Ok(None);
    }
    let hc = l.get_char(he);
    if !(hc == ' ' || hc == '\t') {
        return Ok(None);
    }
    assert(is_modeline_line(l@));
    proof {
        lemma_run_end(l@, s1 as int, digit_pred());
        lemma_run_end(l@, we + 1, digit_pred());
    }
    let width = match parse_digits(l, s1, we) {
        Some(v) => v,
        None => {
            return Err(ParseError::MalformedReport);
        },
    };
    let height = match parse_digits(l, we + 1, he) {
        Some(v) => v,
        None => {
            return Err(ParseError::MalformedReport);
        },
    };
    if width == 0 || height == 0 {
        return Err(ParseError::MalformedReport);
    }
    let rs = space_run_end(l, he);
    assert(rs == rates_start(l@));
    let ghost full = scan_rates(l@, rs as int);
    let mut i: usize = rs;
    let mut best: Option<Rate> = None;
    let ghost mut pairs: Seq<(Seq<char>, Seq<char>)> = Seq::empty();
    let ghost mut rseq: Seq<Rate> = Seq::empty();
    proof {
        assert(full =~= pairs + scan_rates(l@, i as int));
    }
    while i < n
        invariant
            n == l@.len(),
            rs <= i <= n,
            is_modeline_line(l@),
            rs == rates_start(l@),
            width == digits_val(width_digits(l@)),
            height == digits_val(height_digits(l@)),
            width >= 1,
            height >= 1,
            full == scan_rates(l@, rs as int),
            full == pairs + scan_rates(l@, i as int),
            forall|q: int|
                0 <= q < pairs.len() ==> rate_ok(
                    (#[trigger] pairs[q]).0,
                    pairs[q].1,
                ),
            rseq.len() == pairs.len(),
            forall|q: int|
                0 <= q < pairs.len() ==> #[trigger] rseq[q] == rate_of(pairs[q].0, pairs[q].1),
            forall|q: int| 0 <= q < rseq.len() ==> (#[trigger] rseq[q]).wf(),
            best == max_rate(rseq),
            best matches Some(b) ==> b.wf(),
        decreases n - i,
    {
        let c = l.get_char(i);
        if !('0' <= c && c <= '9') {
            i = i + 1;
        } else {
            let j = digit_run_end(l, i);
            let mut matched = false;
            if j < n && l.get_char(j) == '.' && j + 1 < n {
                let c2 = l.get_char(j + 1);
                if '0' <= c2 && c2 <= '9' {
                    matched = true;
                }
            }
            assert(matched == (j < l@.len() && l@[j as int] == '.' && j + 1 < l@.len()
                && is_digit_char(l@[j + 1])));
            if matched {
                let k = digit_run_end(l, j + 1);
                let ghost pair = (l@.subrange(i as int, j as int), l@.subrange(j + 1, k as int));
                proof {
                    lemma_run_end(l@, i as int, digit_pred());
                    lemma_run_end(l@, j + 1, digit_pred());
                    assert(scan_rates(l@, i as int) =~= seq![pair] + scan_rates(l@, k as int));
                    assert(full =~= (pairs + seq![pair]) + scan_rates(l@, k as int));
                }
                let units = match parse_digits(l, i, j) {
                    Some(v) => v,
                    None => {
                        proof {
                            assert(full[pairs.len() as int] == pair);
                            assert(!rate_ok(pair.0, pair.1));
                            assert(scan_rates(l@, rates_start(l@))[pairs.len() as int] == pair);
                            assert(!modeline_ok(l@));
                        }
                        return Err(ParseError::MalformedReport);
                    },
                };
                let mut t = k;
                let mut stop = false;
                while t > j + 1 && !stop
                    invariant
                        n == l@.len(),
                        j + 1 <= t <= k <= n,
                        forall|m: int| t <= m < k ==> l@[m] == '0',
                        stop ==> t > j + 1 && l@[t - 1] != '0',
                    decreases t, !stop as int,
                {
                    if l.get_char(t - 1) == '0' {
                        t = t - 1;
                    } else {
                        stop = true;
                    }
                }
                proof {
                    lemma_trim_zeros_is(l@.subrange(j + 1, k as int), t - (j + 1));
                    assert(l@.subrange(j + 1, k as int).subrange(0, t - (j + 1)) =~= l@.subrange(
                        j + 1,
                        t as int,
                    ));
                    assert(trim_zeros(pair.1) == l@.subrange(j + 1, t as int));
                }
                let fdl = t - (j + 1);
                if fdl > 19 {
                    proof {
                        assert(full[pairs.len() as int] == pair);
                        assert(!rate_ok(pair.0, pair.1));
                        assert(scan_rates(l@, rates_start(l@))[pairs.len() as int] == pair);
                        assert(!modeline_ok(l@));
                    }
                    return Err(ParseError::MalformedReport);
                }
                proof {
                    assert(forall|m: int|
                        j + 1 <= m < t ==> is_digit_char(#[trigger] l@[m]));
                    assert(forall|m: int|
                        0 <= m < t - (j + 1) ==> is_digit_char(
                            #[trigger] l@.subrange(j + 1, t as int)[m],
                        ));
                    lemma_digits_val_bound(l@.subrange(j + 1, t as int));
                    lemma_pow10_mono((t - (j + 1)) as nat, 19);
                    reveal_with_fuel(pow10, 21);
                }
                let frac = match parse_digits(l, j + 1, t) {
                    Some(v) => v,
                    None => {
                        proof {
                            assert(false);
                        }
                        0
                    },
                };
                proof {
                    if t > j + 1 {
                        assert(l@.subrange(j + 1, t as int).last() == l@[t - 1]);
                        lemma_digits_val_step(l@, j + 1, t - 1);
                        assert(l@.subrange(j + 1, t as int) =~= l@.subrange(j + 1, t - 1 + 1));
                        assert(digit_val(l@[t - 1]) >= 1) by {
                            assert(l@[t - 1] != '0');
                            assert(is_digit_char(l@[t - 1]));
                        }
                        assert(frac % 10 != 0);
                    }
                    if t == j + 1 {
                        assert(l@.subrange(j + 1, t as int) =~= Seq::<char>::empty());
                    }
                }
                let rate = Rate::new(units, frac, fdl as u8);
                proof {
                    assert(rate_ok(pair.0, pair.1));
                    assert(rate == rate_of(pair.0, pair.1));
                }
                let ghost old_rseq = rseq;
                best = match best {
                    None => Some(rate),
                    Some(b) => if b.le(&rate) {
                        Some(rate)
                    } else {
                        Some(b)
                    },
                };
                proof {
                    pairs = pairs.push(pair);
                    rseq = rseq.push(rate);
                    assert(rseq.drop_last() =~= old_rseq);
                    assert(best == max_rate(rseq));
                    assert(full =~= pairs + scan_rates(l@, k as int));
                }
                i = k;
            } else {
                proof {
                    lemma_run_end(l@, i as int, digit_pred());
                }
                i = j;
            }
        }
    }
    proof {
        assert(scan_rates(l@, n as int) =~= Seq::<(Seq<char>, Seq<char>)>::empty());
        assert(pairs =~= full);
        assert(modeline_ok(l@));
        assert(rseq.len() == line_rates(l@).len());
        assert forall|q: int| 0 <= q < rseq.len() implies rseq[q] == line_rates(l@)[q] by {
            assert(rseq[q] == rate_of(pairs[q].0, pairs[q].1));
        }
        assert(rseq =~= line_rates(l@));
    }
    Ok(Some(Modeline { width, height, best_rate: best }))
}

/// Removing the trailing zeros of a digit run leaves exactly its prefix up to
/// the last non-zero digit.
proof fn lemma_trim_zeros_is(f: Seq<char>, t: int)
    requires
        0 <= t <= f.len(),
        forall|i: int| t <= i < f.len() ==> f[i] == '0',
        t > 0 ==> f[t - 1] != '0',
    ensures
        trim_zeros(f) == f.subrange(0, t),
    decreases f.len(),
{
    if f.len() > t {
        assert(f.last() == '0');
        assert(forall|i: int| 0 <= i < f.len() - 1 ==> f.drop_last()[i] == f[i]);
        lemma_trim_zeros_is(f.drop_last(), t);
        assert(f.drop_last().subrange(0, t) =~= f.subrange(0, t));
    } else {
        if f.len() > 0 {
            assert(f.last() != '0');
        }
        assert(f.subrange(0, t) =~= f);
    }
}

// ---------------------------------------------------------------------------
// The pass over the lines.
// ---------------------------------------------------------------------------

/// The parser's state between lines: the monitors already finished, and the
/// one under construction with its modelines in the order they were seen.
#[verifier::ext_equal]
pub ghost struct ParseState {
    pub done: Seq<MonitorView>,
    pub current: Option<MonitorView>,
}

pub open spec fn init_state() -> ParseState {
    ParseState { done: Seq::empty(), current: None }
}

/// A finished monitor: its modelines put in stable descending-width order.
pub open spec fn finalize(c: MonitorView) -> MonitorView {
    MonitorView { output: c.output, modelines: sort_desc(c.modelines, ml_key()) }
}

/// A finished monitor leads with its best modeline: the first modeline of
/// `finalize(c)` is one of the modelines seen, no seen modeline is wider,
/// and among the widest it is the one seen first.
pub proof fn lemma_finalize_best(c: MonitorView)
    requires
        c.modelines.len() >= 1,
    ensures
        finalize(c).modelines.len() == c.modelines.len(),
        exists|i: int|
            0 <= i < c.modelines.len() && finalize(c).modelines[0] == c.modelines[i] && (forall|
                j: int,
            |
                0 <= j < c.modelines.len() ==> (#[trigger] c.modelines[j]).width
                    <= c.modelines[i].width) && (forall|j: int|
                0 <= j < i ==> (#[trigger] c.modelines[j]).width < c.modelines[i].width),
{
    lemma_sort_desc(c.modelines, ml_key());
    let i = choose|i: int|
        0 <= i < c.modelines.len() && sort_desc(c.modelines, ml_key())[0] == c.modelines[i] && (
        forall|j: int|
            0 <= j < c.modelines.len() ==> ml_key()(#[trigger] c.modelines[j]) <= ml_key()(
                c.modelines[i],
            )) && (forall|j: int|
            0 <= j < i ==> ml_key()(#[trigger] c.modelines[j]) < ml_key()(c.modelines[i]));
    assert(0 <= i < c.modelines.len() && finalize(c).modelines[0] == c.modelines[i] && (forall|
        j: int,
    |
        0 <= j < c.modelines.len() ==> (#[trigger] c.modelines[j]).width <= c.modelines[i].width)
        && (forall|j: int|
        0 <= j < i ==> (#[trigger] c.modelines[j]).width < c.modelines[i].width));
}

/// Closes the monitor under construction, if any: one with no modelines is a
/// parse anomaly and yields nothing.
pub open spec fn flush(st: ParseState) -> Seq<MonitorView> {
    match st.current {
        None => st.done,
        Some(c) => if c.modelines.len() > 0 {
            st.done.push(finalize(c))
        } else {
            st.done
        },
    }
}

/// The single forward pass from line `i` on: a connected-output line closes
/// the current monitor and opens a new one, a modeline line extends the
/// current monitor or is a malformed report when there is none (or when its
/// numbers cannot be held), and any other line is ignored. The end of input
/// closes the last monitor.
pub open spec fn parse_from(lines: Seq<Seq<char>>, i: int, st: ParseState) -> Result<
    Seq<MonitorView>,
    ParseError,
>
    decreases lines.len() - i,
        when 0 <= i <= lines.len()
{
    if i >= lines.len() {
        Ok(flush(st))
    } else {
        let l = lines[i];
        if is_output_line(l) {
            parse_from(
                lines,
                i + 1,
                ParseState {
                    done: flush(st),
                    current: Some(MonitorView { output: output_name(l), modelines: Seq::empty() }),
                },
            )
        } else if is_modeline_line(l) {
            match st.current {
                None => Err(ParseError::MalformedReport),
                Some(c) => if modeline_ok(l) {
                    parse_from(
                        lines,
                        i + 1,
                        ParseState {
                            done: st.done,
                            current: Some(
                                MonitorView {
                                    output: c.output,
                                    modelines: c.modelines.push(ml_of(l)),
                                },
                            ),
                        },
                    )
                } else {
                    Err(ParseError::MalformedReport)
                },
            }
        } else {
            parse_from(lines, i + 1, st)
        }
    }
}

/// What parsing a whole report means: the pass over its lines, then the
/// stable sort of the monitors by descending best width.
pub open spec fn parse_monitors_spec(t: Seq<char>) -> Result<Seq<MonitorView>, ParseError> {
    match parse_from(lines_of(t), 0, init_state()) {
        Ok(ms) => Ok(sort_desc(ms, mon_key())),
        Err(e) => Err(e),
    }
}

/// The parsed report rendered into screen configurations, in order.
pub open spec fn parse_screens_spec(t: Seq<char>) -> Result<Seq<ScreenView>, ParseError> {
    match parse_monitors_spec(t) {
        Ok(ms) => Ok(ms.map_values(|m: MonitorView| screen_of(m))),
        Err(e) => Err(e),
    }
}

// ---------------------------------------------------------------------------
// Laws of the pass.
// ---------------------------------------------------------------------------

/// Scanned rate substrings hold digit characters only.
proof fn lemma_scan_rates_digits(l: Seq<char>, i: int)
    requires
        0 <= i <= l.len(),
    ensures
        forall|q: int, m: int|
            0 <= q < scan_rates(l, i).len() && 0 <= m < scan_rates(l, i)[q].0.len()
                ==> is_digit_char(#[trigger] scan_rates(l, i)[q].0[m]),
        forall|q: int, m: int|
            0 <= q < scan_rates(l, i).len() && 0 <= m < scan_rates(l, i)[q].1.len()
                ==> is_digit_char(#[trigger] scan_rates(l, i)[q].1[m]),
    decreases l.len() - i,
{
    if i >= l.len() {
    } else if !is_digit_char(l[i]) {
        lemma_scan_rates_digits(l, i + 1);
        let s = scan_rates(l, i);
        assert forall|q: int, m: int|
            0 <= q < s.len() && 0 <= m < s[q].0.len() implies is_digit_char(
            #[trigger] s[q].0[m],
        ) by {
            assert(is_digit_char(scan_rates(l, i + 1)[q].0[m]));
        }
        assert forall|q: int, m: int|
            0 <= q < s.len() && 0 <= m < s[q].1.len() implies is_digit_char(
            #[trigger] s[q].1[m],
        ) by {
            assert(is_digit_char(scan_rates(l, i + 1)[q].1[m]));
        }
    } else {
        lemma_run_end(l, i, digit_pred());
        let j = run_end(l, i, digit_pred());
        if j < l.len() && l[j] == '.' && j + 1 < l.len() && is_digit_char(l[j + 1]) {
            lemma_run_end(l, j + 1, digit_pred());
            let k = run_end(l, j + 1, digit_pred());
            lemma_scan_rates_digits(l, k);
            let s = scan_rates(l, i);
            assert(forall|q: int| 1 <= q < s.len() ==> #[trigger] s[q] == scan_rates(l, k)[q - 1]);
            assert forall|q: int, m: int|
                0 <= q < s.len() && 0 <= m < s[q].0.len() implies is_digit_char(
                #[trigger] s[q].0[m],
            ) by {
                if q == 0 {
                    assert(s[0].0[m] == l[i + m]);
                } else {
                    assert(is_digit_char(scan_rates(l, k)[q - 1].0[m]));
                }
            }
            assert forall|q: int, m: int|
                0 <= q < s.len() && 0 <= m < s[q].1.len() implies is_digit_char(
                #[trigger] s[q].1[m],
            ) by {
                if q == 0 {
                    assert(s[0].1[m] == l[j + 1 + m]);
                } else {
                    assert(is_digit_char(scan_rates(l, k)[q - 1].1[m]));
                }
            }
        } else {
            lemma_scan_rates_digits(l, j);
            let s = scan_rates(l, i);
            assert forall|q: int, m: int|
                0 <= q < s.len() && 0 <= m < s[q].0.len() implies is_digit_char(
                #[trigger] s[q].0[m],
            ) by {
                assert(is_digit_char(scan_rates(l, j)[q].0[m]));
            }
            assert forall|q: int, m: int|
                0 <= q < s.len() && 0 <= m < s[q].1.len() implies is_digit_char(
                #[trigger] s[q].1[m],
            ) by {
                assert(is_digit_char(scan_rates(l, j)[q].1[m]));
            }
        }
    }
}

/// Trimming trailing zeros leaves a prefix whose last digit is not zero.
proof fn lemma_trim_zeros_prefix(f: Seq<char>)
    ensures
        trim_zeros(f).len() <= f.len(),
        forall|i: int| 0 <= i < trim_zeros(f).len() ==> #[trigger] trim_zeros(f)[i] == f[i],
        trim_zeros(f).len() > 0 ==> trim_zeros(f).last() != '0',
    decreases f.len(),
{
    if f.len() > 0 && f.last() == '0' {
        lemma_trim_zeros_prefix(f.drop_last());
    }
}

/// A representable scanned rate denotes a well-formed, normalized rate.
proof fn lemma_rate_of_wf(ud: Seq<char>, fd: Seq<char>)
    requires
        rate_ok(ud, fd),
        forall|m: int| 0 <= m < fd.len() ==> is_digit_char(#[trigger] fd[m]),
    ensures
        rate_of(ud, fd).wf(),
{
    let trimmed = trim_zeros(fd);
    lemma_trim_zeros_prefix(fd);
    assert(forall|m: int| 0 <= m < trimmed.len() ==> is_digit_char(#[trigger] trimmed[m]));
    lemma_digits_val_bound(trimmed);
    lemma_pow10_mono(trimmed.len(), 19);
    reveal_with_fuel(pow10, 21);
    if trimmed.len() > 0 {
        assert(trimmed.drop_last().push(trimmed.last()) =~= trimmed);
        assert(digits_val(trimmed) == digits_val(trimmed.drop_last()) * 10 + digit_val(
            trimmed.last(),
        ));
        assert(digit_val(trimmed.last()) >= 1);
        assert(digit_val(trimmed.last()) <= 9);
        assert(digits_val(trimmed) % 10 != 0);
    }
}

/// A well-formed modeline line denotes a well-formed modeline.
proof fn lemma_ml_of_wf(l: Seq<char>)
    requires
        is_modeline_line(l),
        modeline_ok(l),
    ensures
        ml_of(l).wf(),
{
    let rs = rates_start(l);
    assert(0 <= rs <= l.len()) by {
        lemma_run_end(l, 0, space_pred());
        let s1 = run_end(l, 0, space_pred());
        lemma_run_end(l, s1, digit_pred());
        let we = run_end(l, s1, digit_pred());
        lemma_run_end(l, we + 1, digit_pred());
        let he = run_end(l, we + 1, digit_pred());
        lemma_run_end(l, he, space_pred());
    }
    lemma_scan_rates_digits(l, rs);
    let rates = line_rates(l);
    assert(forall|q: int| 0 <= q < rates.len() ==> (#[trigger] rates[q]).wf()) by {
        assert forall|q: int| 0 <= q < rates.len() implies (#[trigger] rates[q]).wf() by {
            let pair = scan_rates(l, rs)[q];
            assert(rates[q] == rate_of(pair.0, pair.1));
            lemma_rate_of_wf(pair.0, pair.1);
        }
    }
    lemma_max_rate(rates);
    match max_rate(rates) {
        None => {},
        Some(m) => {
            let q = choose|q: int| 0 <= q < rates.len() && rates[q] == m;
            assert(rates.contains(m));
        },
    }
}

/// Every monitor of a successful parse is well-formed: a named output, at
/// least one modeline, modelines in descending-width order (so the first is
/// the widest), all of them well-formed.
pub proof fn lemma_parse_from_wf(lines: Seq<Seq<char>>, i: int, st: ParseState)
    requires
        0 <= i <= lines.len(),
        forall|q: int| 0 <= q < st.done.len() ==> (#[trigger] st.done[q]).wf(),
        st.current matches Some(c) ==> c.output.len() >= 1 && forall|q: int|
            0 <= q < c.modelines.len() ==> (#[trigger] c.modelines[q]).wf(),
    ensures
        parse_from(lines, i, st) matches Ok(ms) ==> forall|q: int|
            0 <= q < ms.len() ==> (#[trigger] ms[q]).wf(),
    decreases lines.len() - i,
{
    broadcast use group_to_multiset_ensures;

    assert(flush(st).len() <= st.done.len() + 1);
    assert forall|q: int| 0 <= q < flush(st).len() implies (#[trigger] flush(st)[q]).wf() by {
        match st.current {
            None => {},
            Some(c) => {
                if c.modelines.len() > 0 {
                    lemma_sort_desc(c.modelines, ml_key());
                    if q == st.done.len() {
                        let f = finalize(c);
                        assert(f.modelines.len() == c.modelines.len());
                        assert forall|p: int| 0 <= p < f.modelines.len() implies (
                        #[trigger] f.modelines[p]).wf() by {
                            assert(f.modelines.to_multiset().count(f.modelines[p]) > 0);
                            assert(c.modelines.contains(f.modelines[p]));
                        }
                        assert(f.wf());
                    }
                }
            },
        }
    }
    if i >= lines.len() {
    } else {
        let l = lines[i];
        if is_output_line(l) {
            lemma_run_end(l, 0, id_pred());
            assert(output_name(l).len() >= 1);
            lemma_parse_from_wf(
                lines,
                i + 1,
                ParseState {
                    done: flush(st),
                    current: Some(MonitorView { output: output_name(l), modelines: Seq::empty() }),
                },
            );
        } else if is_modeline_line(l) {
            match st.current {
                None => {},
                Some(c) => {
                    if modeline_ok(l) {
                        lemma_ml_of_wf(l);
                        let c2 = MonitorView {
                            output: c.output,
                            modelines: c.modelines.push(ml_of(l)),
                        };
                        assert(forall|q: int|
                            0 <= q < c2.modelines.len() ==> (#[trigger] c2.modelines[q]).wf());
                        lemma_parse_from_wf(
                            lines,
                            i + 1,
                            ParseState { done: st.done, current: Some(c2) },
                        );
                    }
                },
            }
        } else {
            lemma_parse_from_wf(lines, i + 1, st);
        }
    }
}

/// The output names of a monitor sequence, in order.
pub open spec fn names_of(ms: Seq<MonitorView>) -> Seq<Seq<char>> {
    ms.map_values(|m: MonitorView| m.output)
}

/// Whether a modeline line occurs at or after `i`, before the next
/// connected-output line.
pub open spec fn has_ml(lines: Seq<Seq<char>>, i: int) -> bool
    decreases lines.len() - i,
        when 0 <= i <= lines.len()
{
    if i >= lines.len() {
        false
    } else if is_output_line(lines[i]) {
        false
    } else if is_modeline_line(lines[i]) {
        true
    } else {
        has_ml(lines, i + 1)
    }
}

/// The names of the connected-output lines from `i` on whose block holds at
/// least one modeline line, in report order.
pub open spec fn connected_names(lines: Seq<Seq<char>>, i: int) -> Seq<Seq<char>>
    decreases lines.len() - i,
        when 0 <= i <= lines.len()
{
    if i >= lines.len() {
        Seq::empty()
    } else if is_output_line(lines[i]) {
        (if has_ml(lines, i + 1) {
            seq![output_name(lines[i])]
        } else {
            Seq::empty()
        }) + connected_names(lines, i + 1)
    } else {
        connected_names(lines, i + 1)
    }
}

/// The monitor under construction contributes its name exactly when it has a
/// modeline already or one still follows before the next output line.
pub open spec fn current_contrib(st: ParseState, lines: Seq<Seq<char>>, i: int) -> Seq<Seq<char>> {
    match st.current {
        None => Seq::empty(),
        Some(c) => if c.modelines.len() > 0 || has_ml(lines, i) {
            seq![c.output]
        } else {
            Seq::empty()
        },
    }
}

proof fn lemma_parse_from_names(lines: Seq<Seq<char>>, i: int, st: ParseState)
    requires
        0 <= i <= lines.len(),
    ensures
        parse_from(lines, i, st) matches Ok(ms) ==> names_of(ms) == names_of(st.done)
            + current_contrib(st, lines, i) + connected_names(lines, i),
    decreases lines.len() - i,
{
    if parse_from(lines, i, st) is Ok {
        let ms = parse_from(lines, i, st)->Ok_0;
        assert(names_of(flush(st)) =~= names_of(st.done) + (match st.current {
            None => Seq::<Seq<char>>::empty(),
            Some(c) => if c.modelines.len() > 0 {
                seq![c.output]
            } else {
                Seq::<Seq<char>>::empty()
            },
        }));
        if i >= lines.len() {
        } else {
            let l = lines[i];
            if is_output_line(l) {
                let st2 = ParseState {
                    done: flush(st),
                    current: Some(MonitorView { output: output_name(l), modelines: Seq::empty() }),
                };
                lemma_parse_from_names(lines, i + 1, st2);
                assert(names_of(ms) =~= names_of(st.done) + current_contrib(st, lines, i)
                    + connected_names(lines, i));
            } else if is_modeline_line(l) {
                let c = st.current->Some_0;
                let st2 = ParseState {
                    done: st.done,
                    current: Some(
                        MonitorView { output: c.output, modelines: c.modelines.push(ml_of(l)) },
                    ),
                };
                lemma_parse_from_names(lines, i + 1, st2);
                assert(names_of(ms) =~= names_of(st.done) + current_contrib(st, lines, i)
                    + connected_names(lines, i));
            } else {
                lemma_parse_from_names(lines, i + 1, st);
                assert(names_of(ms) =~= names_of(st.done) + current_contrib(st, lines, i)
                    + connected_names(lines, i));
            }
        }
    }
}

/// On a successful parse, the monitors before the final sort are exactly the
/// connected outputs that advertise a modeline, one monitor each, in report
/// order; the final result is that list stably sorted by descending best
/// width: a permutation, widest first.
pub proof fn lemma_parse_yields_connected(t: Seq<char>)
    ensures
        parse_from(lines_of(t), 0, init_state()) matches Ok(ms) ==> {
            &&& names_of(ms) == connected_names(lines_of(t), 0)
            &&& parse_monitors_spec(t) == Ok::<Seq<MonitorView>, ParseError>(
                sort_desc(ms, mon_key()),
            )
            &&& sort_desc(ms, mon_key()).to_multiset() == ms.to_multiset()
            &&& sort_desc(ms, mon_key()).len() == ms.len()
            &&& sorted_desc_by(sort_desc(ms, mon_key()), mon_key())
        },
{
    lemma_parse_from_names(lines_of(t), 0, init_state());
    if parse_from(lines_of(t), 0, init_state()) is Ok {
        let ms = parse_from(lines_of(t), 0, init_state())->Ok_0;
        assert(names_of(ms) =~= names_of(init_state().done) + current_contrib(
            init_state(),
            lines_of(t),
            0,
        ) + connected_names(lines_of(t), 0));
        lemma_sort_desc(ms, mon_key());
    }
}

/// Every monitor a successful parse returns is well-formed.
pub proof fn lemma_parse_monitors_wf(t: Seq<char>)
    ensures
        parse_monitors_spec(t) matches Ok(ms) ==> forall|q: int|
            0 <= q < ms.len() ==> (#[trigger] ms[q]).wf(),
{
    broadcast use group_to_multiset_ensures;

    lemma_parse_from_wf(lines_of(t), 0, init_state());
    if parse_from(lines_of(t), 0, init_state()) is Ok {
        let raw = parse_from(lines_of(t), 0, init_state())->Ok_0;
        lemma_sort_desc(raw, mon_key());
        let sorted = sort_desc(raw, mon_key());
        assert forall|q: int| 0 <= q < sorted.len() implies (#[trigger] sorted[q]).wf() by {
            assert(sorted.to_multiset().count(sorted[q]) > 0);
            assert(raw.contains(sorted[q]));
        }
    }
}

// ---------------------------------------------------------------------------
// Keeping vectors in stable descending order.
// ---------------------------------------------------------------------------

fn insert_modeline_sorted(v: &mut Vec<Modeline>, m: Modeline)
    ensures
        final(v)@ == insert_desc(old(v)@, m, ml_key()),
{
    let n = v.len();
    let mut p: usize = 0;
    let mut stop = false;
    while !stop && p < n
        invariant
            n == v@.len(),
            p <= n,
            forall|j: int| 0 <= j < p ==> (#[trigger] v@[j]).width >= m.width,
            stop ==> p < n && v@[p as int].width < m.width,
        decreases n - p, !stop as int,
    {
        if v[p].width >= m.width {
            p = p + 1;
        } else {
            stop = true;
        }
    }
    proof {
        lemma_insert_pos_is(v@, ml_key()(m), ml_key(), p as int);
    }
    v.insert(p, m);
}

fn insert_monitor_sorted(v: &mut Vec<Monitor>, m: Monitor)
    requires
        m.deep_view().modelines.len() >= 1,
        forall|q: int|
            0 <= q < old(v).deep_view().len() ==> (#[trigger] old(v).deep_view()[q]).modelines.len()
                >= 1,
    ensures
        final(v).deep_view() == insert_desc(old(v).deep_view(), m.deep_view(), mon_key()),
        forall|q: int|
            0 <= q < final(v).deep_view().len() ==> (#[trigger] final(v).deep_view()[q]).modelines.len() >= 1,
{
    let n = v.len();
    let w = m.modelines[0].width;
    let mut p: usize = 0;
    let mut stop = false;
    while !stop && p < n
        invariant
            n == v@.len(),
            p <= n,
            w == m.deep_view().modelines[0].width,
            forall|q: int|
                0 <= q < v.deep_view().len() ==> (#[trigger] v.deep_view()[q]).modelines.len()
                    >= 1,
            forall|j: int| 0 <= j < p ==> (#[trigger] v.deep_view()[j]).modelines[0].width >= w,
            stop ==> p < n && v.deep_view()[p as int].modelines[0].width < w,
        decreases n - p, !stop as int,
    {
        proof {
            assert(v.deep_view()[p as int].modelines == v@[p as int].modelines@);
        }
        if v[p].modelines[0].width >= w {
            p = p + 1;
        } else {
            stop = true;
        }
    }
    proof {
        lemma_insert_pos_is(v.deep_view(), mon_key()(m.deep_view()), mon_key(), p as int);
    }
    let ghost old_deep = v.deep_view();
    v.insert(p, m);
    proof {
        assert(v.deep_view() =~= old_deep.insert(p as int, m.deep_view()));
    }
}

fn sort_monitors(v: Vec<Monitor>) -> (r: Vec<Monitor>)
    requires
        forall|q: int|
            0 <= q < v.deep_view().len() ==> (#[trigger] v.deep_view()[q]).modelines.len() >= 1,
    ensures
        r.deep_view() == sort_desc(v.deep_view(), mon_key()),
        forall|q: int|
            0 <= q < r.deep_view().len() ==> (#[trigger] r.deep_view()[q]).modelines.len() >= 1,
{
    let ghost orig = v.deep_view();
    let mut src = v;
    let mut dst: Vec<Monitor> = Vec::new();
    let ghost mut processed: Seq<MonitorView> = Seq::empty();
    proof {
        assert(processed + src.deep_view() =~= orig);
        assert(dst.deep_view() =~= sort_desc(processed, mon_key()));
    }
    while src.len() > 0
        invariant
            processed + src.deep_view() == orig,
            dst.deep_view() == sort_desc(processed, mon_key()),
            forall|q: int|
                0 <= q < orig.len() ==> (#[trigger] orig[q]).modelines.len() >= 1,
            forall|q: int|
                0 <= q < src.deep_view().len() ==> (#[trigger] src.deep_view()[q]).modelines.len()
                    >= 1,
            forall|q: int|
                0 <= q < dst.deep_view().len() ==> (#[trigger] dst.deep_view()[q]).modelines.len()
                    >= 1,
        decreases src@.len(),
    {
        let ghost old_src = src.deep_view();
        let m = src.remove(0);
        proof {
            assert(src.deep_view() =~= old_src.skip(1));
            assert(m.deep_view() == old_src[0]);
            assert(processed.push(m.deep_view()) + src.deep_view() =~= orig);
            assert(processed.push(m.deep_view()).drop_last() =~= processed);
        }
        insert_monitor_sorted(&mut dst, m);
        proof {
            processed = processed.push(m.deep_view());
        }
    }
    proof {
        assert(src.deep_view() =~= Seq::<MonitorView>::empty());
        assert(processed =~= orig);
    }
    dst
}

// ---------------------------------------------------------------------------
// The parser itself.
// ---------------------------------------------------------------------------

/// The state the executable parser carries, as the specification sees it.
pub open spec fn current_of(name: Option<String>, raw: Seq<Modeline>) -> Option<MonitorView> {
    match name {
        Some(nm) => Some(MonitorView { output: nm@, modelines: raw }),
        None => None,
    }
}

fn flush_current(
    done: &mut Vec<Monitor>,
    name: Option<String>,
    mls: Vec<Modeline>,
    Ghost(raw): Ghost<Seq<Modeline>>,
)
    requires
        mls@ == sort_desc(raw, ml_key()),
        name is None ==> raw.len() == 0,
        forall|q: int|
            0 <= q < old(done).deep_view().len() ==> (#[trigger] old(done).deep_view()[q]).modelines.len() >= 1,
    ensures
        final(done).deep_view() == flush(
            ParseState { done: old(done).deep_view(), current: current_of(name, raw) },
        ),
        forall|q: int|
            0 <= q < final(done).deep_view().len() ==> (#[trigger] final(done).deep_view()[q]).modelines.len() >= 1,
{
    proof {
        lemma_sort_desc(raw, ml_key());
    }
    match name {
        Some(nm) => {
            if mls.len() > 0 {
                let ghost old_deep = done.deep_view();
                let m = Monitor::new(nm, mls);
                done.push(m);
                proof {
                    assert(done.deep_view() =~= old_deep.push(m.deep_view()));
                    assert(m.deep_view() =~= finalize(
                        MonitorView { output: nm@, modelines: raw },
                    ));
                }
            }
        },
        None => {},
    }
}

/// Parses the status report into the ordered monitor list: one monitor per
/// connected output that advertises at least one modeline, each monitor's
/// modelines in stable descending-width order, and the monitors themselves in
/// stable descending order of best width. Fails exactly when a
/// modeline-shaped line precedes any connected output, or a numeric field
/// cannot be held exactly.
pub fn parse_monitors(input: &str) -> (r: Result<Vec<Monitor>, ParseError>)
    ensures
        match r {
            Ok(v) => parse_monitors_spec(input@) matches Ok(ms) && v.deep_view() == ms,
            Err(e) => parse_monitors_spec(input@) == Err::<Seq<MonitorView>, ParseError>(e),
        },
        r matches Ok(v) ==> forall|q: int|
            0 <= q < v.deep_view().len() ==> (#[trigger] v.deep_view()[q]).modelines.len() >= 1,
{
    let lines = split_lines(input);
    let ghost ld = lines.deep_view();
    let nl = lines.len();
    let mut done: Vec<Monitor> = Vec::new();
    let mut cur_name: Option<String> = None;
    let mut cur_mls: Vec<Modeline> = Vec::new();
    let ghost mut raw: Seq<Modeline> = Seq::empty();
    let mut idx: usize = 0;
    proof {
        assert(sort_desc(raw, ml_key()) =~= Seq::<Modeline>::empty());
        assert(done.deep_view() =~= Seq::<MonitorView>::empty());
        assert((ParseState { done: done.deep_view(), current: current_of(cur_name, raw) })
            =~= init_state());
    }
    while idx < nl
        invariant
            lines.deep_view() == ld,
            ld == lines_of(input@),
            nl == lines@.len(),
            idx <= nl,
            cur_mls@ == sort_desc(raw, ml_key()),
            cur_name is None ==> raw.len() == 0,
            forall|q: int|
                0 <= q < done.deep_view().len() ==> (#[trigger] done.deep_view()[q]).modelines.len()
                    >= 1,
            parse_from(ld, 0, init_state()) == parse_from(
                ld,
                idx as int,
                ParseState { done: done.deep_view(), current: current_of(cur_name, raw) },
            ),
        decreases nl - idx,
    {
        let ghost st = ParseState { done: done.deep_view(), current: current_of(cur_name, raw) };
        let line = lines[idx];
        proof {
            assert(line@ == ld[idx as int]);
        }
        match classify_output(line) {
            Some(name) => {
                let prev_name = cur_name;
                let prev_mls = cur_mls;
                cur_name = Some(name);
                cur_mls = Vec::new();
                flush_current(&mut done, prev_name, prev_mls, Ghost(raw));
                proof {
                    raw = Seq::empty();
                    assert(sort_desc(raw, ml_key()) =~= Seq::<Modeline>::empty());
                    assert(cur_mls@ =~= sort_desc(raw, ml_key()));
                    let st2 = ParseState {
                        done: done.deep_view(),
                        current: current_of(cur_name, raw),
                    };
                    assert(st2 =~= (ParseState {
                        done: flush(st),
                        current: Some(
                            MonitorView {
                                output: output_name(ld[idx as int]),
                                modelines: Seq::empty(),
                            },
                        ),
                    }));
                }
            },
            None => {
                match parse_modeline(line) {
                    Err(e) => {
                        proof {
                            assert(is_modeline_line(ld[idx as int]));
                            assert(e == ParseError::MalformedReport);
                            assert(parse_from(ld, idx as int, st) == Err::<
                                Seq<MonitorView>,
                                ParseError,
                            >(e));
                        }
                        return Err(e);
                    },
                    Ok(Some(ml)) => {
                        if cur_name.is_none() {
                            proof {
                                assert(st.current is None);
                                assert(parse_from(ld, idx as int, st) == Err::<
                                    Seq<MonitorView>,
                                    ParseError,
                                >(ParseError::MalformedReport));
                            }
                            return Err(ParseError::MalformedReport);
                        }
                        insert_modeline_sorted(&mut cur_mls, ml);
                        proof {
                            let old_raw = raw;
                            raw = raw.push(ml);
                            assert(raw.drop_last() =~= old_raw);
                            assert(raw.last() == ml);
                            assert(cur_mls@ == sort_desc(raw, ml_key()));
                            let st2 = ParseState {
                                done: done.deep_view(),
                                current: current_of(cur_name, raw),
                            };
                            let c = st.current->Some_0;
                            assert(st2 =~= (ParseState {
                                done: st.done,
                                current: Some(
                                    MonitorView {
                                        output: c.output,
                                        modelines: c.modelines.push(ml_of(ld[idx as int])),
                                    },
                                ),
                            }));
                        }
                    },
                    Ok(None) => {
                    },
                }
            },
        }
        idx = idx + 1;
    }
    let prev_name = cur_name;
    let prev_mls = cur_mls;
    flush_current(&mut done, prev_name, prev_mls, Ghost(raw));
    let sorted = sort_monitors(done);
    Ok(sorted)
}

/// Parses the status report into the ordered screen configurations the
/// argument builder consumes.
pub fn parse_screens(input: &str) -> (r: Result<Vec<Screen>, ParseError>)
    ensures
        match r {
            Ok(v) => parse_screens_spec(input@) matches Ok(ss) && v.deep_view() == ss,
            Err(e) => parse_screens_spec(input@) == Err::<Seq<ScreenView>, ParseError>(e),
        },
{
    let mut monitors = match parse_monitors(input) {
        Ok(v) => v,
        Err(e) => {
            return Err(e);
        },
    };
    let ghost ms = parse_monitors_spec(input@)->Ok_0;
    let ghost total = ms.len();
    let mut out: Vec<Screen> = Vec::new();
    proof {
        assert(monitors.deep_view() =~= ms.skip(0));
    }
    while monitors.len() > 0
        invariant
            monitors.deep_view() == ms.skip(total - monitors@.len()),
            monitors@.len() <= total == ms.len(),
            forall|q: int| 0 <= q < ms.len() ==> (#[trigger] ms[q]).modelines.len() >= 1,
            out.deep_view().len() == total - monitors@.len(),
            forall|q: int|
                0 <= q < out.deep_view().len() ==> #[trigger] out.deep_view()[q] == screen_of(
                    ms[q],
                ),
        decreases monitors@.len(),
    {
        let ghost k = total - monitors@.len();
        let ghost old_deep = monitors.deep_view();
        let m = monitors.remove(0);
        proof {
            assert(m.deep_view() == old_deep[0]);
            assert(old_deep[0] == ms[k]);
            assert(monitors.deep_view() =~= old_deep.skip(1));
            assert(monitors.deep_view() =~= ms.skip(k + 1));
        }
        let ghost old_out = out.deep_view();
        let s = Screen::from(m);
        out.push(s);
        proof {
            assert(out.deep_view() =~= old_out.push(s.deep_view()));
        }
    }
    proof {
        let ss = parse_screens_spec(input@)->Ok_0;
        assert(out.deep_view() =~= ss);
    }
    Ok(out)
}

} // verus!
