//! Builds a bias table from line-oriented `symbol<delim>weight` input.
//!
//! Each non-blank line contributes one record: its first byte is the symbol,
//! its second byte is a delimiter whose value is ignored, and the rest of the
//! line, trimmed of surrounding whitespace, is a decimal weight. A blank line
//! or the end of the input ends the table; anything else is a format error
//! that reports the 0-indexed line number.

use vstd::prelude::*;
use vstd::arithmetic::div_mod::lemma_fundamental_div_mod;
use vstd::arithmetic::div_mod::lemma_mod_division_less_than_divisor;
use crate::bias::BiasError;
use crate::bias::BiasTable;
use crate::bias::Record;
use crate::bias::apply_records;
use crate::bias::empty_view;
use crate::bias::sum_amounts;
use crate::laws::lemma_apply_records_push;
use crate::laws::lemma_sum_amounts_push;
use crate::laws::lemma_sum_amounts_take_le;
use crate::laws::lemma_weight_conservation;

verus! {

/// ASCII whitespace, as trimmed around the weight field and as the content
/// of a blank line.
pub open spec fn is_ws(b: u8) -> bool {
    b == 32 || b == 9 || b == 10 || b == 13 || b == 11 || b == 12
}

/// A line of nothing but whitespace; such a line ends the table early.
pub open spec fn is_blank(line: Seq<u8>) -> bool {
    forall|i: int| 0 <= i < line.len() ==> is_ws(#[trigger] line[i])
}

/// An ASCII decimal digit.
pub open spec fn is_digit(b: u8) -> bool {
    48 <= b <= 57
}

pub open spec fn all_digits(s: Seq<u8>) -> bool {
    forall|i: int| 0 <= i < s.len() ==> is_digit(#[trigger] s[i])
}

/// The value of a decimal digit string.
pub open spec fn digits_val(s: Seq<u8>) -> nat
    decreases s.len(),
{
    if s.len() == 0 {
        0
    } else {
        (digits_val(s.drop_last()) * 10 + (s.last() - 48)) as nat
    }
}

pub open spec fn trim_front(s: Seq<u8>) -> Seq<u8>
    decreases s.len(),
{
    if s.len() > 0 && is_ws(s[0]) {
        trim_front(s.drop_first())
    } else {
        s
    }
}

pub open spec fn trim_back(s: Seq<u8>) -> Seq<u8>
    decreases s.len(),
{
    if s.len() > 0 && is_ws(s.last()) {
        trim_back(s.drop_last())
    } else {
        s
    }
}

/// `s` with leading and trailing whitespace removed.
pub open spec fn trim_spec(s: Seq<u8>) -> Seq<u8> {
    trim_back(trim_front(s))
}

/// A weight field that parses: a nonempty digit string whose value fits the
/// machine word.
pub open spec fn weight_field_ok(f: Seq<u8>) -> bool {
    f.len() > 0 && all_digits(f) && digits_val(f) <= usize::MAX
}

/// The trimmed weight field of a line: everything past the symbol byte and
/// the one-byte delimiter.
pub open spec fn weight_field(line: Seq<u8>) -> Seq<u8> {
    trim_spec(line.skip(2))
}

/// A well-formed table line: a symbol byte, a delimiter byte, and a weight
/// field that parses.
pub open spec fn line_ok(line: Seq<u8>) -> bool {
    line.len() >= 2 && weight_field_ok(weight_field(line))
}

/// The record a well-formed line contributes.
pub open spec fn line_record(line: Seq<u8>) -> Record {
    (line[0], digits_val(weight_field(line)))
}

/// Index of the first newline in `s`, or -1 if there is none.
pub open spec fn find_nl(s: Seq<u8>) -> int
    decreases s.len(),
{
    if s.len() == 0 {
        -1
    } else if s[0] == 10 {
        0
    } else if find_nl(s.drop_first()) < 0 {
        -1
    } else {
        1 + find_nl(s.drop_first())
    }
}

/// The lines of `s`: the segments between newlines, exclusive of the
/// newlines themselves. Input without a final newline still yields its last
/// segment, so the list is never empty.
pub open spec fn lines_of(s: Seq<u8>) -> Seq<Seq<u8>>
    decreases s.len(),
{
    let i = find_nl(s);
    if 0 <= i < s.len() {
        seq![s.subrange(0, i)] + lines_of(s.subrange(i + 1, s.len() as int))
    } else {
        seq![s]
    }
}

/// How many leading lines are well-formed, non-blank records.
pub open spec fn parsed_len(lines: Seq<Seq<u8>>) -> nat
    decreases lines.len(),
{
    if lines.len() == 0 {
        0
    } else if is_blank(lines[0]) || !line_ok(lines[0]) {
        0
    } else {
        1 + parsed_len(lines.drop_first())
    }
}

/// The records of the leading well-formed, non-blank lines.
pub open spec fn records_of(lines: Seq<Seq<u8>>) -> Seq<Record> {
    Seq::new(parsed_len(lines), |i: int| line_record(lines[i]))
}

/// Parsing stops cleanly: at a blank line or at the end of the input, never
/// at a malformed line.
pub open spec fn ends_clean(lines: Seq<Seq<u8>>) -> bool {
    parsed_len(lines) == lines.len() || is_blank(lines[parsed_len(lines) as int])
}

proof fn lemma_parsed_len_at(lines: Seq<Seq<u8>>, m: int)
    requires
        0 <= m <= lines.len(),
        forall|k: int| 0 <= k < m ==> !is_blank(#[trigger] lines[k]) && line_ok(lines[k]),
        m < lines.len() ==> is_blank(lines[m]) || !line_ok(lines[m]),
    ensures
        parsed_len(lines) == m,
    decreases m,
{
    if m > 0 {
        lemma_parsed_len_at(lines.drop_first(), m - 1);
    }
}

proof fn lemma_parsed_len_ge(lines: Seq<Seq<u8>>, m: int)
    requires
        0 <= m <= lines.len(),
        forall|k: int| 0 <= k < m ==> !is_blank(#[trigger] lines[k]) && line_ok(lines[k]),
    ensures
        parsed_len(lines) >= m,
    decreases m,
{
    if m > 0 {
        lemma_parsed_len_ge(lines.drop_first(), m - 1);
    }
}

proof fn lemma_digits_val_step(s: Seq<u8>, i: int)
    requires
        0 <= i < s.len(),
    ensures
        digits_val(s.subrange(0, i + 1)) == (digits_val(s.subrange(0, i)) * 10 + (s[i]
            - 48)) as nat,
{
    let p = s.subrange(0, i + 1);
    assert(p.drop_last() =~= s.subrange(0, i));
    assert(p.last() == s[i]);
}

proof fn lemma_digits_val_prefix_le(s: Seq<u8>, i: int)
    requires
        0 <= i <= s.len(),
        all_digits(s),
    ensures
        digits_val(s.subrange(0, i)) <= digits_val(s),
    decreases s.len() - i,
{
    if i == s.len() {
        assert(s.subrange(0, i) =~= s);
    } else {
        lemma_digits_val_step(s, i);
        lemma_digits_val_prefix_le(s, i + 1);
    }
}

proof fn lemma_trim_front_skip(s: Seq<u8>, a: int)
    requires
        0 <= a <= s.len(),
        forall|k: int| 0 <= k < a ==> is_ws(#[trigger] s[k]),
    ensures
        trim_front(s) == trim_front(s.skip(a)),
    decreases a,
{
    if a == 0 {
        assert(s.skip(0) =~= s);
    } else {
        assert(s.drop_first() =~= s.skip(1));
        lemma_trim_front_skip(s.skip(1), a - 1);
        assert(s.skip(1).skip(a - 1) =~= s.skip(a));
    }
}

proof fn lemma_trim_back_take(s: Seq<u8>, b: int)
    requires
        0 <= b <= s.len(),
        forall|k: int| b <= k < s.len() ==> is_ws(#[trigger] s[k]),
    ensures
        trim_back(s) == trim_back(s.take(b)),
    decreases s.len() - b,
{
    if b == s.len() {
        assert(s.take(b) =~= s);
    } else {
        assert(s.drop_last() =~= s.take(s.len() - 1));
        lemma_trim_back_take(s.drop_last(), b);
        assert(s.drop_last().take(b) =~= s.take(b));
    }
}

proof fn lemma_find_nl_at(s: Seq<u8>, i: int)
    requires
        0 <= i <= s.len(),
        forall|k: int| 0 <= k < i ==> s[k] != 10,
        i < s.len() ==> s[i] == 10,
    ensures
        i < s.len() ==> find_nl(s) == i,
        i == s.len() ==> find_nl(s) == -1,
    decreases i, s.len(),
{
    if i == 0 {
        if s.len() > 0 && i == s.len() {
        }
    } else {
        assert(s.drop_first() =~= s.skip(1));
        lemma_find_nl_at(s.drop_first(), i - 1);
    }
}

proof fn lemma_find_nl_none(s: Seq<u8>)
    requires
        forall|k: int| 0 <= k < s.len() ==> s[k] != 10,
    ensures
        find_nl(s) == -1,
    decreases s.len(),
{
    if s.len() > 0 {
        lemma_find_nl_none(s.drop_first());
    }
}

proof fn lemma_lines_of_split(s: Seq<u8>, j: int)
    requires
        0 <= j <= s.len(),
        forall|k: int| 0 <= k < j ==> s[k] != 10,
        j < s.len() ==> s[j] == 10,
    ensures
        j < s.len() ==> lines_of(s) == seq![s.subrange(0, j)] + lines_of(s.skip(j + 1)),
        j == s.len() ==> lines_of(s) == seq![s],
{
    if j < s.len() {
        lemma_find_nl_at(s, j);
        assert(s.subrange(j + 1, s.len() as int) =~= s.skip(j + 1));
    } else {
        lemma_find_nl_none(s);
    }
}

fn is_ws_byte(b: u8) -> (r: bool)
    ensures
        r == is_ws(b),
{
    b == 32 || b == 9 || b == 10 || b == 13 || b == 11 || b == 12
}

/// Parses a trimmed weight field as a non-negative decimal integer. `None`
/// exactly when the field is empty, holds a non-digit byte, or encodes a
/// value too large for the machine word.
fn parse_weight(field: &[u8]) -> (r: Option<usize>)
    ensures
        match r {
            Some(v) => weight_field_ok(field@) && v == digits_val(field@),
            None => !weight_field_ok(field@),
        },
{
    let n = field.len();
    if n == 0 {
        return None;
    }
    let mut val: usize = 0;
    let mut i: usize = 0;
    while i < n
        invariant
            n == field@.len(),
            i <= n,
            all_digits(field@.subrange(0, i as int)),
            val == digits_val(field@.subrange(0, i as int)),
        decreases n - i,
    {
        let b = field[i];
        if b < 48 || b > 57 {
            proof {
                assert(!is_digit(field@[i as int]));
            }
            return None;
        }
        let d = (b - 48) as usize;
        proof {
            lemma_digits_val_step(field@, i as int);
            lemma_fundamental_div_mod(usize::MAX - d, 10);
            lemma_mod_division_less_than_divisor(usize::MAX - d, 10);
        }
        if val > (usize::MAX - d) / 10 {
            proof {
                if all_digits(field@) {
                    lemma_digits_val_prefix_le(field@, i + 1);
                }
            }
            return None;
        }
        val = val * 10 + d;
        i += 1;
    }
    proof {
        assert(field@.subrange(0, n as int) =~= field@);
    }
    Some(val)
}

/// What one line of input turned out to be.
enum LineStatus {
    /// Whitespace only; ends the table.
    Blank,
    /// A well-formed record: the symbol byte and the parsed weight.
    Rec(u8, usize),
    /// Neither blank nor well-formed.
    Bad,
}

/// Classifies one line (without its newline byte).
fn parse_line(line: &[u8]) -> (r: LineStatus)
    ensures
        match r {
            LineStatus::Blank => is_blank(line@),
            LineStatus::Rec(c, w) => !is_blank(line@) && line_ok(line@) && c == line@[0] && w
                == digits_val(weight_field(line@)),
            LineStatus::Bad => !is_blank(line@) && !line_ok(line@),
        },
{
    let n = line.len();
    let mut i: usize = 0;
    while i < n && is_ws_byte(line[i])
        invariant
            n == line@.len(),
            i <= n,
            forall|k: int| 0 <= k < i ==> is_ws(#[trigger] line@[k]),
        decreases n - i,
    {
        i += 1;
    }
    if i == n {
        return LineStatus::Blank;
    }
    proof {
        assert(!is_ws(line@[i as int]));
        assert(!is_blank(line@));
    }
    if n < 2 {
        return LineStatus::Bad;
    }
    // Locate the weight field: the first and last non-whitespace bytes past
    // the symbol and the delimiter.
    let mut t0: usize = 2;
    while t0 < n && is_ws_byte(line[t0])
        invariant
            n == line@.len(),
            2 <= t0 <= n,
            forall|k: int| 2 <= k < t0 ==> is_ws(#[trigger] line@[k]),
        decreases n - t0,
    {
        t0 += 1;
    }
    if t0 == n {
        // The whole field is whitespace, so it trims to nothing.
        proof {
            let u = line@.skip(2);
            lemma_trim_front_skip(u, n - 2);
            assert(u.skip(n - 2) =~= Seq::<u8>::empty());
        }
        return LineStatus::Bad;
    }
    let mut t1: usize = n;
    while t1 > t0 && is_ws_byte(line[t1 - 1])
        invariant
            n == line@.len(),
            t0 < n,
            !is_ws(line@[t0 as int]),
            t0 < t1 <= n,
            forall|k: int| t1 <= k < n ==> is_ws(#[trigger] line@[k]),
        decreases t1,
    {
        proof {
            if t1 - 1 == t0 {
                assert(false);
            }
        }
        t1 -= 1;
    }
    let field = vstd::slice::slice_subrange(line, t0, t1);
    proof {
        let u = line@.skip(2);
        lemma_trim_front_skip(u, t0 - 2);
        assert(u.skip(t0 - 2) =~= line@.skip(t0 as int));
        let v = line@.skip(t0 as int);
        lemma_trim_back_take(v, t1 - t0);
        assert(v.take(t1 - t0) =~= line@.subrange(t0 as int, t1 as int));
        assert(weight_field(line@) == field@);
    }
    match parse_weight(field) {
        Some(v) => LineStatus::Rec(line[0], v),
        None => LineStatus::Bad,
    }
}

/// Builds a table from raw input bytes.
///
/// On success the table is exactly the fold of the records of the leading
/// well-formed lines, stopped by a blank line or the end of the input. A
/// malformed line yields `BiasError::Format` with its 0-indexed number; a
/// weight total beyond the machine word yields `BiasError::Overflow`.
pub fn load_bias(input: &[u8]) -> (r: Result<BiasTable, BiasError>)
    requires
        input@.len() < usize::MAX,
    ensures
        ({
            let lines = lines_of(input@);
            let recs = records_of(lines);
            match r {
                Ok(table) => table.wf() && ends_clean(lines) && sum_amounts(recs) <= usize::MAX
                    && table@ == apply_records(empty_view(), recs),
                Err(BiasError::Overflow) => sum_amounts(recs) > usize::MAX,
                Err(BiasError::Format { line }) => !ends_clean(lines) && sum_amounts(recs)
                    <= usize::MAX && line == parsed_len(lines),
            }
        }),
{
    let ghost lines = lines_of(input@);
    let mut table = BiasTable::new();
    let n = input.len();
    let mut pos: usize = 0;
    let mut idx: usize = 0;
    proof {
        assert(input@.skip(0) =~= input@);
        assert(lines.take(0) + lines_of(input@.skip(0)) =~= lines);
        assert(Seq::new(0, |q: int| line_record(lines[q])) =~= Seq::<Record>::empty());
    }
    while pos <= n
        invariant
            n == input@.len(),
            n < usize::MAX,
            lines == lines_of(input@),
            pos <= n + 1,
            idx <= pos,
            idx <= lines.len(),
            table.wf(),
            forall|k: int| 0 <= k < idx ==> !is_blank(#[trigger] lines[k]) && line_ok(lines[k]),
            table@ == apply_records(
                empty_view(),
                Seq::new(idx as nat, |q: int| line_record(lines[q])),
            ),
            pos <= n ==> lines == lines.take(idx as int) + lines_of(input@.skip(pos as int)),
            pos == n + 1 ==> idx == lines.len(),
        decreases n + 1 - pos,
    {
        let mut j: usize = pos;
        while j < n && input[j] != 10
            invariant
                n == input@.len(),
                pos <= j <= n,
                forall|k: int| pos <= k < j ==> input@[k] != 10,
            decreases n - j,
        {
            j += 1;
        }
        let line = vstd::slice::slice_subrange(input, pos, j);
        proof {
            let s = input@.skip(pos as int);
            lemma_lines_of_split(s, j - pos);
            assert(s.subrange(0, j - pos) =~= line@);
            if j < n {
                assert(s.skip(j - pos + 1) =~= input@.skip(j + 1));
            }
            assert(lines[idx as int] == line@);
            assert(idx < lines.len());
        }
        match parse_line(line) {
            LineStatus::Blank => {
                proof {
                    lemma_parsed_len_at(lines, idx as int);
                    assert(records_of(lines) =~= Seq::new(
                        idx as nat,
                        |q: int| line_record(lines[q]),
                    ));
                    lemma_weight_conservation(empty_view(), records_of(lines));
                }
                return Ok(table);
            },
            LineStatus::Bad => {
                proof {
                    lemma_parsed_len_at(lines, idx as int);
                    assert(records_of(lines) =~= Seq::new(
                        idx as nat,
                        |q: int| line_record(lines[q]),
                    ));
                    lemma_weight_conservation(empty_view(), records_of(lines));
                }
                return Err(BiasError::Format { line: idx });
            },
            LineStatus::Rec(c, w) => {
                let ghost prev_recs = Seq::new(idx as nat, |q: int| line_record(lines[q]));
                let res = table.accumulate(c, w);
                proof {
                    lemma_apply_records_push(empty_view(), prev_recs, (c, w as nat));
                    lemma_weight_conservation(empty_view(), prev_recs);
                    lemma_sum_amounts_push(prev_recs, (c, w as nat));
                    lemma_parsed_len_ge(lines, idx as int + 1);
                    assert(prev_recs.push((c, w as nat)) =~= Seq::new(
                        (idx + 1) as nat,
                        |q: int| line_record(lines[q]),
                    ));
                }
                match res {
                    Err(e) => {
                        proof {
                            assert(records_of(lines).take(idx as int + 1) =~= prev_recs.push(
                                (c, w as nat),
                            ));
                            lemma_sum_amounts_take_le(records_of(lines), idx as int + 1);
                        }
                        return Err(e);
                    },
                    Ok(()) => {},
                }
                idx = idx + 1;
                pos = j + 1;
                proof {
                    if pos <= n {
                        assert(lines.take(idx as int) =~= lines.take(idx as int - 1) + seq![
                            lines[idx as int - 1],
                        ]);
                        assert(lines =~= lines.take(idx as int) + lines_of(
                            input@.skip(pos as int),
                        ));
                    } else {
                        assert(idx == lines.len());
                    }
                }
            },
        }
    }
    proof {
        lemma_parsed_len_at(lines, lines.len() as int);
        assert(records_of(lines) =~= Seq::new(idx as nat, |q: int| line_record(lines[q])));
        lemma_weight_conservation(empty_view(), records_of(lines));
    }
    Ok(table)
}

} // verus!
