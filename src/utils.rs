//! The result file: one header line, then one `<path> - <lra>` line per
//! record. Reading a record line, writing records, and the sort that orders
//! them by loudness range, highest first, then by path.

use vstd::prelude::*;
use crate::decimal::{
    decimal_of, lemma_nat_digits, lemma_tenths_round_trip, parse_decimal, push_tenths,
    tenths_text, Decimal,
};
use crate::text::{
    all_space, chars_le, chars_of, find_last_sep, find_line_end, has_no_newline, is_space,
    last_sep, lemma_lex_total, lemma_lex_trans, lemma_lines_cons,
    lex_le, line_end, lines, push_str, sep_at, string_of, strip_cr, trim, trim_bounds, trim_end,
    trim_start,
};

verus! {

broadcast use vstd::seq_lib::group_to_multiset_ensures;

/// A record as the contracts see it: display path and tenths.
pub type RecordView = (Seq<char>, i64);

pub open spec fn record_view(e: (String, i64)) -> RecordView {
    (e.0@, e.1)
}

pub open spec fn records_view(v: Seq<(String, i64)>) -> Seq<RecordView> {
    Seq::new(v.len(), |i: int| record_view(v[i]))
}

/// `a` may stand before `b`: a higher loudness range first, and for equal
/// values the path that comes first in code point order.
pub open spec fn precedes(a: RecordView, b: RecordView) -> bool {
    a.1 > b.1 || (a.1 == b.1 && lex_le(a.0, b.0))
}

/// Non-increasing by loudness range, and non-decreasing by path among
/// equal values.
pub open spec fn sorted_by_lra(s: Seq<RecordView>) -> bool {
    forall|i: int, j: int| 0 <= i < j < s.len() ==> precedes(#[trigger] s[i], #[trigger] s[j])
}

/// `x` put into `s` after every record that may stand before it.
pub open spec fn insert_by_lra(x: RecordView, s: Seq<RecordView>) -> Seq<RecordView>
    decreases s.len(),
{
    if s.len() == 0 {
        seq![x]
    } else if precedes(s.last(), x) {
        s.push(x)
    } else {
        insert_by_lra(x, s.drop_last()).push(s.last())
    }
}

/// The records of `s` in sorted order.
pub open spec fn sort_by_lra(s: Seq<RecordView>) -> Seq<RecordView>
    decreases s.len(),
{
    if s.len() == 0 {
        s
    } else {
        insert_by_lra(s.last(), sort_by_lra(s.drop_last()))
    }
}

proof fn lemma_precedes_total(a: RecordView, b: RecordView)
    ensures
        precedes(a, b) || precedes(b, a),
{
    lemma_lex_total(a.0, b.0);
}

proof fn lemma_precedes_trans(a: RecordView, b: RecordView, c: RecordView)
    requires
        precedes(a, b),
        precedes(b, c),
    ensures
        precedes(a, c),
{
    if a.1 == b.1 && b.1 == c.1 {
        lemma_lex_trans(a.0, b.0, c.0);
    }
}

proof fn lemma_insert_below(x: RecordView, s: Seq<RecordView>, z: RecordView)
    requires
        precedes(x, z),
        forall|m: int| 0 <= m < s.len() ==> precedes(#[trigger] s[m], z),
    ensures
        insert_by_lra(x, s).len() == s.len() + 1,
        forall|m: int|
            0 <= m < insert_by_lra(x, s).len() ==> precedes(#[trigger] insert_by_lra(x, s)[m], z),
    decreases s.len(),
{
    if s.len() > 0 && !precedes(s.last(), x) {
        lemma_insert_below(x, s.drop_last(), z);
    }
}

proof fn lemma_insert_sorted(x: RecordView, s: Seq<RecordView>)
    requires
        sorted_by_lra(s),
    ensures
        sorted_by_lra(insert_by_lra(x, s)),
        insert_by_lra(x, s).to_multiset() == s.to_multiset().insert(x),
    decreases s.len(),
{
    if s.len() == 0 {
        assert(seq![x] =~= Seq::<RecordView>::empty().push(x));
    } else if precedes(s.last(), x) {
        let r = s.push(x);
        assert forall|i: int, j: int| 0 <= i < j < r.len() implies precedes(
            #[trigger] r[i],
            #[trigger] r[j],
        ) by {
            if j == s.len() && i < s.len() - 1 {
                lemma_precedes_trans(s[i], s.last(), x);
            }
        }
    } else {
        let t = s.drop_last();
        let y = s.last();
        lemma_insert_sorted(x, t);
        lemma_precedes_total(y, x);
        assert forall|m: int| 0 <= m < t.len() implies precedes(#[trigger] t[m], y) by {
            assert(precedes(s[m], s[s.len() - 1]));
        }
        lemma_insert_below(x, t, y);
        let it = insert_by_lra(x, t);
        let r = it.push(y);
        assert forall|i: int, j: int| 0 <= i < j < r.len() implies precedes(
            #[trigger] r[i],
            #[trigger] r[j],
        ) by {
            if j == it.len() {
                assert(precedes(it[i], y));
            } else {
                assert(precedes(it[i], it[j]));
            }
        }
        assert(t.push(y) =~= s);
    }
}

/// The sort orders the records.
pub proof fn lemma_sort_by_lra(s: Seq<RecordView>)
    ensures
        sorted_by_lra(sort_by_lra(s)),
        sort_by_lra(s).to_multiset() == s.to_multiset(),
    decreases s.len(),
{
    if s.len() > 0 {
        lemma_sort_by_lra(s.drop_last());
        lemma_insert_sorted(s.last(), sort_by_lra(s.drop_last()));
        assert(s.drop_last().push(s.last()) =~= s);
    }
}

/// Records already in order are left as they are.
pub proof fn lemma_sort_of_sorted(s: Seq<RecordView>)
    requires
        sorted_by_lra(s),
    ensures
        sort_by_lra(s) == s,
    decreases s.len(),
{
    if s.len() > 0 {
        let t = s.drop_last();
        assert(sorted_by_lra(t)) by {
            assert forall|i: int, j: int| 0 <= i < j < t.len() implies precedes(
                #[trigger] t[i],
                #[trigger] t[j],
            ) by {
                assert(precedes(s[i], s[j]));
            }
        }
        lemma_sort_of_sorted(t);
        if t.len() > 0 {
            assert(precedes(s[t.len() - 1], s[t.len() as int]));
        }
        assert(t.push(s.last()) =~= s);
    }
}

proof fn lemma_insert_at(x: RecordView, s: Seq<RecordView>, j: int)
    requires
        0 <= j <= s.len(),
        forall|m: int| j <= m < s.len() ==> !precedes(#[trigger] s[m], x),
        j > 0 ==> precedes(s[j - 1], x),
    ensures
        insert_by_lra(x, s) == s.insert(j, x),
    decreases s.len() - j,
{
    if j < s.len() {
        lemma_insert_at(x, s.drop_last(), j);
        assert(s.drop_last().insert(j, x).push(s.last()) =~= s.insert(j, x));
    } else {
        if s.len() > 0 {
            assert(s.push(x) =~= s.insert(j, x));
        } else {
            assert(seq![x] =~= s.insert(j, x));
        }
    }
}

fn precedes_exec(a_lra: i64, a_key: &Vec<char>, b_lra: i64, b_key: &Vec<char>) -> (r: bool)
    ensures
        r == precedes((a_key@, a_lra), (b_key@, b_lra)),
{
    a_lra > b_lra || (a_lra == b_lra && chars_le(a_key, b_key))
}

/// Sorts records by loudness range, highest first; records of equal value
/// by path, in code point order.
pub fn sort_entries_by_lra(entries: Vec<(String, i64)>) -> (r: Vec<(String, i64)>)
    ensures
        records_view(r@) == sort_by_lra(records_view(entries@)),
        sorted_by_lra(records_view(r@)),
        records_view(r@).to_multiset() == records_view(entries@).to_multiset(),
{
    let ghost s = records_view(entries@);
    let mut out: Vec<(String, i64)> = Vec::new();
    let mut keys: Vec<Vec<char>> = Vec::new();
    let mut i: usize = 0;
    while i < entries.len()
        invariant
            i <= entries.len(),
            s == records_view(entries@),
            records_view(out@) == sort_by_lra(s.take(i as int)),
            keys.len() == out.len(),
            forall|m: int| 0 <= m < keys.len() ==> (#[trigger] keys@[m])@ == out@[m].0@,
        decreases entries.len() - i,
    {
        let path: String = entries[i].0.clone();
        let lra: i64 = entries[i].1;
        let key = chars_of(path.as_str());
        let ghost x = (path@, lra);
        assert(x == s[i as int]);
        let ghost cur = records_view(out@);
        let mut j: usize = out.len();
        while j > 0 && !precedes_exec(out[j - 1].1, &keys[j - 1], lra, &key)
            invariant
                j <= out.len(),
                keys.len() == out.len(),
                cur == records_view(out@),
                forall|m: int| 0 <= m < keys.len() ==> (#[trigger] keys@[m])@ == out@[m].0@,
                key@ == path@,
                x == (path@, lra),
                forall|m: int| j <= m < cur.len() ==> !precedes(#[trigger] cur[m], x),
            decreases j,
        {
            assert(cur[j - 1] == (keys@[j - 1]@, out@[j - 1].1));
            j = j - 1;
        }
        proof {
            if j > 0 {
                assert(cur[j - 1] == (keys@[j - 1]@, out@[j - 1].1));
            }
            lemma_insert_at(x, cur, j as int);
            assert(s.take(i + 1).drop_last() =~= s.take(i as int));
            assert(s.take(i + 1).last() == x);
        }
        out.insert(j, (path, lra));
        keys.insert(j, key);
        proof {
            assert(records_view(out@) =~= cur.insert(j as int, x));
            assert forall|m: int| 0 <= m < keys.len() implies (#[trigger] keys@[m])@
                == out@[m].0@ by {
                if m < j {
                } else if m > j {
                } else {
                }
            }
        }
        i = i + 1;
    }
    proof {
        assert(s.take(i as int) =~= s);
        lemma_sort_by_lra(s);
    }
    out
}

/// The error for a line without the separator.
pub open spec fn format_error(line: Seq<char>) -> Seq<char> {
    "行格式不正确: '"@ + line + "' (期望格式: '文件路径 - LRA值')"@
}

/// The error for a value that is not a number.
pub open spec fn number_error(value: Seq<char>) -> Seq<char> {
    "无法解析 LRA 值 '"@ + value + "': "@ + if value.len() == 0 {
        "cannot parse float from empty string"@
    } else {
        "invalid float literal"@
    }
}

/// The error for a number that is negative or not finite.
pub open spec fn range_error(value: Seq<char>) -> Seq<char> {
    "LRA 值 '"@ + value + "' 超出合理范围 (应为非负有限数)"@
}

/// The value part of a record line: what follows the last `" - "`, trimmed.
pub open spec fn value_part(line: Seq<char>) -> Seq<char> {
    trim(line.subrange(last_sep(line) + 3, line.len() as int))
}

/// What a record line holds: the path before the last `" - "` (kept as it
/// is) and the value after it, which must be a finite, non-negative number.
pub open spec fn line_outcome(line: Seq<char>) -> Result<RecordView, Seq<char>> {
    if last_sep(line) < 0 {
        Err(format_error(line))
    } else {
        let v = value_part(line);
        match decimal_of(v) {
            Decimal::Malformed => Err(number_error(v)),
            Decimal::NonFinite => Err(range_error(v)),
            Decimal::Finite { negative, tenths } => if negative {
                Err(range_error(v))
            } else {
                Ok((line.subrange(0, last_sep(line)), tenths as i64))
            },
        }
    }
}

/// The characters `v[from..to]`.
pub fn sub_chars(v: &Vec<char>, from: usize, to: usize) -> (r: Vec<char>)
    requires
        from <= to <= v.len(),
    ensures
        r@ == v@.subrange(from as int, to as int),
{
    let mut out: Vec<char> = Vec::with_capacity(to - from);
    let mut i: usize = from;
    while i < to
        invariant
            from <= i <= to <= v.len(),
            out@ == v@.subrange(from as int, i as int),
        decreases to - i,
    {
        out.push(v[i]);
        proof {
            assert(out@ =~= v@.subrange(from as int, i + 1));
        }
        i = i + 1;
    }
    out
}

/// Reads one record line: `<path> - <lra>`.
pub fn parse_result_line(line: &str) -> (r: Result<(String, i64), String>)
    ensures
        match r {
            Ok(e) => line_outcome(line@) == Ok::<RecordView, Seq<char>>(record_view(e)),
            Err(m) => line_outcome(line@) == Err::<RecordView, Seq<char>>(m@),
        },
{
    let cs = chars_of(line);
    let k = match find_last_sep(&cs) {
        Some(k) => k,
        None => {
            let mut m = String::from_str("行格式不正确: '");
            m.append(line);
            m.append("' (期望格式: '文件路径 - LRA值')");
            return Err(m);
        },
    };
    proof {
        crate::text::lemma_last_sep_bound(cs@);
    }
    let tail = sub_chars(&cs, k + 3, cs.len());
    let (a, b) = trim_bounds(&tail);
    let value = sub_chars(&tail, a, b);
    let value_text = string_of(value.as_slice());
    assert(value@ == value_part(line@));
    match parse_decimal(&value) {
        Decimal::Finite { negative, tenths } => {
            if negative {
                let mut m = String::from_str("LRA 值 '");
                m.append(value_text.as_str());
                m.append("' 超出合理范围 (应为非负有限数)");
                Err(m)
            } else {
                let path = sub_chars(&cs, 0, k);
                Ok((string_of(path.as_slice()), tenths as i64))
            }
        },
        Decimal::NonFinite => {
            let mut m = String::from_str("LRA 值 '");
            m.append(value_text.as_str());
            m.append("' 超出合理范围 (应为非负有限数)");
            Err(m)
        },
        Decimal::Malformed => {
            let mut m = String::from_str("无法解析 LRA 值 '");
            m.append(value_text.as_str());
            m.append("': ");
            if value.len() == 0 {
                m.append("cannot parse float from empty string");
            } else {
                m.append("invalid float literal");
            }
            Err(m)
        },
    }
}

/// How a record is written: `<path> - <lra with one decimal>`.
pub open spec fn line_text(e: RecordView) -> Seq<char> {
    e.0 + " - "@ + tenths_text(e.1 as int)
}

/// The record lines, each followed by a line break.
pub open spec fn records_text(s: Seq<RecordView>) -> Seq<char>
    decreases s.len(),
{
    if s.len() == 0 {
        Seq::empty()
    } else {
        line_text(s[0]) + seq!['\n'] + records_text(s.drop_first())
    }
}

/// The whole result file: the header line, then the record lines.
pub open spec fn results_text(header: Seq<char>, s: Seq<RecordView>) -> Seq<char> {
    header + seq!['\n'] + records_text(s)
}

proof fn lemma_records_text_push(s: Seq<RecordView>, x: RecordView)
    ensures
        records_text(s.push(x)) == records_text(s) + line_text(x) + seq!['\n'],
    decreases s.len(),
{
    if s.len() == 0 {
        assert(s.push(x).drop_first() =~= Seq::<RecordView>::empty());
        assert(s.push(x)[0] == x);
        assert(records_text(s.push(x).drop_first()) == Seq::<char>::empty());
        assert(records_text(s) == Seq::<char>::empty());
        assert(records_text(s.push(x)) =~= line_text(x) + seq!['\n']);
    } else {
        lemma_records_text_push(s.drop_first(), x);
        assert(s.push(x).drop_first() =~= s.drop_first().push(x));
        assert(s.push(x)[0] == s[0]);
        assert(records_text(s.push(x)) =~= records_text(s) + line_text(x) + seq!['\n']);
    }
}

/// The result file for `entries`, in their order: the header line, then one
/// `<path> - <lra>` line per record.
pub fn render_results(header: &str, entries: &Vec<(String, i64)>) -> (r: String)
    ensures
        r@ == results_text(header@, records_view(entries@)),
{
    let ghost s = records_view(entries@);
    let mut out: Vec<char> = Vec::new();
    push_str(&mut out, header);
    out.push('\n');
    let mut i: usize = 0;
    while i < entries.len()
        invariant
            i <= entries.len(),
            s == records_view(entries@),
            out@ == header@ + seq!['\n'] + records_text(s.take(i as int)),
        decreases entries.len() - i,
    {
        push_str(&mut out, entries[i].0.as_str());
        push_str(&mut out, " - ");
        push_tenths(entries[i].1, &mut out);
        out.push('\n');
        proof {
            reveal_strlit(" - ");
            lemma_records_text_push(s.take(i as int), s[i as int]);
            assert(s.take(i + 1) =~= s.take(i as int).push(s[i as int]));
            assert(out@ =~= header@ + seq!['\n'] + records_text(s.take(i + 1)));
        }
        i = i + 1;
    }
    proof {
        assert(s.take(i as int) =~= s);
        assert(records_text(Seq::<RecordView>::empty()) =~= Seq::<char>::empty());
    }
    string_of(out.as_slice())
}

/// The records that the record lines `ls` hold, in order: blank lines and
/// lines that do not read as a record are left out.
pub open spec fn entries_of(ls: Seq<Seq<char>>) -> Seq<RecordView>
    decreases ls.len(),
{
    if ls.len() == 0 {
        Seq::empty()
    } else {
        let r = entries_of(ls.drop_last());
        let l = ls.last();
        if all_space(l) {
            r
        } else {
            match line_outcome(l) {
                Ok(e) => r.push(e),
                Err(_) => r,
            }
        }
    }
}

/// For each non-blank record line of `ls` that does not read as a record:
/// its line number in the file (the header is line 1) and the error.
pub open spec fn warnings_of(ls: Seq<Seq<char>>) -> Seq<(int, Seq<char>)>
    decreases ls.len(),
{
    if ls.len() == 0 {
        Seq::empty()
    } else {
        let r = warnings_of(ls.drop_last());
        let l = ls.last();
        if all_space(l) {
            r
        } else {
            match line_outcome(l) {
                Ok(_) => r,
                Err(m) => r.push((ls.len() as int + 1, m)),
            }
        }
    }
}

/// The lines of a result file after its first (header) line.
pub open spec fn record_lines(content: Seq<char>) -> Seq<Seq<char>> {
    if lines(content).len() == 0 {
        Seq::empty()
    } else {
        lines(content).drop_first()
    }
}

pub open spec fn parsed_records(content: Seq<char>) -> Seq<RecordView> {
    entries_of(record_lines(content))
}

pub open spec fn parse_warnings(content: Seq<char>) -> Seq<(int, Seq<char>)> {
    warnings_of(record_lines(content))
}

pub open spec fn warnings_view(v: Seq<(usize, String)>) -> Seq<(int, Seq<char>)> {
    Seq::new(v.len(), |i: int| (v[i].0 as int, v[i].1@))
}

proof fn lemma_lines_at(cs: Seq<char>, p: int, k: int)
    requires
        0 <= p < k <= cs.len() || 0 <= p == k < cs.len(),
        k - p == line_end(cs.subrange(p, cs.len() as int)),
    ensures
        k < cs.len() ==> lines(cs.subrange(p, cs.len() as int)) == seq![
            strip_cr(cs.subrange(p, k)),
        ] + lines(cs.subrange(k + 1, cs.len() as int)),
        k == cs.len() ==> lines(cs.subrange(p, cs.len() as int)) == seq![cs.subrange(p, k)],
{
    let t = cs.subrange(p, cs.len() as int);
    assert(t.subrange(0, k - p) =~= cs.subrange(p, k));
    if k < cs.len() {
        assert(t.subrange(k - p + 1, t.len() as int) =~= cs.subrange(k + 1, cs.len() as int));
    } else {
        assert(t =~= cs.subrange(p, k));
    }
}

/// Reads a result file: skips its first line, and reads each non-blank line
/// after it as a record. Returns the records, and for each line that is not
/// a record its line number and why.
pub fn parse_results_text(content: &str) -> (r: (Vec<(String, i64)>, Vec<(usize, String)>))
    ensures
        records_view(r.0@) == parsed_records(content@),
        warnings_view(r.1@) == parse_warnings(content@),
{
    let cs = chars_of(content);
    let mut entries: Vec<(String, i64)> = Vec::new();
    let mut warnings: Vec<(usize, String)> = Vec::new();
    if cs.len() == 0 {
        proof {
            assert(records_view(entries@) =~= Seq::<RecordView>::empty());
            assert(warnings_view(warnings@) =~= Seq::<(int, Seq<char>)>::empty());
        }
        return (entries, warnings);
    }
    let k0 = find_line_end(&cs, 0);
    proof {
        assert(cs@.subrange(0, cs.len() as int) =~= cs@);
        lemma_lines_at(cs@, 0, k0 as int);
    }
    let ghost header = if k0 < cs.len() {
        strip_cr(cs@.subrange(0, k0 as int))
    } else {
        cs@.subrange(0, k0 as int)
    };
    let mut p: usize = if k0 < cs.len() {
        k0 + 1
    } else {
        cs.len()
    };
    proof {
        if k0 == cs.len() {
            assert(lines(cs@.subrange(p as int, cs.len() as int)) =~= Seq::<Seq<char>>::empty());
        }
    }
    let ghost seen: Seq<Seq<char>> = Seq::empty();
    let mut count: usize = 0;
    while p < cs.len()
        invariant
            cs@ == content@,
            count == seen.len(),
            count + 1 <= p <= cs.len(),
            lines(cs@) == seq![header] + seen + lines(cs@.subrange(p as int, cs.len() as int)),
            records_view(entries@) == entries_of(seen),
            warnings_view(warnings@) == warnings_of(seen),
        decreases cs.len() - p,
    {
        let k = find_line_end(&cs, p);
        proof {
            lemma_lines_at(cs@, p as int, k as int);
        }
        let e: usize = if k < cs.len() && k > p && cs[k - 1] == '\r' {
            k - 1
        } else {
            k
        };
        let line_chars = sub_chars(&cs, p, e);
        let ghost line = if k < cs.len() {
            strip_cr(cs@.subrange(p as int, k as int))
        } else {
            cs@.subrange(p as int, k as int)
        };
        assert(line_chars@ =~= line);
        let (a, b) = trim_bounds(&line_chars);
        if a < b {
            let line_text = string_of(line_chars.as_slice());
            match parse_result_line(line_text.as_str()) {
                Ok(en) => {
                    entries.push(en);
                },
                Err(m) => {
                    warnings.push((count + 2, m));
                },
            }
        }
        proof {
            let seen2 = seen.push(line);
            assert(seen2.drop_last() =~= seen);
            assert(records_view(entries@) =~= entries_of(seen2));
            assert(warnings_view(warnings@) =~= warnings_of(seen2));
            seen = seen2;
        }
        count = count + 1;
        p = if k < cs.len() {
            k + 1
        } else {
            cs.len()
        };
        proof {
            if k == cs.len() {
                assert(lines(cs@.subrange(p as int, cs.len() as int)) =~= Seq::<
                    Seq<char>,
                >::empty());
            }
            assert(lines(cs@) =~= seq![header] + seen + lines(
                cs@.subrange(p as int, cs.len() as int),
            ));
        }
    }
    proof {
        assert(lines(cs@.subrange(p as int, cs.len() as int)) =~= Seq::<Seq<char>>::empty());
        assert(record_lines(content@) =~= seen);
    }
    (entries, warnings)
}

/// The sorted result file: the records that `content` holds, sorted, under
/// `header`.
pub open spec fn sorted_results_text(content: Seq<char>, header: Seq<char>) -> Seq<char> {
    results_text(header, sort_by_lra(parsed_records(content)))
}

/// Sorts the text of a result file: reads its records, skipping its first
/// line and any line that is not a record, and writes them under `header`
/// sorted by loudness range, highest first, then by path. Also returns the
/// warnings for the lines that were skipped.
pub fn sort_results_text(content: &str, header: &str) -> (r: (String, Vec<(usize, String)>))
    ensures
        r.0@ == sorted_results_text(content@, header@),
        warnings_view(r.1@) == parse_warnings(content@),
{
    let (entries, warnings) = parse_results_text(content);
    let sorted = sort_entries_by_lra(entries);
    (render_results(header, &sorted), warnings)
}

/// A record that the result file can hold: a path on one line and a
/// non-negative value.
pub open spec fn valid_record(e: RecordView) -> bool {
    has_no_newline(e.0) && e.1 >= 0
}

proof fn lemma_last_sep_of_line(p: Seq<char>, v: Seq<char>)
    requires
        forall|i: int| 0 <= i < v.len() ==> v[i] != ' ',
    ensures
        last_sep(p + " - "@ + v) == p.len(),
    decreases v.len(),
{
    reveal_strlit(" - ");
    let s = p + " - "@ + v;
    if v.len() == 0 {
        assert(sep_at(s, s.len() - 3));
    } else {
        assert(s[s.len() - 1] == v.last());
        assert(!sep_at(s, s.len() - 3));
        lemma_last_sep_of_line(p, v.drop_last());
        assert(s.drop_last() =~= p + " - "@ + v.drop_last());
    }
}

proof fn lemma_tenths_text_chars(t: int)
    requires
        t >= 0,
    ensures
        tenths_text(t).len() > 0,
        forall|i: int|
            0 <= i < tenths_text(t).len() ==> !is_space(#[trigger] tenths_text(t)[i])
                && tenths_text(t)[i] != '\n',
        tenths_text(t).last() != '\r',
{
    let d = crate::decimal::nat_digits((t / 10) as nat);
    let c = crate::decimal::digit_char((t % 10) as nat);
    lemma_nat_digits((t / 10) as nat);
    crate::decimal::lemma_digit_char((t % 10) as nat);
    let v = tenths_text(t);
    assert(v =~= d + seq!['.', c]);
    assert forall|i: int| 0 <= i < v.len() implies !is_space(#[trigger] v[i]) && v[i] != '\n' by {
        if i < d.len() {
            assert(v[i] == d[i]);
            assert(crate::decimal::is_digit(d[i]));
        }
    }
}

/// A record line reads back as the record that was written.
pub proof fn lemma_line_round_trip(e: RecordView)
    requires
        valid_record(e),
    ensures
        line_outcome(line_text(e)) == Ok::<RecordView, Seq<char>>(e),
        !all_space(line_text(e)),
        strip_cr(line_text(e)) == line_text(e),
        has_no_newline(line_text(e)),
{
    reveal_strlit(" - ");
    let v = tenths_text(e.1 as int);
    let l = line_text(e);
    lemma_tenths_text_chars(e.1 as int);
    assert forall|i: int| 0 <= i < v.len() implies v[i] != ' ' by {
        assert(!is_space(v[i]));
    }
    lemma_last_sep_of_line(e.0, v);
    assert(l.subrange(e.0.len() as int + 3, l.len() as int) =~= v);
    assert(trim_start(v) == v);
    assert(trim_end(v) == v);
    lemma_tenths_round_trip(e.1 as int);
    assert(l.subrange(0, e.0.len() as int) =~= e.0);
    assert(l.last() == v.last());
    assert(!is_space(l[l.len() - 1]));
    assert forall|i: int| 0 <= i < l.len() implies l[i] != '\n' by {
        if i >= e.0.len() + 3 {
            assert(l[i] == v[i - e.0.len() - 3]);
        } else if i < e.0.len() {
            assert(l[i] == e.0[i]);
        }
    }
}

proof fn lemma_lines_of_records(s: Seq<RecordView>)
    requires
        forall|i: int| 0 <= i < s.len() ==> valid_record(#[trigger] s[i]),
    ensures
        lines(records_text(s)) == Seq::new(s.len(), |i: int| line_text(s[i])),
    decreases s.len(),
{
    if s.len() > 0 {
        lemma_line_round_trip(s[0]);
        lemma_lines_of_records(s.drop_first());
        lemma_lines_cons(line_text(s[0]), records_text(s.drop_first()));
        assert(lines(records_text(s)) =~= Seq::new(s.len(), |i: int| line_text(s[i])));
    } else {
        assert(lines(records_text(s)) =~= Seq::new(s.len(), |i: int| line_text(s[i])));
    }
}

proof fn lemma_entries_of_lines(s: Seq<RecordView>)
    requires
        forall|i: int| 0 <= i < s.len() ==> valid_record(#[trigger] s[i]),
    ensures
        entries_of(Seq::new(s.len(), |i: int| line_text(s[i]))) == s,
        warnings_of(Seq::new(s.len(), |i: int| line_text(s[i]))) == Seq::<(int, Seq<char>)>::empty(),
    decreases s.len(),
{
    let ls = Seq::new(s.len(), |i: int| line_text(s[i]));
    if s.len() > 0 {
        let t = s.drop_last();
        lemma_entries_of_lines(t);
        assert(ls.drop_last() =~= Seq::new(t.len(), |i: int| line_text(t[i])));
        lemma_line_round_trip(s.last());
        assert(entries_of(ls) =~= s);
    } else {
        assert(entries_of(ls) =~= s);
    }
}

/// Writing records and reading the file back gives the same records, and no
/// warnings, whenever each path is one line and each value non-negative.
pub proof fn lemma_write_read_round_trip(header: Seq<char>, s: Seq<RecordView>)
    requires
        has_no_newline(header),
        forall|i: int| 0 <= i < s.len() ==> valid_record(#[trigger] s[i]),
    ensures
        parsed_records(results_text(header, s)) == s,
        parse_warnings(results_text(header, s)) == Seq::<(int, Seq<char>)>::empty(),
{
    lemma_lines_cons(header, records_text(s));
    lemma_lines_of_records(s);
    lemma_entries_of_lines(s);
    assert(record_lines(results_text(header, s)) =~= Seq::new(
        s.len(),
        |i: int| line_text(s[i]),
    ));
}

/// Sorting a result file that was written from sorted records gives the
/// same text again.
pub proof fn lemma_sort_idempotent(header: Seq<char>, s: Seq<RecordView>)
    requires
        has_no_newline(header),
        forall|i: int| 0 <= i < s.len() ==> valid_record(#[trigger] s[i]),
        sorted_by_lra(s),
    ensures
        sorted_results_text(results_text(header, s), header) == results_text(header, s),
{
    lemma_write_read_round_trip(header, s);
    lemma_sort_of_sorted(s);
}

proof fn lemma_entries_valid(ls: Seq<Seq<char>>)
    requires
        forall|i: int| 0 <= i < ls.len() ==> has_no_newline(#[trigger] ls[i]),
    ensures
        forall|i: int|
            0 <= i < entries_of(ls).len() ==> valid_record(#[trigger] entries_of(ls)[i]),
    decreases ls.len(),
{
    if ls.len() > 0 {
        let t = ls.drop_last();
        assert forall|i: int| 0 <= i < t.len() implies has_no_newline(#[trigger] t[i]) by {
            assert(t[i] == ls[i]);
        }
        lemma_entries_valid(t);
        let l = ls.last();
        assert(has_no_newline(l));
        if !all_space(l) {
            match line_outcome(l) {
                Ok(e) => {
                    crate::text::lemma_last_sep_bound(l);
                    let path = l.subrange(0, last_sep(l));
                    assert(has_no_newline(path)) by {
                        assert forall|i: int| 0 <= i < path.len() implies path[i] != '\n' by {
                            assert(path[i] == l[i]);
                        }
                    }
                    assert(valid_record(e));
                    let r = entries_of(ls);
                    assert forall|i: int| 0 <= i < r.len() implies valid_record(#[trigger] r[i]) by {
                        if i < r.len() - 1 {
                            assert(r[i] == entries_of(t)[i]);
                        }
                    }
                },
                Err(_) => {},
            }
        }
    }
}

proof fn lemma_sort_keeps_valid(s: Seq<RecordView>)
    requires
        forall|i: int| 0 <= i < s.len() ==> valid_record(#[trigger] s[i]),
    ensures
        forall|i: int|
            0 <= i < sort_by_lra(s).len() ==> valid_record(#[trigger] sort_by_lra(s)[i]),
{
    lemma_sort_by_lra(s);
    let r = sort_by_lra(s);
    assert forall|i: int| 0 <= i < r.len() implies valid_record(#[trigger] r[i]) by {
        let x = r[i];
        assert(r.contains(x));
        assert(r.to_multiset().count(x) > 0);
        assert(s.to_multiset().count(x) > 0);
        assert(s.contains(x));
        let k = choose|k: int| 0 <= k < s.len() && s[k] == x;
        assert(valid_record(s[k]));
    }
}

/// The sorted result file holds the records of the file it came from, and
/// reads back in sorted order.
pub proof fn lemma_sorted_file_reads_sorted(content: Seq<char>, header: Seq<char>)
    requires
        has_no_newline(header),
    ensures
        parsed_records(sorted_results_text(content, header)) == sort_by_lra(
            parsed_records(content),
        ),
        sorted_by_lra(parsed_records(sorted_results_text(content, header))),
        parsed_records(sorted_results_text(content, header)).to_multiset() == parsed_records(
            content,
        ).to_multiset(),
{
    crate::text::lemma_lines_no_newline(content);
    let ls = record_lines(content);
    assert forall|i: int| 0 <= i < ls.len() implies has_no_newline(#[trigger] ls[i]) by {
        assert(ls[i] == lines(content)[i + 1]);
    }
    lemma_entries_valid(ls);
    let recs = parsed_records(content);
    lemma_sort_keeps_valid(recs);
    lemma_write_read_round_trip(header, sort_by_lra(recs));
    lemma_sort_by_lra(recs);
}

} // verus!
