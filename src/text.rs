//! Character-level text handling: whitespace as Rust's `char::is_whitespace`
//! defines it, trimming, line splitting as `str::lines` does it, the last
//! occurrence of a separator, and byte-wise (code point) string order.

use vstd::prelude::*;
use vstd::std_specs::iter::IteratorSpec;
use vstd::string::StrSliceExecFns;

verus! {

/// The characters that carry the Unicode `White_Space` property.
pub open spec fn is_space_code(c: u32) -> bool {
    (0x09 <= c && c <= 0x0d) || c == 0x20 || c == 0x85 || c == 0xa0 || c == 0x1680
        || (0x2000 <= c && c <= 0x200a) || c == 0x2028 || c == 0x2029 || c == 0x202f
        || c == 0x205f || c == 0x3000
}

pub open spec fn is_space(c: char) -> bool {
    is_space_code(c as u32)
}

pub fn char_is_space(c: char) -> (r: bool)
    ensures
        r == is_space(c),
{
    let c: u32 = c as u32;
    (0x09 <= c && c <= 0x0d) || c == 0x20 || c == 0x85 || c == 0xa0 || c == 0x1680 || (0x2000
        <= c && c <= 0x200a) || c == 0x2028 || c == 0x2029 || c == 0x202f || c == 0x205f || c
        == 0x3000
}

/// `s` without its leading whitespace.
pub open spec fn trim_start(s: Seq<char>) -> Seq<char>
    decreases s.len(),
{
    if s.len() > 0 && is_space(s[0]) {
        trim_start(s.drop_first())
    } else {
        s
    }
}

/// `s` without its trailing whitespace.
pub open spec fn trim_end(s: Seq<char>) -> Seq<char>
    decreases s.len(),
{
    if s.len() > 0 && is_space(s.last()) {
        trim_end(s.drop_last())
    } else {
        s
    }
}

/// `s` without leading and trailing whitespace.
pub open spec fn trim(s: Seq<char>) -> Seq<char> {
    trim_end(trim_start(s))
}

pub open spec fn all_space(s: Seq<char>) -> bool {
    forall|i: int| 0 <= i < s.len() ==> is_space(#[trigger] s[i])
}

proof fn lemma_trim_start_from(s: Seq<char>, i: int)
    requires
        0 <= i <= s.len(),
        forall|k: int| 0 <= k < i ==> is_space(#[trigger] s[k]),
    ensures
        trim_start(s) == trim_start(s.subrange(i, s.len() as int)),
    decreases i,
{
    if i > 0 {
        assert(s.drop_first().subrange(i - 1, s.drop_first().len() as int) =~= s.subrange(
            i,
            s.len() as int,
        ));
        lemma_trim_start_from(s.drop_first(), i - 1);
    } else {
        assert(s.subrange(0, s.len() as int) =~= s);
    }
}

proof fn lemma_trim_end_to(s: Seq<char>, j: int)
    requires
        0 <= j <= s.len(),
        forall|k: int| j <= k < s.len() ==> is_space(#[trigger] s[k]),
    ensures
        trim_end(s) == trim_end(s.subrange(0, j)),
    decreases s.len() - j,
{
    if j < s.len() {
        assert(s.drop_last().subrange(0, j) =~= s.subrange(0, j));
        lemma_trim_end_to(s.drop_last(), j);
    } else {
        assert(s.subrange(0, j) =~= s);
    }
}

/// Bounds `(i, j)` such that `s[i..j]` is `trim(s)`.
pub fn trim_bounds(s: &Vec<char>) -> (r: (usize, usize))
    ensures
        r.0 <= r.1 <= s.len(),
        s@.subrange(r.0 as int, r.1 as int) == trim(s@),
        all_space(s@) <==> r.0 == r.1,
{
    let mut i: usize = 0;
    while i < s.len() && char_is_space(s[i])
        invariant
            i <= s.len(),
            forall|k: int| 0 <= k < i ==> is_space(#[trigger] s@[k]),
        decreases s.len() - i,
    {
        i = i + 1;
    }
    proof {
        lemma_trim_start_from(s@, i as int);
    }
    let ghost t = s@.subrange(i as int, s.len() as int);
    proof {
        if i < s.len() {
            assert(t[0] == s@[i as int]);
            assert(trim_start(t) == t);
        } else {
            assert(t.len() == 0);
        }
    }
    let mut j: usize = s.len();
    while j > i && char_is_space(s[j - 1])
        invariant
            i <= j <= s.len(),
            forall|k: int| j <= k < s.len() ==> is_space(#[trigger] s@[k]),
        decreases j,
    {
        j = j - 1;
    }
    proof {
        let u = s@.subrange(i as int, j as int);
        assert forall|k: int| 0 <= k < t.len() - (j - i) implies is_space(
            #[trigger] t[(j - i) + k],
        ) by {
            assert(t[(j - i) + k] == s@[j + k]);
        }
        assert forall|k: int| (j - i) <= k < t.len() implies is_space(#[trigger] t[k]) by {
            assert(t[k] == s@[i + k]);
        }
        lemma_trim_end_to(t, j - i);
        assert(t.subrange(0, j - i) =~= u);
        if j > i {
            assert(u.last() == s@[j - 1]);
            assert(trim_end(u) == u);
        }
        if all_space(s@) {
            assert(i == s.len());
        }
        if i == j {
            assert forall|k: int| 0 <= k < s.len() implies is_space(#[trigger] s@[k]) by {
                if k >= i {
                    assert(k >= j);
                }
            }
        }
    }
    (i, j)
}

/// Index of the first line break (`'\n'`) of `s`, or `s.len()`.
pub open spec fn line_end(s: Seq<char>) -> nat
    decreases s.len(),
{
    if s.len() == 0 {
        0
    } else if s[0] == '\n' {
        0
    } else {
        1 + line_end(s.drop_first())
    }
}

/// A line without the carriage return that may end it.
pub open spec fn strip_cr(s: Seq<char>) -> Seq<char> {
    if s.len() > 0 && s.last() == '\r' {
        s.drop_last()
    } else {
        s
    }
}

/// The lines of `s` as `str::lines` yields them: split at each `'\n'`, the
/// `'\r'` of a `"\r\n"` taken off too, no line after a final line break.
pub open spec fn lines(s: Seq<char>) -> Seq<Seq<char>>
    decreases s.len(),
{
    if s.len() == 0 {
        Seq::empty()
    } else {
        let k = line_end(s);
        if k < s.len() {
            seq![strip_cr(s.subrange(0, k as int))] + lines(s.subrange(k as int + 1, s.len() as int))
        } else {
            seq![s]
        }
    }
}

pub open spec fn has_no_newline(s: Seq<char>) -> bool {
    forall|i: int| 0 <= i < s.len() ==> s[i] != '\n'
}

pub proof fn lemma_line_end_bound(s: Seq<char>)
    ensures
        line_end(s) <= s.len(),
        forall|i: int| 0 <= i < line_end(s) ==> s[i] != '\n',
    decreases s.len(),
{
    if s.len() > 0 && s[0] != '\n' {
        lemma_line_end_bound(s.drop_first());
        assert forall|i: int| 0 <= i < line_end(s) implies s[i] != '\n' by {
            if i > 0 {
                assert(s[i] == s.drop_first()[i - 1]);
            }
        }
    }
}

/// No line holds a line break.
pub proof fn lemma_lines_no_newline(s: Seq<char>)
    ensures
        forall|i: int| 0 <= i < lines(s).len() ==> has_no_newline(#[trigger] lines(s)[i]),
    decreases s.len(),
{
    if s.len() > 0 {
        let k = line_end(s);
        lemma_line_end_bound(s);
        let first = s.subrange(0, k as int);
        assert(has_no_newline(first)) by {
            assert forall|i: int| 0 <= i < first.len() implies first[i] != '\n' by {
                assert(first[i] == s[i]);
            }
        }
        if k < s.len() {
            let rest = s.subrange(k as int + 1, s.len() as int);
            lemma_lines_no_newline(rest);
            assert(has_no_newline(strip_cr(first))) by {
                assert forall|i: int| 0 <= i < strip_cr(first).len() implies strip_cr(first)[i]
                    != '\n' by {
                    assert(strip_cr(first)[i] == first[i]);
                }
            }
            assert forall|i: int| 0 <= i < lines(s).len() implies has_no_newline(
                #[trigger] lines(s)[i],
            ) by {
                if i > 0 {
                    assert(lines(s)[i] == lines(rest)[i - 1]);
                }
            }
        } else {
            assert(first =~= s);
        }
    }
}

pub proof fn lemma_line_end_of_line(a: Seq<char>, rest: Seq<char>)
    requires
        has_no_newline(a),
    ensures
        line_end(a + seq!['\n'] + rest) == a.len(),
    decreases a.len(),
{
    if a.len() > 0 {
        assert((a + seq!['\n'] + rest).drop_first() =~= a.drop_first() + seq!['\n'] + rest);
        lemma_line_end_of_line(a.drop_first(), rest);
    }
}

/// A line followed by a line break splits off as the first line.
pub proof fn lemma_lines_cons(a: Seq<char>, rest: Seq<char>)
    requires
        has_no_newline(a),
    ensures
        lines(a + seq!['\n'] + rest) == seq![strip_cr(a)] + lines(rest),
{
    let s = a + seq!['\n'] + rest;
    lemma_line_end_of_line(a, rest);
    assert(s.subrange(0, a.len() as int) =~= a);
    assert(s.subrange(a.len() as int + 1, s.len() as int) =~= rest);
}

pub proof fn lemma_line_end_is(s: Seq<char>, k: int)
    requires
        0 <= k <= s.len(),
        forall|i: int| 0 <= i < k ==> s[i] != '\n',
        k < s.len() ==> s[k] == '\n',
    ensures
        line_end(s) == k,
    decreases k,
{
    if k > 0 {
        assert forall|i: int| 0 <= i < k - 1 implies s.drop_first()[i] != '\n' by {
            assert(s.drop_first()[i] == s[i + 1]);
        }
        lemma_line_end_is(s.drop_first(), k - 1);
    }
}

/// Index of the first `'\n'` at or after `from`, or `s.len()`.
pub fn find_line_end(s: &Vec<char>, from: usize) -> (k: usize)
    requires
        from <= s.len(),
    ensures
        from <= k <= s.len(),
        k - from == line_end(s@.subrange(from as int, s.len() as int)),
{
    let mut k: usize = from;
    while k < s.len() && s[k] != '\n'
        invariant
            from <= k <= s.len(),
            forall|i: int| from <= i < k ==> s@[i] != '\n',
        decreases s.len() - k,
    {
        k = k + 1;
    }
    proof {
        let t = s@.subrange(from as int, s.len() as int);
        assert forall|i: int| 0 <= i < k - from implies t[i] != '\n' by {
            assert(t[i] == s@[from + i]);
        }
        lemma_line_end_is(t, k - from);
    }
    k
}

/// Whether `s[k..k+3]` is the record separator `" - "`.
pub open spec fn sep_at(s: Seq<char>, k: int) -> bool {
    0 <= k && k + 3 <= s.len() && s[k] == ' ' && s[k + 1] == '-' && s[k + 2] == ' '
}

/// Start of the last occurrence of `" - "` in `s`, or `-1`.
pub open spec fn last_sep(s: Seq<char>) -> int
    decreases s.len(),
{
    if s.len() < 3 {
        -1
    } else if sep_at(s, s.len() - 3) {
        s.len() - 3
    } else {
        last_sep(s.drop_last())
    }
}

pub proof fn lemma_last_sep_bound(s: Seq<char>)
    ensures
        last_sep(s) == -1 || 0 <= last_sep(s) <= s.len() - 3,
        last_sep(s) >= 0 ==> sep_at(s, last_sep(s)),
    decreases s.len(),
{
    if s.len() >= 3 && !sep_at(s, s.len() - 3) {
        lemma_last_sep_bound(s.drop_last());
    }
}

proof fn lemma_last_sep_prefix(s: Seq<char>, j: int)
    requires
        3 <= j <= s.len(),
        forall|k: int| j - 3 < k && k + 3 <= s.len() ==> !sep_at(s, k),
    ensures
        last_sep(s) == last_sep(s.subrange(0, j)),
    decreases s.len() - j,
{
    if j < s.len() {
        assert(!sep_at(s, s.len() - 3));
        assert(s.drop_last().subrange(0, j) =~= s.subrange(0, j));
        assert forall|k: int| j - 3 < k && k + 3 <= s.drop_last().len() implies !sep_at(
            s.drop_last(),
            k,
        ) by {
            assert(!sep_at(s, k));
        }
        lemma_last_sep_prefix(s.drop_last(), j);
    } else {
        assert(s.subrange(0, j) =~= s);
    }
}

/// Position of the last `" - "` in `s`.
pub fn find_last_sep(s: &Vec<char>) -> (r: Option<usize>)
    ensures
        r is None <==> last_sep(s@) == -1,
        r is Some ==> r->0 == last_sep(s@),
{
    let mut j: usize = s.len();
    while j >= 3 && !(s[j - 3] == ' ' && s[j - 2] == '-' && s[j - 1] == ' ')
        invariant
            j <= s.len(),
            forall|k: int| j - 3 < k && k + 3 <= s.len() ==> !sep_at(s@, k),
        decreases j,
    {
        j = j - 1;
    }
    proof {
        lemma_last_sep_bound(s@);
        if j >= 3 {
            lemma_last_sep_prefix(s@, j as int);
            assert(sep_at(s@.subrange(0, j as int), j - 3));
        } else {
            if last_sep(s@) >= 0 {
                assert(!sep_at(s@, last_sep(s@)));
            }
        }
    }
    if j >= 3 {
        Some(j - 3)
    } else {
        None
    }
}

/// Code point order on strings (the order of `String`'s `Ord`, since UTF-8
/// keeps code point order byte-wise): `a` comes before or equals `b`.
pub open spec fn lex_le(a: Seq<char>, b: Seq<char>) -> bool
    decreases a.len(),
{
    if a.len() == 0 {
        true
    } else if b.len() == 0 {
        false
    } else if a[0] < b[0] {
        true
    } else if a[0] > b[0] {
        false
    } else {
        lex_le(a.drop_first(), b.drop_first())
    }
}

pub proof fn lemma_lex_total(a: Seq<char>, b: Seq<char>)
    ensures
        lex_le(a, b) || lex_le(b, a),
    decreases a.len(),
{
    if a.len() > 0 && b.len() > 0 && a[0] == b[0] {
        lemma_lex_total(a.drop_first(), b.drop_first());
    }
}

pub proof fn lemma_lex_trans(a: Seq<char>, b: Seq<char>, c: Seq<char>)
    requires
        lex_le(a, b),
        lex_le(b, c),
    ensures
        lex_le(a, c),
    decreases a.len(),
{
    if a.len() > 0 && b.len() > 0 && c.len() > 0 && a[0] == b[0] && b[0] == c[0] {
        lemma_lex_trans(a.drop_first(), b.drop_first(), c.drop_first());
    }
}

proof fn lemma_lex_skip(a: Seq<char>, b: Seq<char>, i: int)
    requires
        0 <= i <= a.len(),
        i <= b.len(),
        a.subrange(0, i) == b.subrange(0, i),
    ensures
        lex_le(a, b) == lex_le(a.subrange(i, a.len() as int), b.subrange(i, b.len() as int)),
    decreases i,
{
    if i > 0 {
        assert(a[0] == a.subrange(0, i)[0]);
        assert(b[0] == b.subrange(0, i)[0]);
        assert(a.drop_first().subrange(0, i - 1) =~= a.subrange(0, i).drop_first());
        assert(b.drop_first().subrange(0, i - 1) =~= b.subrange(0, i).drop_first());
        lemma_lex_skip(a.drop_first(), b.drop_first(), i - 1);
        assert(a.drop_first().subrange(i - 1, a.len() - 1) =~= a.subrange(i, a.len() as int));
        assert(b.drop_first().subrange(i - 1, b.len() - 1) =~= b.subrange(i, b.len() as int));
    } else {
        assert(a.subrange(0, a.len() as int) =~= a);
        assert(b.subrange(0, b.len() as int) =~= b);
    }
}

/// Whether `a` comes before or equals `b` in code point order.
pub fn chars_le(a: &Vec<char>, b: &Vec<char>) -> (r: bool)
    ensures
        r == lex_le(a@, b@),
{
    let mut i: usize = 0;
    while i < a.len() && i < b.len() && a[i] == b[i]
        invariant
            i <= a.len(),
            i <= b.len(),
            a@.subrange(0, i as int) == b@.subrange(0, i as int),
        decreases a.len() - i,
    {
        proof {
            assert(a@.subrange(0, i + 1) =~= a@.subrange(0, i as int).push(a@[i as int]));
            assert(b@.subrange(0, i + 1) =~= b@.subrange(0, i as int).push(b@[i as int]));
        }
        i = i + 1;
    }
    proof {
        lemma_lex_skip(a@, b@, i as int);
        let x = a@.subrange(i as int, a.len() as int);
        let y = b@.subrange(i as int, b.len() as int);
        if i < a.len() && i < b.len() {
            assert(x[0] == a@[i as int]);
            assert(y[0] == b@[i as int]);
        }
    }
    if i == a.len() {
        true
    } else if i == b.len() {
        false
    } else {
        a[i] < b[i]
    }
}

/// Appends the characters `v` to `out`.
pub fn push_chars(out: &mut Vec<char>, v: &Vec<char>)
    ensures
        final(out)@ == old(out)@ + v@,
{
    let ghost start = out@;
    let mut i: usize = 0;
    while i < v.len()
        invariant
            i <= v.len(),
            out@ == start + v@.take(i as int),
        decreases v.len() - i,
    {
        out.push(v[i]);
        proof {
            assert(v@.take(i + 1) =~= v@.take(i as int).push(v@[i as int]));
        }
        i = i + 1;
    }
    proof {
        assert(v@.take(i as int) =~= v@);
    }
}

/// Appends the characters of `s` to `out`.
pub fn push_str(out: &mut Vec<char>, s: &str)
    ensures
        final(out)@ == old(out)@ + s@,
{
    let cs = chars_of(s);
    push_chars(out, &cs);
}

/// Converts text into its characters.
pub fn chars_of(s: &str) -> (r: Vec<char>)
    ensures
        r@ == s@,
{
    let n = s.unicode_len();
    let mut out: Vec<char> = Vec::with_capacity(n);
    let mut it = s.chars();
    proof {
        broadcast use vstd::string::group_string_axioms;
    }
    while out.len() < n
        invariant
            n == s@.len(),
            it.obeys_prophetic_iter_laws(),
            out@ + it.remaining() == s@,
        ensures
            out@ == s@,
        decreases n - out.len(),
    {
        proof {
            broadcast use vstd::string::group_string_axioms;
        }
        let c = it.next();
        proof {
            broadcast use vstd::string::group_string_axioms;
        }
        match c {
            Some(c) => {
                out.push(c);
                proof {
                    assert(out@ + it.remaining() =~= s@);
                }
            },
            None => {
                proof {
                    assert(out@ =~= s@);
                }
                break ;
            },
        }
    }
    out
}

/// Relies on `FromIterator<char> for String` (`collect`): the string holds
/// the characters in order.
#[verifier::external_body]
pub(crate) fn string_of(cs: &[char]) -> (r: String)
    ensures
        r@ == cs@,
{
    cs.iter().collect()
}

/// The lines of `ls` that hold more than whitespace.
pub open spec fn nonblank(ls: Seq<Seq<char>>) -> Seq<Seq<char>>
    decreases ls.len(),
{
    if ls.len() == 0 {
        Seq::empty()
    } else if all_space(ls.last()) {
        nonblank(ls.drop_last())
    } else {
        nonblank(ls.drop_last()).push(ls.last())
    }
}

/// The lines of `ls` joined with `"; "`.
pub open spec fn join_lines(ls: Seq<Seq<char>>) -> Seq<char>
    decreases ls.len(),
{
    if ls.len() == 0 {
        Seq::empty()
    } else if ls.len() == 1 {
        ls[0]
    } else {
        join_lines(ls.drop_last()) + seq![';', ' '] + ls.last()
    }
}

/// The first `n` non-blank lines of `text`, joined with `"; "`.
pub open spec fn excerpt_of(text: Seq<char>, n: nat) -> Seq<char> {
    let b = nonblank(lines(text));
    join_lines(
        if b.len() <= n {
            b
        } else {
            b.take(n as int)
        },
    )
}

proof fn lemma_nonblank_concat(a: Seq<Seq<char>>, b: Seq<Seq<char>>)
    ensures
        nonblank(a + b) == nonblank(a) + nonblank(b),
    decreases b.len(),
{
    if b.len() == 0 {
        assert(a + b =~= a);
        assert(nonblank(a) + nonblank(b) =~= nonblank(a));
    } else {
        lemma_nonblank_concat(a, b.drop_last());
        assert((a + b).drop_last() =~= a + b.drop_last());
        assert((a + b).last() == b.last());
        assert(nonblank(a + b) =~= nonblank(a) + nonblank(b));
    }
}

/// The first `n` non-blank lines of `text`, joined with `"; "`.
pub fn excerpt(text: &Vec<char>, n: usize) -> (r: Vec<char>)
    ensures
        r@ == excerpt_of(text@, n as nat),
{
    let mut out: Vec<char> = Vec::new();
    let mut count: usize = 0;
    let mut p: usize = 0;
    let ghost seen: Seq<Seq<char>> = Seq::empty();
    proof {
        assert(text@.subrange(0, text.len() as int) =~= text@);
    }
    while p < text.len() && count < n
        invariant
            p <= text.len(),
            count <= n,
            count == nonblank(seen).len(),
            lines(text@) == seen + lines(text@.subrange(p as int, text.len() as int)),
            out@ == join_lines(nonblank(seen)),
        decreases text.len() - p,
    {
        let k = find_line_end(text, p);
        let ghost t = text@.subrange(p as int, text.len() as int);
        proof {
            assert(t.subrange(0, k - p) =~= text@.subrange(p as int, k as int));
            if k < text.len() {
                assert(t.subrange(k - p + 1, t.len() as int) =~= text@.subrange(
                    k + 1,
                    text.len() as int,
                ));
            } else {
                assert(t =~= text@.subrange(p as int, k as int));
                assert(lines(text@.subrange(text.len() as int, text.len() as int)) =~= Seq::<
                    Seq<char>,
                >::empty());
            }
        }
        let ghost line = if k < text.len() {
            strip_cr(text@.subrange(p as int, k as int))
        } else {
            text@.subrange(p as int, k as int)
        };
        let e: usize = if k < text.len() && k > p && text[k - 1] == '\r' {
            k - 1
        } else {
            k
        };
        let mut lc: Vec<char> = Vec::new();
        let mut i: usize = p;
        while i < e
            invariant
                p <= i <= e <= k <= text.len(),
                lc@ == text@.subrange(p as int, i as int),
            decreases e - i,
        {
            lc.push(text[i]);
            proof {
                assert(lc@ =~= text@.subrange(p as int, i + 1));
            }
            i = i + 1;
        }
        assert(lc@ =~= line);
        let (a, b) = trim_bounds(&lc);
        proof {
            let s2 = seen.push(line);
            assert(s2.drop_last() =~= seen);
        }
        if a < b {
            if count > 0 {
                out.push(';');
                out.push(' ');
            }
            let mut j: usize = 0;
            let ghost before = out@;
            while j < lc.len()
                invariant
                    j <= lc.len(),
                    out@ == before + lc@.take(j as int),
                decreases lc.len() - j,
            {
                out.push(lc[j]);
                proof {
                    assert(lc@.take(j + 1) =~= lc@.take(j as int).push(lc@[j as int]));
                }
                j = j + 1;
            }
            proof {
                assert(lc@.take(j as int) =~= lc@);
                let nb = nonblank(seen.push(line));
                assert(nb =~= nonblank(seen).push(line));
                if count == 0 {
                    assert(nb.len() == 1);
                    assert(join_lines(nb) == nb[0]);
                    assert(out@ =~= join_lines(nb));
                } else {
                    assert(nb.drop_last() =~= nonblank(seen));
                    assert(out@ =~= join_lines(nb));
                }
            }
            count = count + 1;
        }
        proof {
            seen = seen.push(line);
        }
        p = if k < text.len() {
            k + 1
        } else {
            text.len()
        };
        proof {
            assert(lines(text@) =~= seen + lines(text@.subrange(p as int, text.len() as int)));
        }
    }
    proof {
        let rest = lines(text@.subrange(p as int, text.len() as int));
        lemma_nonblank_concat(seen, rest);
        let b = nonblank(lines(text@));
        if p >= text.len() {
            assert(rest =~= Seq::<Seq<char>>::empty());
            assert(b =~= nonblank(seen));
        } else {
            assert(b.take(n as int) =~= nonblank(seen));
        }
    }
    out
}

} // verus!
