//! Character-level text model: the string operations that the markdown
//! format relies on, stated over `Seq<char>` and implemented on `Vec<char>`
//! ranges.
use vstd::prelude::*;

verus! {

// ---------------------------------------------------------------------
// Specification
// ---------------------------------------------------------------------

/// The Unicode `White_Space` property, which is what `char::is_whitespace`
/// (and therefore `str::trim`) tests.
pub open spec fn is_ws(c: char) -> bool {
    ||| ('\u{9}' <= c && c <= '\u{d}')
    ||| c == ' '
    ||| c == '\u{85}'
    ||| c == '\u{a0}'
    ||| c == '\u{1680}'
    ||| ('\u{2000}' <= c && c <= '\u{200a}')
    ||| c == '\u{2028}'
    ||| c == '\u{2029}'
    ||| c == '\u{202f}'
    ||| c == '\u{205f}'
    ||| c == '\u{3000}'
}

/// `s` with its leading whitespace removed.
pub open spec fn trim_start(s: Seq<char>) -> Seq<char>
    decreases s.len(),
{
    if s.len() > 0 && is_ws(s[0]) {
        trim_start(s.drop_first())
    } else {
        s
    }
}

/// `s` with its trailing whitespace removed.
pub open spec fn trim_end(s: Seq<char>) -> Seq<char>
    decreases s.len(),
{
    if s.len() > 0 && is_ws(s.last()) {
        trim_end(s.drop_last())
    } else {
        s
    }
}

/// `s` with leading and trailing whitespace removed (`str::trim`).
pub open spec fn trim(s: Seq<char>) -> Seq<char> {
    trim_end(trim_start(s))
}

/// `s` begins with `p`.
pub open spec fn starts_with(s: Seq<char>, p: Seq<char>) -> bool {
    p.len() <= s.len() && s.subrange(0, p.len() as int) == p
}

/// `s` ends with `p`.
pub open spec fn ends_with(s: Seq<char>, p: Seq<char>) -> bool {
    p.len() <= s.len() && s.subrange(s.len() - p.len(), s.len() as int) == p
}

/// `s` with every leading repetition of a non-empty `p` removed
/// (`str::trim_start_matches` with a string pattern).
pub open spec fn strip_prefix_all(s: Seq<char>, p: Seq<char>) -> Seq<char>
    decreases s.len(),
{
    if p.len() > 0 && starts_with(s, p) {
        strip_prefix_all(s.subrange(p.len() as int, s.len() as int), p)
    } else {
        s
    }
}

/// `s` with every leading `c` removed.
pub open spec fn trim_start_char(s: Seq<char>, c: char) -> Seq<char>
    decreases s.len(),
{
    if s.len() > 0 && s[0] == c {
        trim_start_char(s.drop_first(), c)
    } else {
        s
    }
}

/// `s` with every trailing `c` removed (`str::trim_end_matches` with a char).
pub open spec fn trim_end_char(s: Seq<char>, c: char) -> Seq<char>
    decreases s.len(),
{
    if s.len() > 0 && s.last() == c {
        trim_end_char(s.drop_last(), c)
    } else {
        s
    }
}

/// `s` with every leading and trailing `c` removed (`str::trim_matches` with a char).
pub open spec fn trim_char(s: Seq<char>, c: char) -> Seq<char> {
    trim_end_char(trim_start_char(s, c), c)
}

/// `p` occurs in `s` at index `i`.
pub open spec fn occurs_at(s: Seq<char>, p: Seq<char>, i: int) -> bool {
    0 <= i && i + p.len() <= s.len() && s.subrange(i, i + p.len()) == p
}

/// The first index at or after `i` where `p` occurs in `s`.
pub open spec fn find_from(s: Seq<char>, p: Seq<char>, i: int) -> Option<int>
    decreases s.len() + 1 - i,
{
    if i < 0 || i + p.len() > s.len() {
        None
    } else if occurs_at(s, p, i) {
        Some(i)
    } else {
        find_from(s, p, i + 1)
    }
}

/// The first index where `p` occurs in `s` (`str::find`, counted in characters).
pub open spec fn find(s: Seq<char>, p: Seq<char>) -> Option<int> {
    find_from(s, p, 0)
}

/// `p` occurs somewhere in `s` (`str::contains`).
pub open spec fn contains(s: Seq<char>, p: Seq<char>) -> bool {
    find(s, p) is Some
}

/// Index of the first line feed in `s`, or `s.len()` when there is none.
pub open spec fn newline_at(s: Seq<char>) -> nat
    decreases s.len(),
{
    if s.len() == 0 || s[0] == '\n' {
        0
    } else {
        1 + newline_at(s.drop_first())
    }
}

/// A line as `str::lines` yields it when a line feed ended it: without a
/// carriage return just before that line feed.
pub open spec fn strip_cr(l: Seq<char>) -> Seq<char> {
    if l.len() > 0 && l.last() == '\r' {
        l.drop_last()
    } else {
        l
    }
}

/// The lines of `s` as `str::lines` yields them: split at each line feed,
/// a carriage return before the line feed dropped, no empty last line
/// after a final line feed.
pub open spec fn lines(s: Seq<char>) -> Seq<Seq<char>>
    decreases s.len(),
{
    if s.len() == 0 {
        seq![]
    } else {
        let i = newline_at(s);
        proof {
            lemma_newline_at_bound(s);
        }
        if i < s.len() {
            seq![strip_cr(s.subrange(0, i as int))] + lines(s.subrange(i as int + 1, s.len() as int))
        } else {
            seq![s]
        }
    }
}

/// Each line followed by a line feed.
pub open spec fn join_lines(ls: Seq<Seq<char>>) -> Seq<char>
    decreases ls.len(),
{
    if ls.len() == 0 {
        seq![]
    } else {
        ls[0] + seq!['\n'] + join_lines(ls.drop_first())
    }
}

/// `s` holds no line feed.
pub open spec fn single_line(s: Seq<char>) -> bool {
    forall|i: int| 0 <= i < s.len() ==> s[i] != '\n'
}

/// The elements of `parts` with `sep` between each two (`[String]::join`).
pub open spec fn join_with(parts: Seq<Seq<char>>, sep: Seq<char>) -> Seq<char>
    decreases parts.len(),
{
    if parts.len() == 0 {
        seq![]
    } else if parts.len() == 1 {
        parts[0]
    } else {
        join_with(parts.drop_last(), sep) + sep + parts.last()
    }
}

/// The decimal digit for `d < 10`.
pub open spec fn digit_char(d: nat) -> char {
    if d == 0 { '0' }
    else if d == 1 { '1' }
    else if d == 2 { '2' }
    else if d == 3 { '3' }
    else if d == 4 { '4' }
    else if d == 5 { '5' }
    else if d == 6 { '6' }
    else if d == 7 { '7' }
    else if d == 8 { '8' }
    else { '9' }
}

/// The decimal notation of `n`, as `{}` formats an unsigned integer.
pub open spec fn decimal(n: nat) -> Seq<char>
    decreases n,
{
    if n < 10 {
        seq![digit_char(n)]
    } else {
        decimal(n / 10).push(digit_char(n % 10))
    }
}

/// `c` is an ASCII decimal digit.
pub open spec fn is_digit(c: char) -> bool {
    '0' <= c && c <= '9'
}

/// The value of a string of decimal digits.
pub open spec fn digits_value(s: Seq<char>) -> nat
    decreases s.len(),
{
    if s.len() == 0 {
        0
    } else {
        digits_value(s.drop_last()) * 10 + ((s.last() as int - '0' as int) as nat)
    }
}

/// Every character of `s` is a decimal digit.
pub open spec fn all_digits(s: Seq<char>) -> bool {
    forall|i: int| 0 <= i < s.len() ==> is_digit(#[trigger] s[i])
}

/// `s` without one leading `+`.
pub open spec fn unsigned_part(s: Seq<char>) -> Seq<char> {
    if s.len() > 0 && s[0] == '+' {
        s.drop_first()
    } else {
        s
    }
}

/// What `str::parse::<u64>` gives: an optional `+` followed by at least one
/// decimal digit, and nothing else, whose value fits in 64 bits.
pub open spec fn parse_u64(s: Seq<char>) -> Option<u64> {
    let d = unsigned_part(s);
    if d.len() > 0 && all_digits(d) && digits_value(d) <= u64::MAX {
        Some(digits_value(d) as u64)
    } else {
        None
    }
}

// ---------------------------------------------------------------------
// Basic lemmas
// ---------------------------------------------------------------------

pub proof fn lemma_newline_at_bound(s: Seq<char>)
    ensures
        newline_at(s) <= s.len(),
        newline_at(s) < s.len() ==> s[newline_at(s) as int] == '\n',
        forall|j: int| 0 <= j < newline_at(s) ==> s[j] != '\n',
    decreases s.len(),
{
    if s.len() > 0 && s[0] != '\n' {
        lemma_newline_at_bound(s.drop_first());
        assert forall|j: int| 0 <= j < newline_at(s) implies s[j] != '\n' by {
            if j > 0 {
                assert(s[j] == s.drop_first()[j - 1]);
            }
        }
    }
}

pub proof fn lemma_find_from_some(s: Seq<char>, p: Seq<char>, i: int)
    ensures
        find_from(s, p, i) matches Some(k) ==> i <= k && occurs_at(s, p, k) && k + p.len()
            <= s.len(),
    decreases s.len() + 1 - i,
{
    if !(i < 0 || i + p.len() > s.len()) && !occurs_at(s, p, i) {
        lemma_find_from_some(s, p, i + 1);
    }
}

pub proof fn lemma_find_some(s: Seq<char>, p: Seq<char>)
    ensures
        find(s, p) matches Some(k) ==> 0 <= k && occurs_at(s, p, k) && k + p.len() <= s.len(),
{
    lemma_find_from_some(s, p, 0);
}

/// The decimal notation of `n` is digits, the first of them not `+`, and
/// its value is `n`.
pub proof fn lemma_decimal_digits(n: nat)
    ensures
        decimal(n).len() > 0,
        all_digits(decimal(n)),
        is_digit(decimal(n)[0]),
        digits_value(decimal(n)) == n,
    decreases n,
{
    let c = digit_char(n % 10);
    assert(is_digit(c) && c as int - '0' as int == n % 10);
    if n >= 10 {
        lemma_decimal_digits(n / 10);
        let s = decimal(n / 10);
        assert(decimal(n) == s.push(c));
        assert(s.push(c).drop_last() =~= s);
        assert(s.push(c).last() == c);
        assert(digits_value(s.push(c)) == digits_value(s) * 10 + ((c as int - '0' as int) as nat));
        assert((n / 10) * 10 + n % 10 == n);
        assert(s.push(c)[0] == s[0]);
        assert forall|i: int| 0 <= i < s.push(c).len() implies is_digit(#[trigger] s.push(c)[i]) by {
            if i < s.len() {
                assert(s.push(c)[i] == s[i]);
            }
        }
    } else {
        assert(decimal(n) == seq![c]);
        assert(seq![c].drop_last() =~= Seq::<char>::empty());
        assert(seq![c].last() == c);
        assert(digits_value(Seq::<char>::empty()) == 0);
    }
}

/// Parsing the decimal notation of a 64-bit number gives the number back.
pub proof fn lemma_parse_decimal(n: nat)
    requires
        n <= u64::MAX,
    ensures
        parse_u64(decimal(n)) == Some(n as u64),
{
    lemma_decimal_digits(n);
    assert(unsigned_part(decimal(n)) == decimal(n));
}

// ---------------------------------------------------------------------
// Lemmas on lines, trimming and searching
// ---------------------------------------------------------------------

/// Every line of `ls` is a single line.
pub open spec fn all_single_line(ls: Seq<Seq<char>>) -> bool {
    forall|k: int| 0 <= k < ls.len() ==> single_line(#[trigger] ls[k])
}

/// Splitting joined single lines gives the lines back (each without a
/// carriage return before its line feed).
pub proof fn lemma_lines_of_join(ls: Seq<Seq<char>>)
    requires
        all_single_line(ls),
    ensures
        lines(join_lines(ls)) == ls.map_values(|l: Seq<char>| strip_cr(l)),
    decreases ls.len(),
{
    if ls.len() == 0 {
        assert(ls.map_values(|l: Seq<char>| strip_cr(l)) =~= Seq::<Seq<char>>::empty());
    } else {
        let l0 = ls[0];
        let rest = ls.drop_first();
        assert(all_single_line(rest)) by {
            assert forall|k: int| 0 <= k < rest.len() implies single_line(#[trigger] rest[k]) by {
                assert(rest[k] == ls[k + 1]);
            }
        }
        lemma_lines_of_join(rest);
        let s = join_lines(ls);
        assert(single_line(ls[0]));
        assert(s == l0 + seq!['\n'] + join_lines(rest));
        lemma_newline_at_is(s, l0.len() as int);
        assert(s.subrange(0, l0.len() as int) =~= l0);
        assert(s.subrange(l0.len() as int + 1, s.len() as int) =~= join_lines(rest));
        assert(ls.map_values(|l: Seq<char>| strip_cr(l)) =~= seq![strip_cr(l0)] + rest.map_values(
            |l: Seq<char>| strip_cr(l),
        ));
    }
}

/// Trimming ignores one more trailing whitespace character.
pub proof fn lemma_trim_push_ws(x: Seq<char>, c: char)
    requires
        is_ws(c),
    ensures
        trim(x.push(c)) == trim(x),
    decreases x.len(),
{
    if x.len() > 0 && is_ws(x[0]) {
        assert(x.push(c).drop_first() =~= x.drop_first().push(c));
        lemma_trim_push_ws(x.drop_first(), c);
    } else if x.len() > 0 {
        assert(x.push(c)[0] == x[0]);
        assert(x.push(c).drop_last() =~= x);
    } else {
        assert(x.push(c).drop_first() =~= x);
    }
}

/// Trimming ignores a carriage return dropped before a line feed.
pub proof fn lemma_trim_strip_cr(l: Seq<char>)
    ensures
        trim(strip_cr(l)) == trim(l),
{
    if l.len() > 0 && l.last() == '\r' {
        assert(l.drop_last().push('\r') =~= l);
        lemma_trim_push_ws(l.drop_last(), '\r');
    }
}

/// The first occurrence search can skip positions where `p` does not occur.
pub proof fn lemma_find_from_skip(s: Seq<char>, p: Seq<char>, i: int, m: int)
    requires
        0 <= i <= m,
        forall|j: int| i <= j < m ==> !occurs_at(s, p, j),
    ensures
        find_from(s, p, i) == find_from(s, p, m),
    decreases m - i,
{
    if i < m && i + p.len() <= s.len() {
        lemma_find_from_skip(s, p, i + 1, m);
    } else if i < m {
        assert(find_from(s, p, m) is None);
    }
}

/// Searching in `a + b` from inside `b` is searching in `b`.
pub proof fn lemma_find_from_shift(a: Seq<char>, b: Seq<char>, p: Seq<char>, j: int)
    requires
        0 <= j,
    ensures
        find_from(a + b, p, a.len() + j) == (match find_from(b, p, j) {
            Some(k) => Some(k + a.len()),
            None => None,
        }),
    decreases b.len() + 1 - j,
{
    if j + p.len() <= b.len() {
        assert((a + b).subrange(a.len() + j, a.len() + j + p.len()) =~= b.subrange(j, j + p.len()));
        if !occurs_at(b, p, j) {
            lemma_find_from_shift(a, b, p, j + 1);
        }
    }
}

/// Where the first `h` ending a line that an empty line follows ends.
pub open spec fn header_pos(ls: Seq<Seq<char>>, h: Seq<char>) -> Option<int>
    decreases ls.len(),
{
    if ls.len() == 0 {
        None
    } else if ends_with(ls[0], h) && ls.len() >= 2 && ls[1].len() == 0 {
        Some(ls[0].len() - h.len())
    } else {
        match header_pos(ls.drop_first(), h) {
            Some(k) => Some(k + ls[0].len() + 1),
            None => None,
        }
    }
}

/// The lines after the first are single lines too.
proof fn lemma_rest_single_line(ls: Seq<Seq<char>>)
    requires
        all_single_line(ls),
        ls.len() > 0,
    ensures
        all_single_line(ls.drop_first()),
        single_line(ls[0]),
{
    let rest = ls.drop_first();
    assert forall|k: int| 0 <= k < rest.len() implies single_line(#[trigger] rest[k]) by {
        assert(rest[k] == ls[k + 1]);
    }
}

/// Joined lines begin with the first line and a line feed.
proof fn lemma_join_first(ls: Seq<Seq<char>>)
    requires
        ls.len() > 0,
    ensures
        join_lines(ls) == ls[0] + seq!['\n'] + join_lines(ls.drop_first()),
        join_lines(ls).len() == ls[0].len() + 1 + join_lines(ls.drop_first()).len(),
        forall|t: int| 0 <= t < ls[0].len() ==> join_lines(ls)[t] == ls[0][t],
        join_lines(ls)[ls[0].len() as int] == '\n',
        forall|t: int|
            0 <= t < join_lines(ls.drop_first()).len() ==> join_lines(ls)[ls[0].len() + 1 + t]
                == join_lines(ls.drop_first())[t],
{
}

/// Joined single lines begin with a line feed only when the first line is
/// empty.
proof fn lemma_join_starts_newline(ls: Seq<Seq<char>>)
    requires
        all_single_line(ls),
        ls.len() > 0,
    ensures
        join_lines(ls)[0] == '\n' <==> ls[0].len() == 0,
{
    lemma_join_first(ls);
    lemma_rest_single_line(ls);
}

/// An occurrence of `h` and two line feeds within or at the end of the first
/// line is the heading ending that line with an empty line after it.
proof fn lemma_header_occurrence(ls: Seq<Seq<char>>, h: Seq<char>, i: int)
    requires
        all_single_line(ls),
        single_line(h),
        h.len() > 0,
        ls.len() > 0,
        0 <= i <= ls[0].len(),
        occurs_at(join_lines(ls), h + seq!['\n', '\n'], i),
    ensures
        i + h.len() == ls[0].len(),
        ends_with(ls[0], h),
        ls.len() >= 2,
        ls[1].len() == 0,
{
    let q = h + seq!['\n', '\n'];
    let md = join_lines(ls);
    let l0 = ls[0];
    lemma_join_first(ls);
    lemma_rest_single_line(ls);
    let w = md.subrange(i, i + q.len());
    assert(w == q);
    assert(q[h.len() as int] == '\n');
    assert(q[h.len() as int + 1] == '\n');
    if i + h.len() < l0.len() {
        assert(w[h.len() as int] == md[i + h.len()]);
        assert(md[i + h.len()] == l0[i + h.len()]);
        assert(false);
    }
    if i + h.len() > l0.len() {
        let t = l0.len() - i;
        assert(w[t] == md[l0.len() as int]);
        assert(q[t] == h[t]);
        assert(false);
    }
    assert(w[h.len() as int + 1] == md[l0.len() as int + 1]);
    let jr = join_lines(ls.drop_first());
    assert(jr.len() > 0);
    assert(md[l0.len() as int + 1] == jr[0]);
    assert(ls.drop_first().len() > 0);
    lemma_join_starts_newline(ls.drop_first());
    assert(ls[1] == ls.drop_first()[0]);
    assert(l0.subrange(l0.len() - h.len(), l0.len() as int) =~= h) by {
        assert forall|t: int| 0 <= t < h.len() implies l0.subrange(
            l0.len() - h.len(),
            l0.len() as int,
        )[t] == h[t] by {
            assert(w[t] == md[i + t]);
            assert(q[t] == h[t]);
        }
    }
}

/// Searching joined lines for a heading followed by an empty line.
pub proof fn lemma_find_header(ls: Seq<Seq<char>>, h: Seq<char>)
    requires
        all_single_line(ls),
        single_line(h),
        h.len() > 0,
    ensures
        find(join_lines(ls), h + seq!['\n', '\n']) == header_pos(ls, h),
    decreases ls.len(),
{
    let q = h + seq!['\n', '\n'];
    let md = join_lines(ls);
    if ls.len() == 0 {
        assert(find_from(md, q, 0) is None);
    } else {
        let l0 = ls[0];
        let rest = ls.drop_first();
        lemma_join_first(ls);
        lemma_rest_single_line(ls);
        let jr = join_lines(rest);
        if ends_with(l0, h) && ls.len() >= 2 && ls[1].len() == 0 {
            let i0 = l0.len() - h.len();
            lemma_join_first(rest);
            assert(rest[0] == ls[1]);
            assert(md.subrange(i0, i0 + q.len()) =~= q) by {
                assert forall|t: int| 0 <= t < q.len() implies md.subrange(i0, i0 + q.len())[t]
                    == q[t] by {
                    if t < h.len() {
                        assert(l0.subrange(l0.len() - h.len(), l0.len() as int)[t] == h[t]);
                        assert(md[i0 + t] == l0[i0 + t]);
                    } else if t == h.len() {
                        assert(md[i0 + t] == md[l0.len() as int]);
                    } else {
                        assert(md[i0 + t] == jr[0]);
                    }
                }
            }
            assert forall|j: int| 0 <= j < i0 implies !occurs_at(md, q, j) by {
                if occurs_at(md, q, j) {
                    lemma_header_occurrence(ls, h, j);
                }
            }
            lemma_find_from_skip(md, q, 0, i0);
        } else {
            assert forall|j: int| 0 <= j < l0.len() + 1 implies !occurs_at(md, q, j) by {
                if occurs_at(md, q, j) {
                    lemma_header_occurrence(ls, h, j);
                }
            }
            lemma_find_from_skip(md, q, 0, l0.len() as int + 1);
            lemma_find_header(rest, h);
            assert(md =~= (l0 + seq!['\n']) + jr);
            lemma_find_from_shift(l0 + seq!['\n'], jr, q, 0);
        }
    }
}

/// Where the first line feed that a line beginning with `b` follows is.
pub open spec fn break_pos(ls: Seq<Seq<char>>, b: Seq<char>) -> Option<int>
    decreases ls.len(),
{
    if ls.len() == 0 {
        None
    } else if ls.len() >= 2 && starts_with(ls[1], b) {
        Some(ls[0].len() as int)
    } else {
        match break_pos(ls.drop_first(), b) {
            Some(k) => Some(k + ls[0].len() + 1),
            None => None,
        }
    }
}

/// A line feed and `b` occur in joined lines within the first line only at
/// its end, and only when the next line begins with `b`.
proof fn lemma_break_occurrence(ls: Seq<Seq<char>>, b: Seq<char>, i: int)
    requires
        all_single_line(ls),
        single_line(b),
        b.len() > 0,
        ls.len() > 0,
        0 <= i <= ls[0].len(),
        occurs_at(join_lines(ls), seq!['\n'] + b, i),
    ensures
        i == ls[0].len(),
        ls.len() >= 2,
        starts_with(ls[1], b),
{
    let q = seq!['\n'] + b;
    let md = join_lines(ls);
    let l0 = ls[0];
    lemma_join_first(ls);
    lemma_rest_single_line(ls);
    let w = md.subrange(i, i + q.len());
    assert(w == q);
    assert(w[0] == md[i]);
    if i < l0.len() {
        assert(md[i] == l0[i]);
        assert(false);
    }
    let rest = ls.drop_first();
    let jr = join_lines(rest);
    assert(jr.len() >= b.len());
    assert(rest.len() > 0);
    lemma_join_first(rest);
    lemma_rest_single_line(rest);
    let r0 = rest[0];
    assert(r0 == ls[1]);
    if r0.len() < b.len() {
        let m = r0.len() as int;
        assert(w[m + 1] == md[l0.len() + 1 + m]);
        assert(md[l0.len() + 1 + m] == jr[m]);
        assert(jr[m] == '\n');
        assert(q[m + 1] == b[m]);
        assert(false);
    }
    assert forall|t: int| 0 <= t < b.len() implies r0[t] == b[t] by {
        assert(w[t + 1] == md[l0.len() + 1 + t]);
        assert(md[l0.len() + 1 + t] == jr[t]);
        assert(q[t + 1] == b[t]);
        assert(jr[t] == r0[t]);
    }
    assert(r0.subrange(0, b.len() as int) =~= b);
}

/// Searching joined lines for a line feed followed by `b`.
pub proof fn lemma_find_break(ls: Seq<Seq<char>>, b: Seq<char>)
    requires
        all_single_line(ls),
        single_line(b),
        b.len() > 0,
    ensures
        find(join_lines(ls), seq!['\n'] + b) == break_pos(ls, b),
    decreases ls.len(),
{
    let q = seq!['\n'] + b;
    let md = join_lines(ls);
    if ls.len() == 0 {
        assert(find_from(md, q, 0) is None);
    } else {
        let l0 = ls[0];
        let rest = ls.drop_first();
        lemma_join_first(ls);
        lemma_rest_single_line(ls);
        let jr = join_lines(rest);
        if ls.len() >= 2 && starts_with(ls[1], b) {
            lemma_join_first(rest);
            assert(rest[0] == ls[1]);
            let i0 = l0.len() as int;
            assert(md.subrange(i0, i0 + q.len()) =~= q) by {
                assert forall|t: int| 0 <= t < q.len() implies md.subrange(i0, i0 + q.len())[t]
                    == q[t] by {
                    if t > 0 {
                        assert(ls[1].subrange(0, b.len() as int)[t - 1] == b[t - 1]);
                        assert(md[i0 + t] == jr[t - 1]);
                        assert(jr[t - 1] == rest[0][t - 1]);
                    }
                }
            }
            assert forall|j: int| 0 <= j < i0 implies !occurs_at(md, q, j) by {
                if occurs_at(md, q, j) {
                    lemma_break_occurrence(ls, b, j);
                }
            }
            lemma_find_from_skip(md, q, 0, i0);
        } else {
            assert forall|j: int| 0 <= j < l0.len() + 1 implies !occurs_at(md, q, j) by {
                if occurs_at(md, q, j) {
                    lemma_break_occurrence(ls, b, j);
                }
            }
            lemma_find_from_skip(md, q, 0, l0.len() as int + 1);
            lemma_find_break(rest, b);
            assert(md =~= (l0 + seq!['\n']) + jr);
            lemma_find_from_shift(l0 + seq!['\n'], jr, q, 0);
        }
    }
}

// ---------------------------------------------------------------------
// Executable helpers
// ---------------------------------------------------------------------

/// `char::is_whitespace`.
pub fn is_ws_char(c: char) -> (r: bool)
    ensures
        r == is_ws(c),
{
    ('\u{9}' <= c && c <= '\u{d}') || c == ' ' || c == '\u{85}' || c == '\u{a0}' || c
        == '\u{1680}' || ('\u{2000}' <= c && c <= '\u{200a}') || c == '\u{2028}' || c
        == '\u{2029}' || c == '\u{202f}' || c == '\u{205f}' || c == '\u{3000}'
}

/// `String::push`.
#[verifier::external_body]
pub(crate) fn push_char(s: &mut String, c: char)
    ensures
        final(s)@ == old(s)@.push(c),
{
    s.push(c);
}

/// The characters of `s`, in order.
pub fn chars_of(s: &str) -> (v: Vec<char>)
    ensures
        v@ == s@,
{
    let mut v: Vec<char> = Vec::new();
    for c in it: s.chars()
        invariant
            it.seq() == s@,
            v@.len() == it.index(),
            forall|j: int| 0 <= j < it.index() ==> v@[j] == s@[j],
    {
        v.push(c);
    }
    v
}

/// The characters `cs[lo..hi]` as a `String`.
pub fn string_of(cs: &Vec<char>, lo: usize, hi: usize) -> (r: String)
    requires
        lo <= hi <= cs@.len(),
    ensures
        r@ == cs@.subrange(lo as int, hi as int),
{
    let mut r = String::new();
    let mut i = lo;
    while i < hi
        invariant
            lo <= i <= hi <= cs@.len(),
            r@ == cs@.subrange(lo as int, i as int),
        decreases hi - i,
    {
        push_char(&mut r, cs[i]);
        assert(cs@.subrange(lo as int, i + 1) =~= cs@.subrange(lo as int, i as int).push(cs@[i as int]));
        i += 1;
    }
    r
}


/// The range of `trim(cs[lo..hi])` inside `cs`.
pub fn trim_range(cs: &Vec<char>, lo: usize, hi: usize) -> (r: (usize, usize))
    requires
        lo <= hi <= cs@.len(),
    ensures
        lo <= r.0 <= r.1 <= hi,
        cs@.subrange(r.0 as int, r.1 as int) == trim(cs@.subrange(lo as int, hi as int)),
{
    let mut a = lo;
    while a < hi && is_ws_char(cs[a])
        invariant
            lo <= a <= hi <= cs@.len(),
            trim_start(cs@.subrange(lo as int, hi as int)) == trim_start(
                cs@.subrange(a as int, hi as int),
            ),
        decreases hi - a,
    {
        assert(cs@.subrange(a as int, hi as int).drop_first() =~= cs@.subrange(a + 1, hi as int));
        a += 1;
    }
    assert(a < hi ==> cs@.subrange(a as int, hi as int)[0] == cs@[a as int]);
    assert(trim_start(cs@.subrange(a as int, hi as int)) == cs@.subrange(a as int, hi as int));
    let mut b = hi;
    while b > a && is_ws_char(cs[b - 1])
        invariant
            lo <= a <= b <= hi <= cs@.len(),
            trim_end(cs@.subrange(a as int, hi as int)) == trim_end(
                cs@.subrange(a as int, b as int),
            ),
        decreases b - a,
    {
        assert(cs@.subrange(a as int, b as int).drop_last() =~= cs@.subrange(a as int, b - 1));
        b -= 1;
    }
    assert(b > a ==> cs@.subrange(a as int, b as int).last() == cs@[b - 1]);
    (a, b)
}

/// Whether `cs[lo..hi]` begins with `p`.
pub fn starts_with_range(cs: &Vec<char>, lo: usize, hi: usize, p: &Vec<char>) -> (r: bool)
    requires
        lo <= hi <= cs@.len(),
    ensures
        r == starts_with(cs@.subrange(lo as int, hi as int), p@),
{
    if p.len() > hi - lo {
        return false;
    }
    let mut i: usize = 0;
    while i < p.len()
        invariant
            i <= p@.len() <= hi - lo,
            lo <= hi <= cs@.len(),
            forall|j: int| 0 <= j < i ==> cs@[lo + j] == p@[j],
        decreases p.len() - i,
    {
        if cs[lo + i] != p[i] {
            assert(cs@.subrange(lo as int, hi as int).subrange(0, p@.len() as int)[i as int]
                != p@[i as int]);
            return false;
        }
        i += 1;
    }
    assert(cs@.subrange(lo as int, hi as int).subrange(0, p@.len() as int) =~= p@);
    true
}

/// Where `strip_prefix_all(cs[lo..hi], p)` begins inside `cs`.
pub fn strip_prefix_all_range(cs: &Vec<char>, lo: usize, hi: usize, p: &Vec<char>) -> (r: usize)
    requires
        lo <= hi <= cs@.len(),
    ensures
        lo <= r <= hi,
        cs@.subrange(r as int, hi as int) == strip_prefix_all(
            cs@.subrange(lo as int, hi as int),
            p@,
        ),
{
    if p.len() == 0 {
        return lo;
    }
    let mut a = lo;
    while starts_with_range(cs, a, hi, p)
        invariant
            lo <= a <= hi <= cs@.len(),
            p@.len() > 0,
            strip_prefix_all(cs@.subrange(lo as int, hi as int), p@) == strip_prefix_all(
                cs@.subrange(a as int, hi as int),
                p@,
            ),
        decreases hi - a,
    {
        assert(cs@.subrange(a as int, hi as int).subrange(
            p@.len() as int,
            cs@.subrange(a as int, hi as int).len() as int,
        ) =~= cs@.subrange(a + p@.len(), hi as int));
        a += p.len();
    }
    a
}

/// Whether `p` occurs in `cs[lo..hi]` at offset `i - lo`.
fn occurs_at_range(cs: &Vec<char>, lo: usize, hi: usize, p: &Vec<char>, i: usize) -> (r: bool)
    requires
        lo <= i <= hi <= cs@.len(),
    ensures
        r == occurs_at(cs@.subrange(lo as int, hi as int), p@, i - lo),
{
    let r = starts_with_range(cs, i, hi, p);
    proof {
        if i - lo + p@.len() <= hi - lo {
            assert(cs@.subrange(lo as int, hi as int).subrange(i - lo, i - lo + p@.len())
            =~= cs@.subrange(i as int, hi as int).subrange(0, p@.len() as int));
        }
    }
    r
}

/// The first occurrence of `p` in `cs[lo..hi]`, as an index into `cs`.
pub fn find_range(cs: &Vec<char>, lo: usize, hi: usize, p: &Vec<char>) -> (r: Option<usize>)
    requires
        lo <= hi <= cs@.len(),
    ensures
        match r {
            Some(j) => lo <= j <= hi && find(cs@.subrange(lo as int, hi as int), p@) == Some(
                j - lo,
            ),
            None => find(cs@.subrange(lo as int, hi as int), p@) is None,
        },
{
    let mut i = lo;
    while i <= hi
        invariant
            lo <= i <= hi + 1,
            hi <= cs@.len(),
            find(cs@.subrange(lo as int, hi as int), p@) == find_from(
                cs@.subrange(lo as int, hi as int),
                p@,
                i - lo,
            ),
        decreases hi + 1 - i,
    {
        if p.len() > hi - i {
            return None;
        }
        if occurs_at_range(cs, lo, hi, p, i) {
            return Some(i);
        }
        proof {
            if i == hi {
                assert(cs@.subrange(lo as int, hi as int).subrange(i - lo, i - lo) =~= p@);
            }
        }
        i += 1;
    }
    None
}

/// Where `trim_char(cs[lo..hi], c)` lies inside `cs`.
pub fn trim_char_range(cs: &Vec<char>, lo: usize, hi: usize, c: char) -> (r: (usize, usize))
    requires
        lo <= hi <= cs@.len(),
    ensures
        lo <= r.0 <= r.1 <= hi,
        cs@.subrange(r.0 as int, r.1 as int) == trim_char(cs@.subrange(lo as int, hi as int), c),
{
    let mut a = lo;
    while a < hi && cs[a] == c
        invariant
            lo <= a <= hi <= cs@.len(),
            trim_start_char(cs@.subrange(lo as int, hi as int), c) == trim_start_char(
                cs@.subrange(a as int, hi as int),
                c,
            ),
        decreases hi - a,
    {
        assert(cs@.subrange(a as int, hi as int).drop_first() =~= cs@.subrange(a + 1, hi as int));
        a += 1;
    }
    assert(a < hi ==> cs@.subrange(a as int, hi as int)[0] == cs@[a as int]);
    let b = trim_end_char_range(cs, a, hi, c);
    (a, b)
}

/// Where `trim_end_char(cs[lo..hi], c)` ends inside `cs`.
pub fn trim_end_char_range(cs: &Vec<char>, lo: usize, hi: usize, c: char) -> (r: usize)
    requires
        lo <= hi <= cs@.len(),
    ensures
        lo <= r <= hi,
        cs@.subrange(lo as int, r as int) == trim_end_char(cs@.subrange(lo as int, hi as int), c),
{
    let mut b = hi;
    while b > lo && cs[b - 1] == c
        invariant
            lo <= b <= hi <= cs@.len(),
            trim_end_char(cs@.subrange(lo as int, hi as int), c) == trim_end_char(
                cs@.subrange(lo as int, b as int),
                c,
            ),
        decreases b - lo,
    {
        assert(cs@.subrange(lo as int, b as int).drop_last() =~= cs@.subrange(lo as int, b - 1));
        b -= 1;
    }
    assert(b > lo ==> cs@.subrange(lo as int, b as int).last() == cs@[b - 1]);
    b
}

/// `newline_at` is the first line feed.
pub proof fn lemma_newline_at_is(s: Seq<char>, k: int)
    requires
        0 <= k <= s.len(),
        k < s.len() ==> s[k] == '\n',
        forall|j: int| 0 <= j < k ==> s[j] != '\n',
    ensures
        newline_at(s) == k,
    decreases s.len(),
{
    if k > 0 {
        assert(s[0] != '\n');
        lemma_newline_at_is(s.drop_first(), k - 1);
    }
}

/// The next line of `cs[pos..hi]`: its range (carriage return dropped as
/// `str::lines` does) and where the rest begins.
pub fn next_line(cs: &Vec<char>, pos: usize, hi: usize) -> (r: (usize, usize, usize))
    requires
        pos < hi <= cs@.len(),
    ensures
        pos <= r.0 <= r.1 <= hi,
        pos < r.2 <= hi,
        lines(cs@.subrange(pos as int, hi as int)) == seq![cs@.subrange(r.0 as int, r.1 as int)]
            + lines(cs@.subrange(r.2 as int, hi as int)),
{
    let mut i = pos;
    while i < hi && cs[i] != '\n'
        invariant
            pos <= i <= hi <= cs@.len(),
            forall|j: int| pos <= j < i ==> cs@[j] != '\n',
        decreases hi - i,
    {
        i += 1;
    }
    let ghost s = cs@.subrange(pos as int, hi as int);
    proof {
        lemma_newline_at_is(s, i - pos);
    }
    if i < hi {
        let e = if i > pos && cs[i - 1] == '\r' {
            i - 1
        } else {
            i
        };
        assert(s.subrange(i - pos + 1, s.len() as int) =~= cs@.subrange(i + 1, hi as int));
        assert(strip_cr(s.subrange(0, i - pos)) =~= cs@.subrange(pos as int, e as int));
        (pos, e, i + 1)
    } else {
        assert(cs@.subrange(hi as int, hi as int) =~= Seq::<char>::empty());
        assert(lines(cs@.subrange(hi as int, hi as int)) =~= Seq::<Seq<char>>::empty());
        assert(seq![s] + Seq::<Seq<char>>::empty() =~= seq![s]);
        (pos, hi, hi)
    }
}

/// The decimal digit for `d < 10`.
pub fn digit_of(d: u128) -> (c: char)
    requires
        d < 10,
    ensures
        c == digit_char(d as nat),
{
    if d == 0 { '0' }
    else if d == 1 { '1' }
    else if d == 2 { '2' }
    else if d == 3 { '3' }
    else if d == 4 { '4' }
    else if d == 5 { '5' }
    else if d == 6 { '6' }
    else if d == 7 { '7' }
    else if d == 8 { '8' }
    else { '9' }
}

/// Appends the decimal notation of `n` to `s`.
pub fn push_decimal(s: &mut String, n: u128)
    ensures
        final(s)@ == old(s)@ + decimal(n as nat),
    decreases n,
{
    if n >= 10 {
        push_decimal(s, n / 10);
    }
    push_char(s, digit_of(n % 10));
    proof {
        if n >= 10 {
            assert(old(s)@ + decimal(n as nat) =~= old(s)@ + decimal((n / 10) as nat) + seq![
                digit_char((n % 10) as nat),
            ]);
        } else {
            assert(old(s)@ + decimal(n as nat) =~= old(s)@.push(digit_char((n % 10) as nat)));
        }
    }
}

/// `str::parse::<u64>` on `cs[lo..hi]`.
pub fn parse_u64_range(cs: &Vec<char>, lo: usize, hi: usize) -> (r: Option<u64>)
    requires
        lo <= hi <= cs@.len(),
    ensures
        r == parse_u64(cs@.subrange(lo as int, hi as int)),
{
    let ghost s = cs@.subrange(lo as int, hi as int);
    let mut a = lo;
    if a < hi && cs[a] == '+' {
        a += 1;
    }
    let ghost d = if s.len() > 0 && s[0] == '+' { s.drop_first() } else { s };
    assert(d =~= cs@.subrange(a as int, hi as int));
    if a == hi {
        return None;
    }
    let mut v: u64 = 0;
    let mut too_big = false;
    let mut i = a;
    while i < hi
        invariant
            lo <= a < hi <= cs@.len(),
            a <= i <= hi,
            d == cs@.subrange(a as int, hi as int),
            s == cs@.subrange(lo as int, hi as int),
            d == unsigned_part(s),
            forall|j: int| a <= j < i ==> is_digit(#[trigger] cs@[j]),
            too_big ==> digits_value(cs@.subrange(a as int, i as int)) > u64::MAX,
            !too_big ==> v == digits_value(cs@.subrange(a as int, i as int)),
        decreases hi - i,
    {
        let c = cs[i];
        if !('0' <= c && c <= '9') {
            assert(d[i - a] == c);
            assert(!is_digit(d[i - a]));
            return None;
        }
        let dig = (c as u32 - '0' as u32) as u64;
        assert(cs@.subrange(a as int, i + 1).drop_last() =~= cs@.subrange(a as int, i as int));
        if !too_big {
            if v > (u64::MAX - dig) / 10 {
                too_big = true;
            } else {
                v = v * 10 + dig;
            }
        }
        i += 1;
    }
    assert forall|j: int| 0 <= j < d.len() implies is_digit(#[trigger] d[j]) by {
        assert(d[j] == cs@[a + j]);
    }
    assert(all_digits(d));
    if too_big {
        None
    } else {
        Some(v)
    }
}

/// `[String]::join` with separator `sep`.
pub fn join_strings(parts: &Vec<String>, sep: &str) -> (r: String)
    ensures
        r@ == join_with(parts@.map_values(|p: String| p@), sep@),
{
    let ghost views = parts@.map_values(|p: String| p@);
    let mut r = String::new();
    let mut i: usize = 0;
    while i < parts.len()
        invariant
            i <= parts@.len(),
            views == parts@.map_values(|p: String| p@),
            r@ == join_with(views.take(i as int), sep@),
        decreases parts.len() - i,
    {
        assert(views.take(i + 1).drop_last() =~= views.take(i as int));
        if i != 0 {
            r.append(sep);
        }
        r.append(parts[i].as_str());
        i += 1;
    }
    assert(views.take(parts@.len() as int) =~= views);
    r
}

/// What `str::to_lowercase` returns for a text: its Unicode lowercase
/// mapping, which depends on the text alone.
pub uninterp spec fn lowercase_of(s: Seq<char>) -> Seq<char>;

/// `str::to_lowercase`: the lowercase form of `s`, named `lowercase_of`.
#[verifier::external_body]
pub(crate) fn to_lowercase(s: &str) -> (r: String)
    ensures
        r@ == lowercase_of(s@),
{
    s.to_lowercase()
}
} // verus!
