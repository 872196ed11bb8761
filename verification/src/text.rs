//! Character-level text operations with their meaning over sequences of
//! characters: classification, trimming, searching, splitting, and
//! decimal numbers.

use vstd::prelude::*;

verus! {

/// `String::push` appends one character to the end of the string and leaves
/// the characters before it as they were.
pub assume_specification[ String::push ](s: &mut String, c: char)
    ensures
        final(s)@ == old(s)@.push(c),
;

/// The characters of `s`, in order.
pub fn chars_of(s: &str) -> (v: Vec<char>)
    ensures
        v@ == s@,
{
    let mut v: Vec<char> = Vec::new();
    for c in it: s.chars()
        invariant
            v@ == s@.take(it.index() as int),
            it.seq() == s@,
    {
        v.push(c);
    }
    v
}

/// The string made of the characters of `v`, in order.
pub fn string_of(v: &[char]) -> (s: String)
    ensures
        s@ == v@,
{
    let mut s = String::new();
    let mut i: usize = 0;
    while i < v.len()
        invariant
            i <= v.len(),
            s@ == v@.take(i as int),
        decreases v.len() - i,
    {
        s.push(v[i]);
        i += 1;
    }
    s
}

/// White space: the characters with the Unicode property `White_Space`.
pub open spec fn is_space(c: char) -> bool {
    let u = c as u32;
    ||| 0x09 <= u <= 0x0d
    ||| u == 0x20
    ||| u == 0x85
    ||| u == 0xa0
    ||| u == 0x1680
    ||| 0x2000 <= u <= 0x200a
    ||| u == 0x2028
    ||| u == 0x2029
    ||| u == 0x202f
    ||| u == 0x205f
    ||| u == 0x3000
}

/// Whether `c` is white space.
pub fn is_whitespace(c: char) -> (r: bool)
    ensures
        r == is_space(c),
{
    let u = c as u32;
    (0x09 <= u && u <= 0x0d) || u == 0x20 || u == 0x85 || u == 0xa0 || u == 0x1680 || (0x2000 <= u
        && u <= 0x200a) || u == 0x2028 || u == 0x2029 || u == 0x202f || u == 0x205f || u == 0x3000
}

/// A decimal digit, `0` to `9`.
pub open spec fn is_digit(c: char) -> bool {
    '0' <= c <= '9'
}

/// The number a decimal digit stands for.
pub open spec fn digit_value(c: char) -> int {
    c as u32 - 48
}

/// The digit that stands for `d`, for `d` below ten.
pub open spec fn digit_char(d: int) -> char {
    (d + 48) as char
}

/// Whether `c` is a decimal digit.
pub fn is_ascii_digit(c: char) -> (r: bool)
    ensures
        r == is_digit(c),
{
    c >= '0' && c <= '9'
}

/// `needle` stands in `hay` at position `i`.
pub open spec fn occurs_at(hay: Seq<char>, needle: Seq<char>, i: int) -> bool {
    0 <= i && i + needle.len() <= hay.len() && hay.subrange(i, i + needle.len()) == needle
}

/// `needle` stands somewhere in `hay`.
pub open spec fn contains_text(hay: Seq<char>, needle: Seq<char>) -> bool {
    exists|i: int| occurs_at(hay, needle, i)
}

/// `i` is the first position at which `needle` stands in `hay`.
pub open spec fn is_first_occurrence(hay: Seq<char>, needle: Seq<char>, i: int) -> bool {
    occurs_at(hay, needle, i) && forall|j: int| 0 <= j < i ==> !occurs_at(hay, needle, j)
}

/// The first position at which `needle` stands in `hay`; meaningful where
/// it stands anywhere.
pub open spec fn first_index_of(hay: Seq<char>, needle: Seq<char>) -> int {
    choose|i: int| is_first_occurrence(hay, needle, i)
}

/// There is one first occurrence at most.
pub proof fn lemma_first_occurrence_unique(hay: Seq<char>, needle: Seq<char>, i: int)
    requires
        is_first_occurrence(hay, needle, i),
    ensures
        first_index_of(hay, needle) == i,
        contains_text(hay, needle),
{
    let j = first_index_of(hay, needle);
    assert(is_first_occurrence(hay, needle, j));
    if j < i {
        assert(!occurs_at(hay, needle, j));
    } else if i < j {
        assert(!occurs_at(hay, needle, i));
    }
}

/// `s` without `suffix` at its end, as often as it stands there.
pub open spec fn trim_end_matches_of(s: Seq<char>, suffix: Seq<char>) -> Seq<char>
    decreases s.len(),
{
    if suffix.len() > 0 && suffix.is_suffix_of(s) {
        trim_end_matches_of(s.take(s.len() - suffix.len()), suffix)
    } else {
        s
    }
}

/// A copy of the characters of `s` from position `from` up to `to`.
pub fn slice_of(s: &[char], from: usize, to: usize) -> (r: Vec<char>)
    requires
        from <= to <= s.len(),
    ensures
        r@ == s@.subrange(from as int, to as int),
{
    let mut r: Vec<char> = Vec::new();
    let mut i: usize = from;
    while i < to
        invariant
            from <= i <= to <= s.len(),
            r@ == s@.subrange(from as int, i as int),
        decreases to - i,
    {
        r.push(s[i]);
        assert(s@.subrange(from as int, i + 1) == s@.subrange(from as int, i as int).push(s@[i as int]));
        i += 1;
    }
    r
}

/// Appends the characters of `tail` to `out`.
pub fn append(out: &mut Vec<char>, tail: &[char])
    ensures
        final(out)@ == old(out)@ + tail@,
{
    let mut i: usize = 0;
    while i < tail.len()
        invariant
            i <= tail.len(),
            out@ == old(out)@ + tail@.take(i as int),
        decreases tail.len() - i,
    {
        out.push(tail[i]);
        assert(old(out)@ + tail@.take(i + 1) == (old(out)@ + tail@.take(i as int)).push(tail@[i as int]));
        i += 1;
    }
    assert(tail@.take(i as int) == tail@);
}

/// Whether `needle` stands in `hay` at position `i`.
pub fn matches_at(hay: &[char], needle: &[char], i: usize) -> (r: bool)
    ensures
        r == occurs_at(hay@, needle@, i as int),
{
    if i > hay.len() || needle.len() > hay.len() - i {
        return false;
    }
    let mut k: usize = 0;
    while k < needle.len()
        invariant
            k <= needle.len(),
            i + needle.len() <= hay.len(),
            forall|j: int| 0 <= j < k ==> hay@[i + j] == needle@[j],
        decreases needle.len() - k,
    {
        if hay[i + k] != needle[k] {
            assert(hay@.subrange(i as int, i + needle.len())[k as int] != needle@[k as int]);
            return false;
        }
        k += 1;
    }
    assert(hay@.subrange(i as int, i + needle.len()) =~= needle@);
    true
}

/// Whether the two texts hold the same characters.
pub fn same(a: &[char], b: &[char]) -> (r: bool)
    ensures
        r == (a@ == b@),
{
    if a.len() != b.len() {
        return false;
    }
    let r = matches_at(a, b, 0);
    assert(a@.subrange(0, a@.len() as int) == a@);
    r
}

/// Whether `s` begins with `prefix`.
pub fn starts_with(s: &[char], prefix: &[char]) -> (r: bool)
    ensures
        r == prefix@.is_prefix_of(s@),
{
    matches_at(s, prefix, 0)
}

/// Whether `s` ends with `suffix`.
pub fn ends_with(s: &[char], suffix: &[char]) -> (r: bool)
    ensures
        r == suffix@.is_suffix_of(s@),
{
    if suffix.len() > s.len() {
        return false;
    }
    matches_at(s, suffix, s.len() - suffix.len())
}

/// The first position at which `needle` stands in `hay`, if it stands
/// anywhere.
pub fn find(hay: &[char], needle: &[char]) -> (r: Option<usize>)
    ensures
        match r {
            Some(i) => is_first_occurrence(hay@, needle@, i as int) && i == first_index_of(
                hay@,
                needle@,
            ) && contains_text(hay@, needle@),
            None => !contains_text(hay@, needle@),
        },
{
    let mut i: usize = 0;
    while i < hay.len()
        invariant
            i <= hay.len(),
            forall|j: int| 0 <= j < i ==> !occurs_at(hay@, needle@, j),
        decreases hay.len() - i,
    {
        if matches_at(hay, needle, i) {
            proof {
                lemma_first_occurrence_unique(hay@, needle@, i as int);
            }
            return Some(i);
        }
        i += 1;
    }
    if matches_at(hay, needle, i) {
        proof {
            lemma_first_occurrence_unique(hay@, needle@, i as int);
        }
        return Some(i);
    }
    None
}

/// Whether `needle` stands somewhere in `hay`.
pub fn contains(hay: &[char], needle: &[char]) -> (r: bool)
    ensures
        r == contains_text(hay@, needle@),
{
    find(hay, needle).is_some()
}

/// `s` without the white space it begins with.
pub open spec fn trim_start_of(s: Seq<char>) -> Seq<char>
    decreases s.len(),
{
    if s.len() > 0 && is_space(s[0]) {
        trim_start_of(s.drop_first())
    } else {
        s
    }
}

/// `s` without the white space it ends with.
pub open spec fn trim_end_of(s: Seq<char>) -> Seq<char>
    decreases s.len(),
{
    if s.len() > 0 && is_space(s.last()) {
        trim_end_of(s.drop_last())
    } else {
        s
    }
}

/// `s` without the white space at either end.
pub open spec fn trim_of(s: Seq<char>) -> Seq<char> {
    trim_end_of(trim_start_of(s))
}

/// Number of white-space characters that `s` begins with.
pub fn leading_spaces(s: &[char]) -> (k: usize)
    ensures
        k <= s.len(),
        s@.skip(k as int) == trim_start_of(s@),
{
    let mut k: usize = 0;
    assert(s@.skip(0) == s@);
    while k < s.len() && is_whitespace(s[k])
        invariant
            k <= s.len(),
            trim_start_of(s@.skip(k as int)) == trim_start_of(s@),
        decreases s.len() - k,
    {
        assert(s@.skip(k as int).drop_first() == s@.skip(k + 1));
        k += 1;
    }
    k
}

/// Length of `s` without the white space it ends with.
pub fn trimmed_end(s: &[char]) -> (k: usize)
    ensures
        k <= s.len(),
        s@.take(k as int) == trim_end_of(s@),
{
    let mut k: usize = s.len();
    assert(s@.take(k as int) == s@);
    while k > 0 && is_whitespace(s[k - 1])
        invariant
            k <= s.len(),
            trim_end_of(s@.take(k as int)) == trim_end_of(s@),
        decreases k,
    {
        assert(s@.take(k as int).drop_last() == s@.take(k - 1));
        k -= 1;
    }
    k
}

/// `s` without the white space at either end.
pub fn trim(s: &[char]) -> (r: Vec<char>)
    ensures
        r@ == trim_of(s@),
{
    let a = leading_spaces(s);
    let rest = slice_of(s, a, s.len());
    assert(s@.subrange(a as int, s@.len() as int) == s@.skip(a as int));
    let b = trimmed_end(rest.as_slice());
    let r = slice_of(rest.as_slice(), 0, b);
    assert(rest@.subrange(0, b as int) == rest@.take(b as int));
    r
}

/// Every character of `s` is a decimal digit.
pub open spec fn all_digits(s: Seq<char>) -> bool {
    forall|i: int| 0 <= i < s.len() ==> is_digit(#[trigger] s[i])
}

/// The number that a text of decimal digits stands for.
pub open spec fn decimal_value(s: Seq<char>) -> nat
    decreases s.len(),
{
    if s.len() == 0 {
        0
    } else {
        (decimal_value(s.drop_last()) * 10 + digit_value(s.last())) as nat
    }
}

/// The decimal digits of `n`, without leading zeros.
pub open spec fn digits_of(n: nat) -> Seq<char>
    decreases n,
{
    if n < 10 {
        seq![digit_char(n as int)]
    } else {
        digits_of(n / 10).push(digit_char((n % 10) as int))
    }
}

/// A longer text of digits with the same beginning stands for a number at
/// least as large.
pub proof fn lemma_decimal_value_monotonic(s: Seq<char>, k: int)
    requires
        all_digits(s),
        0 <= k <= s.len(),
    ensures
        decimal_value(s.take(k)) <= decimal_value(s),
    decreases s.len() - k,
{
    if k < s.len() {
        lemma_decimal_value_monotonic(s, k + 1);
        assert(s.take(k + 1).drop_last() == s.take(k));
        assert(is_digit(s[k]));
    } else {
        assert(s.take(k) == s);
    }
}

/// The number that the decimal digits of `s` stand for, where `s` is a
/// non-empty text of digits and the number fits.
pub fn parse_digits(s: &[char]) -> (r: Option<u64>)
    ensures
        r is Some <==> s@.len() > 0 && all_digits(s@) && decimal_value(s@) <= u64::MAX,
        r matches Some(v) ==> v == decimal_value(s@),
{
    if s.len() == 0 {
        return None;
    }
    let mut acc: u64 = 0;
    let mut i: usize = 0;
    while i < s.len()
        invariant
            i <= s.len(),
            all_digits(s@.take(i as int)),
            acc == decimal_value(s@.take(i as int)),
        decreases s.len() - i,
    {
        let c = s[i];
        if !is_ascii_digit(c) {
            return None;
        }
        let d = (c as u32 - 48) as u64;
        assert(s@.take(i + 1).drop_last() == s@.take(i as int));
        assert(all_digits(s@.take(i + 1))) by {
            assert forall|j: int| 0 <= j < i + 1 implies is_digit(#[trigger] s@.take(i + 1)[j]) by {
                if j < i {
                    assert(s@.take(i as int)[j] == s@.take(i + 1)[j]);
                }
            }
        }
        if acc > (u64::MAX - d) / 10 {
            proof {
                let rest = s@.take(i + 1);
                assert(decimal_value(rest) > u64::MAX);
                if all_digits(s@) {
                    lemma_decimal_value_monotonic(s@, i + 1);
                }
            }
            return None;
        }
        acc = acc * 10 + d;
        i += 1;
    }
    assert(s@.take(i as int) == s@);
    Some(acc)
}

/// Writing a number in decimal and reading it back gives the number.
pub proof fn lemma_decimal_round_trip(n: nat)
    ensures
        digits_of(n).len() > 0,
        all_digits(digits_of(n)),
        decimal_value(digits_of(n)) == n,
    decreases n,
{
    if n < 10 {
        let s = digits_of(n);
        assert(s.drop_last() == Seq::<char>::empty());
        assert(decimal_value(s.drop_last()) == 0);
    } else {
        lemma_decimal_round_trip(n / 10);
        let s = digits_of(n);
        let p = digits_of(n / 10);
        assert(s.drop_last() == p);
        assert forall|i: int| 0 <= i < s.len() implies is_digit(#[trigger] s[i]) by {
            if i < p.len() {
                assert(s[i] == p[i]);
            }
        }
    }
}

/// The decimal digits of `n`, without leading zeros.
pub fn decimal_wide(n: u128) -> (r: Vec<char>)
    ensures
        r@ == digits_of(n as nat),
    decreases n,
{
    if n < 10 {
        let mut r: Vec<char> = Vec::new();
        r.push((n as u8 + 48) as char);
        assert(r@ == seq![digit_char(n as int)]);
        r
    } else {
        let mut r = decimal_wide(n / 10);
        r.push(((n % 10) as u8 + 48) as char);
        r
    }
}

/// The decimal digits of `n`, without leading zeros.
pub fn decimal(n: u64) -> (r: Vec<char>)
    ensures
        r@ == digits_of(n as nat),
{
    decimal_wide(n as u128)
}

/// The texts that a list of character vectors holds.
pub open spec fn views(v: Seq<Vec<char>>) -> Seq<Seq<char>> {
    Seq::new(v.len(), |i: int| v[i]@)
}

proof fn lemma_views_push(v: Seq<Vec<char>>, x: Vec<char>)
    ensures
        views(v.push(x)) == views(v).push(x@),
{
    assert(views(v.push(x)) =~= views(v).push(x@));
}

/// Position of the first `c` in `s`, or the length of `s` where it holds
/// none.
pub open spec fn index_of_char(s: Seq<char>, c: char) -> int
    decreases s.len(),
{
    if s.len() == 0 || s[0] == c {
        0
    } else {
        1 + index_of_char(s.drop_first(), c)
    }
}

/// What `index_of_char` finds: the characters before the position differ
/// from `c`, and the position is the end of `s` or holds `c`.
pub proof fn lemma_index_of_char(s: Seq<char>, c: char)
    ensures
        0 <= index_of_char(s, c) <= s.len(),
        forall|j: int| 0 <= j < index_of_char(s, c) ==> s[j] != c,
        index_of_char(s, c) < s.len() ==> s[index_of_char(s, c)] == c,
    decreases s.len(),
{
    if s.len() > 0 && s[0] != c {
        let t = s.drop_first();
        lemma_index_of_char(t, c);
        assert forall|j: int| 0 <= j < index_of_char(s, c) implies s[j] != c by {
            if j > 0 {
                assert(t[j - 1] == s[j]);
            }
        }
        if index_of_char(s, c) < s.len() {
            assert(t[index_of_char(t, c)] == s[index_of_char(s, c)]);
        }
    }
}

/// The fields of `s` between separators `sep`: one more than there are
/// separators.
pub open spec fn split_on(s: Seq<char>, sep: char) -> Seq<Seq<char>>
    decreases s.len(),
{
    let k = index_of_char(s, sep);
    if 0 <= k < s.len() {
        seq![s.take(k)] + split_on(s.skip(k + 1), sep)
    } else {
        seq![s]
    }
}

/// `s` without a carriage return at its end.
pub open spec fn strip_cr(s: Seq<char>) -> Seq<char> {
    if s.len() > 0 && s.last() == '\r' {
        s.drop_last()
    } else {
        s
    }
}

/// The lines of `s`. A line ends with a line feed, or with a carriage
/// return and a line feed, neither of which belongs to the line; the last
/// line may end with the text.
pub open spec fn lines_of(s: Seq<char>) -> Seq<Seq<char>>
    decreases s.len(),
{
    if s.len() == 0 {
        Seq::empty()
    } else {
        let k = index_of_char(s, '\n');
        if 0 <= k < s.len() {
            seq![strip_cr(s.take(k))] + lines_of(s.skip(k + 1))
        } else {
            seq![s]
        }
    }
}

/// Number of characters before the first white space in `s`.
pub open spec fn word_len(s: Seq<char>) -> int
    decreases s.len(),
{
    if s.len() == 0 || is_space(s[0]) {
        0
    } else {
        1 + word_len(s.drop_first())
    }
}

/// The words of `s`: the longest runs of characters that are not white
/// space, in order.
pub open spec fn words_of(s: Seq<char>) -> Seq<Seq<char>>
    decreases s.len(),
{
    let t = trim_start_of(s);
    let k = word_len(t);
    if 0 < k <= t.len() <= s.len() {
        seq![t.take(k)] + words_of(t.skip(k))
    } else {
        Seq::empty()
    }
}

/// Position of the first `c` in `s` at or after `from`, or the length of
/// `s` where none follows.
pub fn find_char(s: &[char], from: usize, c: char) -> (r: usize)
    requires
        from <= s.len(),
    ensures
        from <= r <= s.len(),
        r == from + index_of_char(s@.skip(from as int), c),
{
    let mut i: usize = from;
    proof {
        lemma_index_of_char(s@.skip(from as int), c);
    }
    while i < s.len() && s[i] != c
        invariant
            from <= i <= s.len(),
            index_of_char(s@.skip(from as int), c) == (i - from) + index_of_char(
                s@.skip(i as int),
                c,
            ),
        decreases s.len() - i,
    {
        assert(s@.skip(i as int).drop_first() == s@.skip(i + 1));
        i += 1;
    }
    i
}

/// The fields of `s` between separators `sep`.
pub fn split(s: &[char], sep: char) -> (r: Vec<Vec<char>>)
    ensures
        views(r@) == split_on(s@, sep),
{
    let mut out: Vec<Vec<char>> = Vec::new();
    let mut start: usize = 0;
    assert(s@.skip(0) == s@);
    assert(views(out@) + split_on(s@, sep) == split_on(s@, sep));
    loop
        invariant_except_break
            start <= s.len(),
            split_on(s@, sep) == views(out@) + split_on(s@.skip(start as int), sep),
        ensures
            views(out@) == split_on(s@, sep),
        decreases s.len() - start,
    {
        let k = find_char(s, start, sep);
        let field = slice_of(s, start, k);
        let ghost rest = s@.skip(start as int);
        assert(rest.take(k - start) == s@.subrange(start as int, k as int));
        proof {
            lemma_views_push(out@, field);
        }
        if k < s.len() {
            assert(rest.skip(k - start + 1) == s@.skip(k + 1));
            assert(split_on(rest, sep) == seq![field@] + split_on(s@.skip(k + 1), sep));
            assert(views(out@) + (seq![field@] + split_on(s@.skip(k + 1), sep)) == views(
                out@,
            ).push(field@) + split_on(s@.skip(k + 1), sep));
            out.push(field);
            start = k + 1;
        } else {
            assert(rest.take(k - start) == rest);
            assert(views(out@) + seq![field@] == views(out@).push(field@));
            out.push(field);
            break;
        }
    }
    out
}

/// The lines of `s`.
pub fn lines(s: &[char]) -> (r: Vec<Vec<char>>)
    ensures
        views(r@) == lines_of(s@),
{
    let mut out: Vec<Vec<char>> = Vec::new();
    let mut start: usize = 0;
    assert(s@.skip(0) == s@);
    assert(views(out@) + lines_of(s@) == lines_of(s@));
    while start < s.len()
        invariant
            start <= s.len(),
            lines_of(s@) == views(out@) + lines_of(s@.skip(start as int)),
        decreases s.len() - start,
    {
        let k = find_char(s, start, '\n');
        let ghost rest = s@.skip(start as int);
        assert(rest.take(k - start) == s@.subrange(start as int, k as int));
        if k < s.len() {
            let end = if k > start && s[k - 1] == '\r' {
                k - 1
            } else {
                k
            };
            let line = slice_of(s, start, end);
            assert(line@ == strip_cr(rest.take(k - start))) by {
                if k > start && s[k - 1] == '\r' {
                    assert(rest.take(k - start).last() == s@[k - 1]);
                    assert(rest.take(k - start).drop_last() == s@.subrange(
                        start as int,
                        end as int,
                    ));
                }
            }
            assert(rest.skip(k - start + 1) == s@.skip(k + 1));
            assert(lines_of(rest) == seq![line@] + lines_of(s@.skip(k + 1)));
            proof {
                lemma_views_push(out@, line);
            }
            assert(views(out@) + (seq![line@] + lines_of(s@.skip(k + 1))) == views(out@).push(
                line@,
            ) + lines_of(s@.skip(k + 1)));
            out.push(line);
            start = k + 1;
        } else {
            let line = slice_of(s, start, k);
            assert(rest.take(k - start) == rest);
            assert(lines_of(rest) == seq![rest]);
            proof {
                lemma_views_push(out@, line);
            }
            assert(views(out@) + seq![line@] == views(out@).push(line@));
            assert(lines_of(s@.skip(k as int)) == Seq::<Seq<char>>::empty());
            assert(views(out@).push(line@) + Seq::<Seq<char>>::empty() == views(out@).push(line@));
            out.push(line);
            start = k;
        }
    }
    assert(lines_of(s@.skip(start as int)) == Seq::<Seq<char>>::empty());
    assert(views(out@) + Seq::<Seq<char>>::empty() == views(out@));
    out
}

/// Number of characters from `from` to the next white space in `s`.
fn word_end(s: &[char], from: usize) -> (r: usize)
    requires
        from <= s.len(),
    ensures
        from <= r <= s.len(),
        r == from + word_len(s@.skip(from as int)),
{
    let mut i: usize = from;
    while i < s.len() && !is_whitespace(s[i])
        invariant
            from <= i <= s.len(),
            word_len(s@.skip(from as int)) == (i - from) + word_len(s@.skip(i as int)),
        decreases s.len() - i,
    {
        assert(s@.skip(i as int).drop_first() == s@.skip(i + 1));
        i += 1;
    }
    i
}

/// The words of `s`.
pub fn words(s: &[char]) -> (r: Vec<Vec<char>>)
    ensures
        views(r@) == words_of(s@),
{
    let mut out: Vec<Vec<char>> = Vec::new();
    let mut pos: usize = 0;
    assert(s@.skip(0) == s@);
    assert(views(out@) + words_of(s@) == words_of(s@));
    loop
        invariant
            pos <= s.len(),
            words_of(s@) == views(out@) + words_of(s@.skip(pos as int)),
        ensures
            views(out@) == words_of(s@),
        decreases s.len() - pos,
    {
        let ghost rest = s@.skip(pos as int);
        let rest_vec = slice_of(s, pos, s.len());
        assert(rest_vec@ == rest);
        let a = pos + leading_spaces(rest_vec.as_slice());
        assert(rest.skip(a - pos) == s@.skip(a as int));
        let b = word_end(s, a);
        let ghost t = trim_start_of(rest);
        if b > a {
            let word = slice_of(s, a, b);
            assert(t.take(b - a) == word@);
            assert(t.skip(b - a) == s@.skip(b as int));
            assert(words_of(rest) == seq![word@] + words_of(s@.skip(b as int)));
            proof {
                lemma_views_push(out@, word);
            }
            assert(views(out@) + (seq![word@] + words_of(s@.skip(b as int))) == views(out@).push(
                word@,
            ) + words_of(s@.skip(b as int)));
            out.push(word);
            pos = b;
        } else {
            assert(words_of(rest) == Seq::<Seq<char>>::empty());
            assert(views(out@) + Seq::<Seq<char>>::empty() == views(out@));
            break;
        }
    }
    out
}

/// `s` without `suffix` at its end, as often as it stands there.
pub fn trim_end_matches(s: &[char], suffix: &[char]) -> (r: Vec<char>)
    ensures
        r@ == trim_end_matches_of(s@, suffix@),
{
    let mut k: usize = s.len();
    assert(s@.take(k as int) == s@);
    if suffix.len() == 0 {
        return slice_of(s, 0, k);
    }
    while k >= suffix.len() && matches_at(s, suffix, k - suffix.len())
        invariant
            k <= s.len(),
            suffix.len() > 0,
            trim_end_matches_of(s@.take(k as int), suffix@) == trim_end_matches_of(s@, suffix@),
        decreases k,
    {
        let ghost cur = s@.take(k as int);
        assert(cur.subrange(cur.len() - suffix@.len(), cur.len() as int) == s@.subrange(
            k - suffix@.len(),
            k as int,
        ));
        assert(cur.take(cur.len() - suffix@.len()) == s@.take(k - suffix@.len()));
        k -= suffix.len();
    }
    proof {
        let cur = s@.take(k as int);
        if k >= suffix.len() {
            assert(cur.subrange(cur.len() - suffix@.len(), cur.len() as int) == s@.subrange(
                k - suffix@.len(),
                k as int,
            ));
        }
    }
    let r = slice_of(s, 0, k);
    assert(s@.subrange(0, k as int) == s@.take(k as int));
    r
}

/// The lowercase form of a text, as `str::to_lowercase` gives it.
pub uninterp spec fn lowercase_of(s: Seq<char>) -> Seq<char>;

/// The uppercase form of a text, as `str::to_uppercase` gives it.
pub uninterp spec fn uppercase_of(s: Seq<char>) -> Seq<char>;

/// `str::to_lowercase` maps each character by the Unicode lowercase
/// mapping; what comes out depends on the characters of `s` alone.
#[verifier::external_body]
pub(crate) fn to_lowercase(s: &str) -> (r: String)
    ensures
        r@ == lowercase_of(s@),
{
    s.to_lowercase()
}

/// `str::to_uppercase` maps each character by the Unicode uppercase
/// mapping; what comes out depends on the characters of `s` alone.
#[verifier::external_body]
pub(crate) fn to_uppercase(s: &str) -> (r: String)
    ensures
        r@ == uppercase_of(s@),
{
    s.to_uppercase()
}

/// Whether `s` holds exactly the characters of `literal`.
pub fn is_text(s: &[char], literal: &str) -> (r: bool)
    ensures
        r == (s@ == literal@),
{
    same(s, chars_of(literal).as_slice())
}

/// Position of the first text among `items` that equals `wanted`.
pub fn position_of(items: &[Vec<char>], wanted: &[char]) -> (r: Option<usize>)
    ensures
        match r {
            Some(i) => i < items@.len() && items@[i as int]@ == wanted@ && forall|j: int|
                0 <= j < i ==> (#[trigger] items@[j])@ != wanted@,
            None => forall|j: int| 0 <= j < items@.len() ==> (#[trigger] items@[j])@ != wanted@,
        },
{
    let mut i: usize = 0;
    while i < items.len()
        invariant
            i <= items.len(),
            forall|j: int| 0 <= j < i ==> (#[trigger] items@[j])@ != wanted@,
        decreases items.len() - i,
    {
        if same(items[i].as_slice(), wanted) {
            return Some(i);
        }
        i += 1;
    }
    None
}

/// What stands between the first `sep` in `s` and the next one, or the end
/// of `s`; meaningful where `sep` stands in `s`.
pub open spec fn second_piece_of(s: Seq<char>, sep: Seq<char>) -> Seq<char> {
    let rest = s.skip(first_index_of(s, sep) + sep.len());
    if contains_text(rest, sep) {
        rest.take(first_index_of(rest, sep))
    } else {
        rest
    }
}

/// What stands between the first `sep` in `s` and the next one, or the end
/// of `s`; nothing where `sep` does not stand in `s`.
pub fn second_piece(s: &[char], sep: &[char]) -> (r: Option<Vec<char>>)
    ensures
        match r {
            Some(piece) => contains_text(s@, sep@) && piece@ == second_piece_of(s@, sep@),
            None => !contains_text(s@, sep@),
        },
{
    let first = match find(s, sep) {
        Some(i) => i,
        None => {
            return None;
        },
    };
    assert(first + sep@.len() <= s@.len() == s.len());
    let rest = slice_of(s, first + sep.len(), s.len());
    assert(rest@ == s@.skip(first + sep@.len()));
    match find(rest.as_slice(), sep) {
        Some(j) => {
            let piece = slice_of(rest.as_slice(), 0, j);
            assert(rest@.subrange(0, j as int) == rest@.take(j as int));
            Some(piece)
        },
        None => Some(rest),
    }
}

/// `s` without the characters `c` it begins with.
pub open spec fn trim_start_char_of(s: Seq<char>, c: char) -> Seq<char>
    decreases s.len(),
{
    if s.len() > 0 && s[0] == c {
        trim_start_char_of(s.drop_first(), c)
    } else {
        s
    }
}

/// `s` without the characters `c` it ends with.
pub open spec fn trim_end_char_of(s: Seq<char>, c: char) -> Seq<char>
    decreases s.len(),
{
    if s.len() > 0 && s.last() == c {
        trim_end_char_of(s.drop_last(), c)
    } else {
        s
    }
}

/// `s` without the characters `c` it begins with.
pub fn trim_start_char(s: &[char], c: char) -> (r: Vec<char>)
    ensures
        r@ == trim_start_char_of(s@, c),
{
    let mut k: usize = 0;
    assert(s@.skip(0) == s@);
    while k < s.len() && s[k] == c
        invariant
            k <= s.len(),
            trim_start_char_of(s@.skip(k as int), c) == trim_start_char_of(s@, c),
        decreases s.len() - k,
    {
        assert(s@.skip(k as int).drop_first() == s@.skip(k + 1));
        k += 1;
    }
    let r = slice_of(s, k, s.len());
    assert(s@.subrange(k as int, s@.len() as int) == s@.skip(k as int));
    r
}

/// `s` without the characters `c` it ends with.
pub fn trim_end_char(s: &[char], c: char) -> (r: Vec<char>)
    ensures
        r@ == trim_end_char_of(s@, c),
{
    let mut k: usize = s.len();
    assert(s@.take(k as int) == s@);
    while k > 0 && s[k - 1] == c
        invariant
            k <= s.len(),
            trim_end_char_of(s@.take(k as int), c) == trim_end_char_of(s@, c),
        decreases k,
    {
        assert(s@.take(k as int).drop_last() == s@.take(k - 1));
        k -= 1;
    }
    let r = slice_of(s, 0, k);
    assert(s@.subrange(0, k as int) == s@.take(k as int));
    r
}

/// A copy of `s`.
pub fn copy(s: &[char]) -> (r: Vec<char>)
    ensures
        r@ == s@,
{
    let r = slice_of(s, 0, s.len());
    assert(s@.subrange(0, s@.len() as int) == s@);
    r
}

/// The texts that a list of strings holds.
pub open spec fn string_views(v: Seq<String>) -> Seq<Seq<char>> {
    Seq::new(v.len(), |i: int| v[i]@)
}

/// Whether `name` is among `names`.
pub open spec fn among(names: Seq<Seq<char>>, name: Seq<char>) -> bool {
    exists|i: int| 0 <= i < names.len() && #[trigger] names[i] == name
}

/// Position of the first line that holds `needle`, or the number of lines
/// where none does.
pub open spec fn first_line_with(lines: Seq<Seq<char>>, needle: Seq<char>) -> int
    decreases lines.len(),
{
    if lines.len() == 0 || contains_text(lines[0], needle) {
        0
    } else {
        1 + first_line_with(lines.drop_first(), needle)
    }
}

} // verus!
