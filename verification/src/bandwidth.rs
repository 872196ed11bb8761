//! Bandwidth by application: alert thresholds, and what is shown of the
//! traffic that was counted.

use crate::connections::{process_column, socket_pid, socket_pid_of};
use crate::fixed::{
    counter_of, is_decimal_number, parse_counter, parse_scaled, scaled_value, unsigned_part,
};
use crate::text::{
    all_digits, append, chars_of, contains, contains_text, decimal_value, ends_with,
    first_line_with, is_text,
    lines, lines_of, lowercase_of, parse_digits, slice_of, split, split_on, string_of,
    to_lowercase, to_uppercase, trim, trim_end_char, trim_end_char_of, trim_of, uppercase_of,
    views, words, words_of,
};
use vstd::prelude::*;

verus! {

/// A decimal number of units of `10^places` bytes, in bytes, rounded down,
/// and the largest `u64` where it is beyond that; nothing where the text,
/// without the white space around it, is no decimal number.
pub open spec fn scaled_bytes(number: Seq<char>, places: nat) -> Option<u64> {
    let n = trim_of(number);
    if is_decimal_number(n) {
        if scaled_value(n, places) <= u64::MAX {
            Some(scaled_value(n, places) as u64)
        } else {
            Some(u64::MAX)
        }
    } else {
        None
    }
}

/// A whole number of bytes: digits, with or without a plus sign in front,
/// that stand for a number within `u64`.
pub open spec fn whole_bytes(s: Seq<char>) -> Option<u64> {
    let body = unsigned_part(s);
    if body.len() > 0 && all_digits(body) && decimal_value(body) <= u64::MAX {
        Some(decimal_value(body) as u64)
    } else {
        None
    }
}

/// `s` without its last two characters.
pub open spec fn without_unit(s: Seq<char>) -> Seq<char> {
    s.take(s.len() - 2)
}

/// The threshold, in bytes, that an alert text in capital letters stands
/// for: a decimal number with the unit `GB`, `MB` or `KB` behind it, each
/// unit a thousand times the next, or a whole number of bytes.
pub open spec fn alert_bytes_of(upper: Seq<char>) -> Option<u64> {
    if "GB"@.is_suffix_of(upper) {
        scaled_bytes(without_unit(upper), 9)
    } else if "MB"@.is_suffix_of(upper) {
        scaled_bytes(without_unit(upper), 6)
    } else if "KB"@.is_suffix_of(upper) {
        scaled_bytes(without_unit(upper), 3)
    } else {
        whole_bytes(upper)
    }
}

fn parse_scaled_bytes(number: &[char], places: usize) -> (r: Option<u64>)
    ensures
        r == scaled_bytes(number@, places as nat),
{
    let n = trim(number);
    parse_scaled(n.as_slice(), places)
}

fn parse_whole_bytes(s: &[char]) -> (r: Option<u64>)
    ensures
        r == whole_bytes(s@),
{
    let start: usize = if s.len() > 0 && s[0] == '+' {
        1
    } else {
        0
    };
    let body = slice_of(s, start, s.len());
    assert(body@ == unsigned_part(s@));
    parse_digits(body.as_slice())
}

/// The threshold, in bytes, that an alert text in capital letters stands
/// for.
pub fn parse_alert_upper(upper: &[char]) -> (r: Option<u64>)
    ensures
        r == alert_bytes_of(upper@),
{
    proof {
        reveal_strlit("GB");
        reveal_strlit("MB");
        reveal_strlit("KB");
    }
    let n = upper.len();
    assert(n == upper@.len());
    if ends_with(upper, chars_of("GB").as_slice()) {
        let number = slice_of(upper, 0, n - 2);
        assert(number@ == without_unit(upper@));
        parse_scaled_bytes(number.as_slice(), 9)
    } else if ends_with(upper, chars_of("MB").as_slice()) {
        let number = slice_of(upper, 0, n - 2);
        assert(number@ == without_unit(upper@));
        parse_scaled_bytes(number.as_slice(), 6)
    } else if ends_with(upper, chars_of("KB").as_slice()) {
        let number = slice_of(upper, 0, n - 2);
        assert(number@ == without_unit(upper@));
        parse_scaled_bytes(number.as_slice(), 3)
    } else {
        parse_whole_bytes(upper)
    }
}

/// The threshold, in bytes, that an alert text stands for: the text is
/// taken without the white space around it and in capital letters.
pub fn parse_alert_bytes(alert: &str) -> (r: Option<u64>)
    ensures
        r == alert_bytes_of(uppercase_of(trim_of(alert@))),
{
    let trimmed = trim(chars_of(alert).as_slice());
    let upper = to_uppercase(string_of(trimmed.as_slice()).as_str());
    parse_alert_upper(chars_of(upper.as_str()).as_slice())
}

/// Whether a total of `total_down + total_up` bytes is above the alert
/// threshold, where there is one.
pub fn alert_exceeded(total_down: u64, total_up: u64, threshold: Option<u64>) -> (r: bool)
    ensures
        r == (threshold matches Some(t) && total_down + total_up > t),
{
    match threshold {
        Some(t) => total_down as u128 + total_up as u128 > t as u128,
        None => false,
    }
}

/// The traffic of one application.
pub struct AppUsage {
    /// Name of the application.
    pub name: String,
    /// Bytes received.
    pub bytes_in: u64,
    /// Bytes sent.
    pub bytes_out: u64,
}

/// Bytes received and sent by an application, together.
pub open spec fn usage_total(u: AppUsage) -> int {
    u.bytes_in + u.bytes_out
}

/// `s`, ordered by falling traffic, with `x` put in behind every entry
/// whose traffic is at least that of `x`.
pub open spec fn insert_by_total(s: Seq<AppUsage>, x: AppUsage) -> Seq<AppUsage>
    decreases s.len(),
{
    if s.len() == 0 {
        seq![x]
    } else if usage_total(s.last()) >= usage_total(x) {
        s.push(x)
    } else {
        insert_by_total(s.drop_last(), x).push(s.last())
    }
}

/// The entries ordered by falling traffic; entries with the same traffic
/// stay in the order in which they came.
pub open spec fn by_total(s: Seq<AppUsage>) -> Seq<AppUsage>
    decreases s.len(),
{
    if s.len() == 0 {
        Seq::empty()
    } else {
        insert_by_total(by_total(s.drop_last()), s.last())
    }
}

/// No entry has less traffic than the one behind it.
pub open spec fn falling(s: Seq<AppUsage>) -> bool {
    forall|i: int, j: int| 0 <= i <= j < s.len() ==> usage_total(s[i]) >= usage_total(s[j])
}

proof fn lemma_insert_at(s: Seq<AppUsage>, x: AppUsage, p: int)
    requires
        0 <= p <= s.len(),
        forall|j: int| p <= j < s.len() ==> usage_total(#[trigger] s[j]) < usage_total(x),
        p > 0 ==> usage_total(s[p - 1]) >= usage_total(x),
    ensures
        insert_by_total(s, x) == s.insert(p, x),
    decreases s.len(),
{
    if s.len() == 0 {
        assert(s.insert(p, x) == seq![x]);
    } else if p == s.len() {
        assert(s.insert(p, x) == s.push(x));
    } else {
        assert(usage_total(s[s.len() - 1]) < usage_total(x));
        lemma_insert_at(s.drop_last(), x, p);
        assert(s.drop_last().insert(p, x).push(s.last()) == s.insert(p, x));
    }
}

/// Ordering keeps every entry, as often as it occurs, and leaves no entry
/// with less traffic in front of one with more.
pub proof fn lemma_by_total_sorts(s: Seq<AppUsage>)
    ensures
        by_total(s).to_multiset() == s.to_multiset(),
        by_total(s).len() == s.len(),
        falling(by_total(s)),
    decreases s.len(),
{
    broadcast use vstd::seq_lib::group_to_multiset_ensures;

    if s.len() == 0 {
    } else {
        let head = s.drop_last();
        let x = s.last();
        lemma_by_total_sorts(head);
        let sorted = by_total(head);
        lemma_insert_keeps(sorted, x);
        assert(s == head.push(x));
        assert(head.push(x).to_multiset() == head.to_multiset().insert(x));
    }
}

proof fn lemma_insert_keeps(s: Seq<AppUsage>, x: AppUsage)
    requires
        falling(s),
    ensures
        insert_by_total(s, x).to_multiset() == s.to_multiset().insert(x),
        insert_by_total(s, x).len() == s.len() + 1,
        falling(insert_by_total(s, x)),
        forall|i: int|
            0 <= i < insert_by_total(s, x).len() ==> #[trigger] insert_by_total(s, x)[i] == x || (
            exists|k: int| 0 <= k < s.len() && s[k] == insert_by_total(s, x)[i]),
    decreases s.len(),
{
    broadcast use vstd::seq_lib::group_to_multiset_ensures;

    let r = insert_by_total(s, x);
    if s.len() == 0 {
        assert(seq![x] == Seq::<AppUsage>::empty().push(x));
        assert(s == Seq::<AppUsage>::empty());
    } else if usage_total(s.last()) >= usage_total(x) {
        assert forall|i: int, j: int| 0 <= i <= j < r.len() implies usage_total(r[i])
            >= usage_total(r[j]) by {
            if j < s.len() {
            } else if i < s.len() {
                assert(usage_total(s[i]) >= usage_total(s[s.len() - 1]));
            }
        }
        assert forall|i: int| 0 <= i < r.len() implies #[trigger] r[i] == x || (exists|k: int|
            0 <= k < s.len() && s[k] == r[i]) by {
            if i < s.len() {
                assert(s[i] == r[i]);
            }
        }
    } else {
        let head = s.drop_last();
        let last = s.last();
        assert(falling(head)) by {
            assert forall|i: int, j: int| 0 <= i <= j < head.len() implies usage_total(head[i])
                >= usage_total(head[j]) by {
                assert(head[i] == s[i] && head[j] == s[j]);
            }
        }
        lemma_insert_keeps(head, x);
        let inner = insert_by_total(head, x);
        assert(r == inner.push(last));
        assert(s == head.push(last));
        assert(inner.push(last).to_multiset() == inner.to_multiset().insert(last));
        assert(head.push(last).to_multiset() == head.to_multiset().insert(last));
        assert(head.to_multiset().insert(x).insert(last) == head.to_multiset().insert(last).insert(
            x,
        ));
        assert forall|i: int| 0 <= i < inner.len() implies usage_total(#[trigger] inner[i])
            >= usage_total(last) by {
            if inner[i] != x {
                let k = choose|k: int| 0 <= k < head.len() && head[k] == inner[i];
                assert(s[k] == head[k]);
                assert(usage_total(s[k]) >= usage_total(s[s.len() - 1]));
            }
        }
        assert forall|i: int, j: int| 0 <= i <= j < r.len() implies usage_total(r[i])
            >= usage_total(r[j]) by {
            if j < inner.len() {
                assert(r[i] == inner[i] && r[j] == inner[j]);
            } else if i < inner.len() {
                assert(r[i] == inner[i]);
            }
        }
        assert forall|i: int| 0 <= i < r.len() implies #[trigger] r[i] == x || (exists|k: int|
            0 <= k < s.len() && s[k] == r[i]) by {
            if i < inner.len() {
                assert(r[i] == inner[i]);
                if inner[i] != x {
                    let k = choose|k: int| 0 <= k < head.len() && head[k] == inner[i];
                    assert(s[k] == r[i]);
                }
            } else {
                assert(s[s.len() - 1] == r[i]);
            }
        }
    }
}

/// The entries ordered by falling traffic; entries with the same traffic
/// stay in the order in which they came.
pub fn sort_by_total(entries: &[AppUsage]) -> (r: Vec<AppUsage>)
    ensures
        r@ == by_total(entries@),
{
    let mut out: Vec<AppUsage> = Vec::new();
    let mut i: usize = 0;
    assert(entries@.take(0) == Seq::<AppUsage>::empty());
    while i < entries.len()
        invariant
            i <= entries.len(),
            out@ == by_total(entries@.take(i as int)),
        decreases entries.len() - i,
    {
        let e = &entries[i];
        let key: u128 = e.bytes_in as u128 + e.bytes_out as u128;
        let mut p: usize = out.len();
        while p > 0 && (out[p - 1].bytes_in as u128 + out[p - 1].bytes_out as u128) < key
            invariant
                p <= out.len(),
                key == usage_total(entries@[i as int]),
                forall|j: int|
                    p <= j < out@.len() ==> usage_total(#[trigger] out@[j]) < usage_total(
                        entries@[i as int],
                    ),
            decreases p,
        {
            p -= 1;
        }
        let copy = AppUsage { name: e.name.clone(), bytes_in: e.bytes_in, bytes_out: e.bytes_out };
        assert(copy == entries@[i as int]);
        proof {
            lemma_insert_at(out@, copy, p as int);
            assert(entries@.take(i + 1).drop_last() == entries@.take(i as int));
        }
        out.insert(p, copy);
        i += 1;
    }
    assert(entries@.take(i as int) == entries@);
    out
}

/// Number of applications that are shown where no number is asked for.
pub const DEFAULT_TOP: usize = 10;

/// Bytes received by all entries together.
pub open spec fn sum_in(s: Seq<AppUsage>) -> int
    decreases s.len(),
{
    if s.len() == 0 {
        0
    } else {
        sum_in(s.drop_last()) + s.last().bytes_in
    }
}

/// Bytes sent by all entries together.
pub open spec fn sum_out(s: Seq<AppUsage>) -> int
    decreases s.len(),
{
    if s.len() == 0 {
        0
    } else {
        sum_out(s.drop_last()) + s.last().bytes_out
    }
}

/// A count as it is kept: the largest `u64` where it is beyond that.
pub open spec fn capped_count(v: int) -> u64 {
    if v > u64::MAX {
        u64::MAX
    } else {
        v as u64
    }
}

/// The entries whose name holds `key` once both are in small letters, in
/// their order.
pub open spec fn kept_for(s: Seq<AppUsage>, key: Seq<char>) -> Seq<AppUsage>
    decreases s.len(),
{
    if s.len() == 0 {
        Seq::empty()
    } else if contains_text(lowercase_of(s.last().name@), lowercase_of(key)) {
        kept_for(s.drop_last(), key).push(s.last())
    } else {
        kept_for(s.drop_last(), key)
    }
}

/// The entries that a filter leaves: all of them where there is none.
pub open spec fn kept(s: Seq<AppUsage>, app_filter: Option<&str>) -> Seq<AppUsage> {
    match app_filter {
        Some(app) => kept_for(s, app@),
        None => s,
    }
}

/// The applications beyond those that are shown, taken together.
pub struct OtherUsage {
    /// How many they are.
    pub count: usize,
    /// Bytes received by all of them.
    pub bytes_in: u64,
    /// Bytes sent by all of them.
    pub bytes_out: u64,
}

/// What is shown of the traffic of the applications.
pub struct BandwidthSummary {
    /// The applications with the most traffic, by falling traffic.
    pub shown: Vec<AppUsage>,
    /// The applications that are left, taken together; `None` where all
    /// are shown.
    pub other: Option<OtherUsage>,
    /// Bytes received by all applications.
    pub total_down: u64,
    /// Bytes sent by all applications.
    pub total_up: u64,
    /// Whether the traffic of all applications is above the alert
    /// threshold.
    pub alert: bool,
}

proof fn lemma_sum_bounds(s: Seq<AppUsage>)
    ensures
        0 <= sum_in(s) <= s.len() * 0xffff_ffff_ffff_ffff,
        0 <= sum_out(s) <= s.len() * 0xffff_ffff_ffff_ffff,
    decreases s.len(),
{
    if s.len() > 0 {
        lemma_sum_bounds(s.drop_last());
    }
}

/// Bytes received and bytes sent by all entries together, each as it is
/// kept.
pub fn totals(entries: &[AppUsage]) -> (r: (u64, u64))
    ensures
        r.0 == capped_count(sum_in(entries@)),
        r.1 == capped_count(sum_out(entries@)),
{
    let mut down: u128 = 0;
    let mut up: u128 = 0;
    let mut i: usize = 0;
    assert(entries@.take(0) == Seq::<AppUsage>::empty());
    while i < entries.len()
        invariant
            i <= entries.len(),
            down == sum_in(entries@.take(i as int)),
            up == sum_out(entries@.take(i as int)),
        decreases entries.len() - i,
    {
        proof {
            lemma_sum_bounds(entries@.take(i as int));
            assert(entries@.take(i + 1).drop_last() == entries@.take(i as int));
        }
        down = down + entries[i].bytes_in as u128;
        up = up + entries[i].bytes_out as u128;
        i += 1;
    }
    assert(entries@.take(i as int) == entries@);
    (
        if down > u64::MAX as u128 {
            u64::MAX
        } else {
            down as u64
        },
        if up > u64::MAX as u128 {
            u64::MAX
        } else {
            up as u64
        },
    )
}

/// The entries whose name holds `app`, the case of the letters apart.
pub fn filter_by_app(entries: &[AppUsage], app: &str) -> (r: Vec<AppUsage>)
    ensures
        r@ == kept_for(entries@, app@),
{
    let key = chars_of(to_lowercase(app).as_str());
    let mut out: Vec<AppUsage> = Vec::new();
    let mut i: usize = 0;
    assert(entries@.take(0) == Seq::<AppUsage>::empty());
    while i < entries.len()
        invariant
            i <= entries.len(),
            key@ == lowercase_of(app@),
            out@ == kept_for(entries@.take(i as int), app@),
        decreases entries.len() - i,
    {
        let e = &entries[i];
        assert(entries@.take(i + 1).drop_last() == entries@.take(i as int));
        let name = chars_of(to_lowercase(e.name.as_str()).as_str());
        if contains(name.as_slice(), key.as_slice()) {
            let copy = AppUsage {
                name: e.name.clone(),
                bytes_in: e.bytes_in,
                bytes_out: e.bytes_out,
            };
            assert(copy == entries@[i as int]);
            out.push(copy);
        }
        i += 1;
    }
    assert(entries@.take(i as int) == entries@);
    out
}

/// What is shown of the traffic of the applications: those that the filter
/// leaves, by falling traffic, as many as asked for; the rest taken
/// together; the totals over all that the filter leaves; and whether these
/// totals together are above the alert threshold.
pub fn summarize(
    entries: &[AppUsage],
    app_filter: Option<&str>,
    top: Option<usize>,
    threshold: Option<u64>,
) -> (r: BandwidthSummary)
    ensures
        ({
            let sorted = by_total(kept(entries@, app_filter));
            let limit = match top {
                Some(n) => n as int,
                None => 10,
            };
            &&& r.total_down == capped_count(sum_in(kept(entries@, app_filter)))
            &&& r.total_up == capped_count(sum_out(kept(entries@, app_filter)))
            &&& r.alert == (threshold matches Some(t) && r.total_down + r.total_up > t)
            &&& if sorted.len() > limit {
                &&& r.shown@ == sorted.take(limit)
                &&& r.other matches Some(other)
                &&& other.count == sorted.len() - limit
                &&& other.bytes_in == capped_count(sum_in(sorted.skip(limit)))
                &&& other.bytes_out == capped_count(sum_out(sorted.skip(limit)))
            } else {
                &&& r.shown@ == sorted
                &&& r.other is None
            }
        }),
{
    let filtered = match app_filter {
        Some(app) => filter_by_app(entries, app),
        None => {
            let all = slice_to_owned(entries);
            all
        },
    };
    let (total_down, total_up) = totals(filtered.as_slice());
    let mut sorted = sort_by_total(filtered.as_slice());
    let limit = match top {
        Some(n) => n,
        None => DEFAULT_TOP,
    };
    proof {
        lemma_by_total_sorts(filtered@);
    }
    let other = if sorted.len() > limit {
        let rest = sorted.split_off(limit);
        let (rest_in, rest_out) = totals(rest.as_slice());
        Some(OtherUsage { count: rest.len(), bytes_in: rest_in, bytes_out: rest_out })
    } else {
        None
    };
    BandwidthSummary {
        shown: sorted,
        other,
        total_down,
        total_up,
        alert: alert_exceeded(total_down, total_up, threshold),
    }
}

/// A copy of the entries.
fn slice_to_owned(entries: &[AppUsage]) -> (r: Vec<AppUsage>)
    ensures
        r@ == entries@,
{
    let mut out: Vec<AppUsage> = Vec::new();
    let mut i: usize = 0;
    while i < entries.len()
        invariant
            i <= entries.len(),
            out@ == entries@.take(i as int),
        decreases entries.len() - i,
    {
        let e = &entries[i];
        let copy = AppUsage { name: e.name.clone(), bytes_in: e.bytes_in, bytes_out: e.bytes_out };
        assert(copy == entries@[i as int]);
        out.push(copy);
        assert(entries@.take(i + 1) == entries@.take(i as int).push(entries@[i as int]));
        i += 1;
    }
    assert(entries@.take(i as int) == entries@);
    out
}

/// The traffic of one application as plain values.
pub ghost struct UsageView {
    pub name: Seq<char>,
    pub bytes_in: u64,
    pub bytes_out: u64,
}

impl View for AppUsage {
    type V = UsageView;

    open spec fn view(&self) -> UsageView {
        UsageView { name: self.name@, bytes_in: self.bytes_in, bytes_out: self.bytes_out }
    }
}

/// The entries as plain values.
pub open spec fn usage_views(v: Seq<AppUsage>) -> Seq<UsageView> {
    Seq::new(v.len(), |i: int| v[i]@)
}

/// Position of the first entry for `name`, or the number of entries where
/// there is none.
pub open spec fn position_of_name(s: Seq<UsageView>, name: Seq<char>) -> int
    decreases s.len(),
{
    if s.len() == 0 || s[0].name == name {
        0
    } else {
        1 + position_of_name(s.drop_first(), name)
    }
}

/// The entries with more traffic counted for `name`: added to its entry,
/// where the counters stop at the largest `u64`, or in a new entry behind
/// the others.
pub open spec fn accumulated(s: Seq<UsageView>, name: Seq<char>, bytes_in: u64, bytes_out: u64) -> Seq<
    UsageView,
> {
    let k = position_of_name(s, name);
    if 0 <= k < s.len() {
        s.update(
            k,
            UsageView {
                name,
                bytes_in: capped_count(s[k].bytes_in + bytes_in),
                bytes_out: capped_count(s[k].bytes_out + bytes_out),
            },
        )
    } else {
        s.push(UsageView { name, bytes_in, bytes_out })
    }
}

/// No two entries are for the same application.
pub open spec fn names_apart(s: Seq<UsageView>) -> bool {
    forall|i: int, j: int| 0 <= i < j < s.len() ==> s[i].name != s[j].name
}

/// What `position_of_name` finds: no entry before the position is for
/// `name`, and the position is the end or holds an entry for `name`.
pub proof fn lemma_position_of_name(s: Seq<UsageView>, name: Seq<char>)
    ensures
        0 <= position_of_name(s, name) <= s.len(),
        forall|j: int| 0 <= j < position_of_name(s, name) ==> (#[trigger] s[j]).name != name,
        position_of_name(s, name) < s.len() ==> s[position_of_name(s, name)].name == name,
    decreases s.len(),
{
    if s.len() > 0 && s[0].name != name {
        let t = s.drop_first();
        lemma_position_of_name(t, name);
        assert forall|j: int| 0 <= j < position_of_name(s, name) implies (#[trigger] s[j]).name
            != name by {
            if j > 0 {
                assert(t[j - 1] == s[j]);
            }
        }
        if position_of_name(s, name) < s.len() {
            assert(t[position_of_name(t, name)] == s[position_of_name(s, name)]);
        }
    }
}

/// Counting more traffic keeps the entries one to an application: where no
/// two entries were for the same application, none are afterwards, the
/// entries that were there keep their places, and an entry for the
/// application is there.
pub proof fn lemma_accumulated_names_apart(
    s: Seq<UsageView>,
    name: Seq<char>,
    bytes_in: u64,
    bytes_out: u64,
)
    requires
        names_apart(s),
    ensures
        names_apart(accumulated(s, name, bytes_in, bytes_out)),
        accumulated(s, name, bytes_in, bytes_out).len() >= s.len(),
        forall|i: int|
            0 <= i < s.len() ==> (#[trigger] accumulated(s, name, bytes_in, bytes_out)[i]).name
                == s[i].name,
        exists|i: int|
            0 <= i < accumulated(s, name, bytes_in, bytes_out).len() && (#[trigger] accumulated(
                s,
                name,
                bytes_in,
                bytes_out,
            )[i]).name == name,
{
    lemma_position_of_name(s, name);
    let k = position_of_name(s, name);
    let r = accumulated(s, name, bytes_in, bytes_out);
    if k < s.len() {
        assert(r[k].name == name);
    } else {
        assert(r[s.len() as int].name == name);
    }
}

/// The entries that a listing adds up to are one to an application.
pub proof fn lemma_usage_names_apart(lines: Seq<Seq<char>>)
    ensures
        names_apart(nettop_usage(lines)),
        names_apart(interface_usage(lines)),
    decreases lines.len(),
{
    if lines.len() > 0 {
        lemma_usage_names_apart(lines.drop_last());
        match nettop_line(lines.last()) {
            Some(u) => {
                lemma_accumulated_names_apart(
                    nettop_usage(lines.drop_last()),
                    u.name,
                    u.bytes_in,
                    u.bytes_out,
                );
            },
            None => {},
        }
        match interface_line(lines.last()) {
            Some(u) => {
                lemma_accumulated_names_apart(
                    interface_usage(lines.drop_last()),
                    u.name,
                    u.bytes_in,
                    u.bytes_out,
                );
            },
            None => {},
        }
    }
}

fn saturating_sum(a: u64, b: u64) -> (r: u64)
    ensures
        r == capped_count(a + b),
{
    if a > u64::MAX - b {
        u64::MAX
    } else {
        a + b
    }
}

/// Counts more traffic for the application `name`.
pub fn accumulate(entries: &mut Vec<AppUsage>, name: &str, bytes_in: u64, bytes_out: u64)
    ensures
        usage_views(final(entries)@) == accumulated(
            usage_views(old(entries)@),
            name@,
            bytes_in,
            bytes_out,
        ),
{
    let key = chars_of(name);
    let ghost all = usage_views(entries@);
    let mut k: usize = 0;
    assert(all.skip(0) == all);
    while k < entries.len() && !crate::text::same(
        chars_of(entries[k].name.as_str()).as_slice(),
        key.as_slice(),
    )
        invariant
            k <= entries.len(),
            *entries == *old(entries),
            all == usage_views(entries@),
            key@ == name@,
            position_of_name(all, name@) == k + position_of_name(all.skip(k as int), name@),
        decreases entries.len() - k,
    {
        assert(all.skip(k as int)[0] == entries@[k as int]@);
        assert(all.skip(k as int).drop_first() == all.skip(k + 1));
        k += 1;
    }
    proof {
        if k < entries.len() {
            assert(all.skip(k as int)[0] == entries@[k as int]@);
        }
    }
    assert(position_of_name(all, name@) == k);
    if k < entries.len() {
        let updated = AppUsage {
            name: name.to_owned(),
            bytes_in: saturating_sum(entries[k].bytes_in, bytes_in),
            bytes_out: saturating_sum(entries[k].bytes_out, bytes_out),
        };
        assert(all[k as int] == entries@[k as int]@);
        entries.set(k, updated);
        assert(usage_views(entries@) =~= all.update(k as int, updated@));
    } else {
        let added = AppUsage { name: name.to_owned(), bytes_in, bytes_out };
        entries.push(added);
        assert(usage_views(entries@) =~= all.push(added@));
    }
}

/// What a line of the traffic listing of macOS counts: the line has three
/// fields between commas at least; the application is the first field,
/// without the white space around it, up to a full stop, and the second
/// and third field are the bytes received and sent.
pub open spec fn nettop_line(line: Seq<char>) -> Option<UsageView> {
    let parts = split_on(line, ',');
    if parts.len() >= 3 {
        Some(
            UsageView {
                name: split_on(trim_of(parts[0]), '.')[0],
                bytes_in: counter_of(parts[1]),
                bytes_out: counter_of(parts[2]),
            },
        )
    } else {
        None
    }
}

/// What a line of the interface counters of Linux counts: the line has ten
/// words at least; the interface is the first word without the colons
/// behind it, the loopback interface does not count, and the second and
/// tenth word are the bytes received and sent. The entry is named by the
/// interface in brackets.
pub open spec fn interface_line(line: Seq<char>) -> Option<UsageView> {
    let parts = words_of(line);
    if parts.len() >= 10 && trim_end_char_of(parts[0], ':') != "lo"@ {
        Some(
            UsageView {
                name: seq!['('] + trim_end_char_of(parts[0], ':') + seq![')'],
                bytes_in: counter_of(parts[1]),
                bytes_out: counter_of(parts[9]),
            },
        )
    } else {
        None
    }
}

/// The entries that the lines of the traffic listing of macOS add up to.
pub open spec fn nettop_usage(lines: Seq<Seq<char>>) -> Seq<UsageView>
    decreases lines.len(),
{
    if lines.len() == 0 {
        Seq::empty()
    } else {
        match nettop_line(lines.last()) {
            Some(u) => accumulated(nettop_usage(lines.drop_last()), u.name, u.bytes_in, u.bytes_out),
            None => nettop_usage(lines.drop_last()),
        }
    }
}

/// The entries that the lines of the interface counters add up to.
pub open spec fn interface_usage(lines: Seq<Seq<char>>) -> Seq<UsageView>
    decreases lines.len(),
{
    if lines.len() == 0 {
        Seq::empty()
    } else {
        match interface_line(lines.last()) {
            Some(u) => accumulated(
                interface_usage(lines.drop_last()),
                u.name,
                u.bytes_in,
                u.bytes_out,
            ),
            None => interface_usage(lines.drop_last()),
        }
    }
}

/// The lines of a listing behind its first `n` lines.
pub open spec fn lines_behind(listing: Seq<char>, n: int) -> Seq<Seq<char>> {
    if lines_of(listing).len() >= n {
        lines_of(listing).skip(n)
    } else {
        Seq::empty()
    }
}

/// What one line of the traffic listing of macOS counts.
pub fn parse_nettop_line(line: &[char]) -> (r: Option<AppUsage>)
    ensures
        match nettop_line(line@) {
            Some(u) => r is Some && r->0@ == u,
            None => r is None,
        },
{
    let parts = split(line, ',');
    assert(views(parts@).len() == parts@.len());
    if parts.len() < 3 {
        return None;
    }
    assert(forall|i: int| 0 <= i < 3 ==> views(parts@)[i] == #[trigger] parts@[i]@);
    let first = trim(parts[0].as_slice());
    let mut pieces = split(first.as_slice(), '.');
    proof {
        crate::text::lemma_index_of_char(first@, '.');
    }
    assert(views(pieces@).len() == pieces@.len());
    assert(views(pieces@)[0] == pieces@[0]@);
    let name = pieces.swap_remove(0);
    Some(
        AppUsage {
            name: string_of(name.as_slice()),
            bytes_in: parse_counter(parts[1].as_slice()),
            bytes_out: parse_counter(parts[2].as_slice()),
        },
    )
}

/// What one line of the interface counters of Linux counts.
pub fn parse_interface_line(line: &[char]) -> (r: Option<AppUsage>)
    ensures
        match interface_line(line@) {
            Some(u) => r is Some && r->0@ == u,
            None => r is None,
        },
{
    let parts = words(line);
    assert(views(parts@).len() == parts@.len());
    if parts.len() < 10 {
        return None;
    }
    assert(forall|i: int| 0 <= i < 10 ==> views(parts@)[i] == #[trigger] parts@[i]@);
    let interface = trim_end_char(parts[0].as_slice(), ':');
    if is_text(interface.as_slice(), "lo") {
        return None;
    }
    let mut name: Vec<char> = Vec::new();
    name.push('(');
    append(&mut name, interface.as_slice());
    name.push(')');
    assert(name@ == seq!['('] + interface@ + seq![')']);
    Some(
        AppUsage {
            name: string_of(name.as_slice()),
            bytes_in: parse_counter(parts[1].as_slice()),
            bytes_out: parse_counter(parts[9].as_slice()),
        },
    )
}

/// The traffic by application that the traffic listing of macOS gives: its
/// lines behind the heading, added up by application.
pub fn usage_from_nettop(listing: &str) -> (r: Vec<AppUsage>)
    ensures
        usage_views(r@) == nettop_usage(lines_behind(listing@, 1)),
{
    let ls = lines(chars_of(listing).as_slice());
    let mut out: Vec<AppUsage> = Vec::new();
    assert(usage_views(out@) =~= Seq::<UsageView>::empty());
    assert(views(ls@).len() == ls@.len());
    if ls.len() < 1 {
        return out;
    }
    let ghost body = views(ls@).skip(1);
    let mut i: usize = 1;
    assert(body.take(0) == Seq::<Seq<char>>::empty());
    while i < ls.len()
        invariant
            1 <= i <= ls.len(),
            body == views(ls@).skip(1),
            usage_views(out@) == nettop_usage(body.take(i - 1)),
        decreases ls.len() - i,
    {
        assert(body.take(i as int).drop_last() == body.take(i - 1));
        assert(body.take(i as int).last() == ls@[i as int]@);
        match parse_nettop_line(ls[i].as_slice()) {
            Some(u) => {
                accumulate(&mut out, u.name.as_str(), u.bytes_in, u.bytes_out);
            },
            None => {},
        }
        i += 1;
    }
    assert(body.take(i - 1) == body);
    out
}

/// The traffic by interface that the interface counters of Linux give:
/// their lines behind the two lines of the heading, added up by interface.
pub fn usage_from_interfaces(content: &str) -> (r: Vec<AppUsage>)
    ensures
        usage_views(r@) == interface_usage(lines_behind(content@, 2)),
{
    let ls = lines(chars_of(content).as_slice());
    let mut out: Vec<AppUsage> = Vec::new();
    assert(usage_views(out@) =~= Seq::<UsageView>::empty());
    assert(views(ls@).len() == ls@.len());
    if ls.len() < 2 {
        return out;
    }
    let ghost body = views(ls@).skip(2);
    let mut i: usize = 2;
    assert(body.take(0) == Seq::<Seq<char>>::empty());
    while i < ls.len()
        invariant
            2 <= i <= ls.len(),
            body == views(ls@).skip(2),
            usage_views(out@) == interface_usage(body.take(i - 2)),
        decreases ls.len() - i,
    {
        assert(body.take(i - 1).drop_last() == body.take(i - 2));
        assert(body.take(i - 1).last() == ls@[i as int]@);
        match parse_interface_line(ls[i].as_slice()) {
            Some(u) => {
                accumulate(&mut out, u.name.as_str(), u.bytes_in, u.bytes_out);
            },
            None => {},
        }
        i += 1;
    }
    assert(body.take(i - 2) == body);
    out
}

/// The queues of one socket: the process it belongs to, and the bytes
/// waiting to be received and to be sent.
pub struct SocketQueues {
    /// Identifier of the process.
    pub pid: String,
    /// Bytes waiting to be received.
    pub bytes_in: u64,
    /// Bytes waiting to be sent.
    pub bytes_out: u64,
}

/// What a line of the socket listing counts: the line has six words at
/// least and names a process in its seventh; the third and fourth word are
/// the bytes waiting to be received and to be sent.
pub open spec fn socket_queues_of(line: Seq<char>) -> Option<(Seq<char>, u64, u64)> {
    let parts = words_of(line);
    if parts.len() >= 6 && contains_text(process_column(parts), "pid="@) {
        Some((socket_pid_of(process_column(parts)), counter_of(parts[2]), counter_of(parts[3])))
    } else {
        None
    }
}

/// What one line of the socket listing counts.
pub fn parse_socket_queues(line: &str) -> (r: Option<SocketQueues>)
    ensures
        match socket_queues_of(line@) {
            Some(q) => r matches Some(found) && found.pid@ == q.0 && found.bytes_in == q.1
                && found.bytes_out == q.2,
            None => r is None,
        },
{
    let parts = words(chars_of(line).as_slice());
    let n = parts.len();
    assert(views(parts@).len() == n);
    if n < 6 {
        return None;
    }
    assert(forall|i: int| 0 <= i < n ==> views(parts@)[i] == #[trigger] parts@[i]@);
    let column: Vec<char> = if n > 6 {
        crate::text::copy(parts[6].as_slice())
    } else {
        Vec::new()
    };
    if !contains(column.as_slice(), chars_of("pid=").as_slice()) {
        return None;
    }
    Some(
        SocketQueues {
            pid: string_of(socket_pid(column.as_slice()).as_slice()),
            bytes_in: parse_counter(parts[2].as_slice()),
            bytes_out: parse_counter(parts[3].as_slice()),
        },
    )
}

/// The interface that the route listing of macOS names: what stands
/// between the first and the second colon of the first line that holds
/// `interface:`, without the white space around it; nothing where no line
/// holds it.
pub open spec fn route_interface(lines: Seq<Seq<char>>) -> Option<Seq<char>> {
    let k = first_line_with(lines, "interface:"@);
    if 0 <= k < lines.len() {
        Some(
            trim_of(
                if split_on(lines[k], ':').len() > 1 {
                    split_on(lines[k], ':')[1]
                } else {
                    "unknown"@
                },
            ),
        )
    } else {
        None
    }
}

/// Position of the first word that equals `word`, or the number of words
/// where none does.
pub open spec fn position_of_word(ws: Seq<Seq<char>>, word: Seq<char>) -> int
    decreases ws.len(),
{
    if ws.len() == 0 || ws[0] == word {
        0
    } else {
        1 + position_of_word(ws.drop_first(), word)
    }
}

/// The interface that the route listing of Linux names: the word behind
/// the first `dev` of its first line.
pub open spec fn route_device(lines: Seq<Seq<char>>) -> Option<Seq<char>> {
    if lines.len() > 0 && position_of_word(words_of(lines[0]), "dev"@) + 1 < words_of(
        lines[0],
    ).len() {
        Some(words_of(lines[0])[position_of_word(words_of(lines[0]), "dev"@) + 1])
    } else {
        None
    }
}

/// The interface of the default route: that of the route listing of
/// macOS, else that of the route listing of Linux, else `unknown`. A
/// listing that could not be had is `None`.
pub open spec fn default_interface_of(route: Option<Seq<char>>, ip_route: Option<Seq<char>>) -> Seq<
    char,
> {
    let first = match route {
        Some(text) => route_interface(lines_of(text)),
        None => None,
    };
    let second = match ip_route {
        Some(text) => route_device(lines_of(text)),
        None => None,
    };
    match first {
        Some(name) => name,
        None => match second {
            Some(name) => name,
            None => "unknown"@,
        },
    }
}

fn parse_route_interface(listing: &str) -> (r: Option<String>)
    ensures
        match route_interface(lines_of(listing@)) {
            Some(name) => r is Some && r->0@ == name,
            None => r is None,
        },
{
    let ls = lines(chars_of(listing).as_slice());
    let ghost all = views(ls@);
    let needle = chars_of("interface:");
    let mut k: usize = 0;
    assert(all.skip(0) == all);
    while k < ls.len() && !contains(ls[k].as_slice(), needle.as_slice())
        invariant
            k <= ls.len(),
            all == views(ls@),
            needle@ == "interface:"@,
            first_line_with(all, "interface:"@) == k + first_line_with(
                all.skip(k as int),
                "interface:"@,
            ),
        decreases ls.len() - k,
    {
        assert(all.skip(k as int)[0] == ls@[k as int]@);
        assert(all.skip(k as int).drop_first() == all.skip(k + 1));
        k += 1;
    }
    proof {
        if k < ls.len() {
            assert(all.skip(k as int)[0] == ls@[k as int]@);
        }
    }
    assert(first_line_with(all, "interface:"@) == k);
    if k >= ls.len() {
        return None;
    }
    assert(all[k as int] == ls@[k as int]@);
    let fields = split(ls[k].as_slice(), ':');
    assert(views(fields@).len() == fields@.len());
    let name = if fields.len() > 1 {
        assert(views(fields@)[1] == fields@[1]@);
        trim(fields[1].as_slice())
    } else {
        trim(chars_of("unknown").as_slice())
    };
    Some(string_of(name.as_slice()))
}

fn parse_route_device(listing: &str) -> (r: Option<String>)
    ensures
        match route_device(lines_of(listing@)) {
            Some(name) => r is Some && r->0@ == name,
            None => r is None,
        },
{
    let ls = lines(chars_of(listing).as_slice());
    assert(views(ls@).len() == ls@.len());
    if ls.len() == 0 {
        return None;
    }
    assert(views(ls@)[0] == ls@[0]@);
    let ws = words(ls[0].as_slice());
    let ghost all = views(ws@);
    assert(all.len() == ws@.len());
    let mut k: usize = 0;
    assert(all.skip(0) == all);
    while k < ws.len() && !is_text(ws[k].as_slice(), "dev")
        invariant
            k <= ws.len(),
            all == views(ws@),
            position_of_word(all, "dev"@) == k + position_of_word(all.skip(k as int), "dev"@),
        decreases ws.len() - k,
    {
        assert(all.skip(k as int)[0] == ws@[k as int]@);
        assert(all.skip(k as int).drop_first() == all.skip(k + 1));
        k += 1;
    }
    proof {
        if k < ws.len() {
            assert(all.skip(k as int)[0] == ws@[k as int]@);
        }
    }
    assert(position_of_word(all, "dev"@) == k);
    if k < ws.len() && k + 1 < ws.len() {
        assert(all[k + 1] == ws@[k + 1]@);
        Some(string_of(ws[k + 1].as_slice()))
    } else {
        None
    }
}

/// The interface of the default route. A listing that could not be had is
/// `None`; the route listing of Linux is needed only where that of macOS
/// names no interface.
pub fn get_default_interface(route: Option<&str>, ip_route: Option<&str>) -> (r: String)
    ensures
        r@ == default_interface_of(
            match route {
                Some(s) => Some(s@),
                None => None,
            },
            match ip_route {
                Some(s) => Some(s@),
                None => None,
            },
        ),
{
    let first = match route {
        Some(text) => parse_route_interface(text),
        None => None,
    };
    match first {
        Some(name) => name,
        None => {
            let second = match ip_route {
                Some(text) => parse_route_device(text),
                None => None,
            };
            match second {
                Some(name) => name,
                None => "unknown".to_owned(),
            }
        },
    }
}

} // verus!
