//! The domain blocker: the list of blocked domains, how long a block
//! lasts, and the section of the hosts file that carries the blocks.

use crate::text::{
    all_digits, among, append, chars_of, decimal_value, lines, lines_of, lowercase_of,
    parse_digits, same, slice_of, split, split_on, string_of, to_lowercase, trim, trim_of, views,
};
use vstd::prelude::*;

verus! {

/// The unit of a duration.
#[derive(Clone, Copy, Debug, PartialEq, Eq, Structural)]
pub enum DurationUnit {
    Hours,
    Minutes,
    Seconds,
}

/// How long a block lasts: a number of units.
#[derive(Clone, Copy, Debug, PartialEq, Eq, Structural)]
pub struct BlockDuration {
    /// How many units.
    pub amount: i64,
    /// The unit.
    pub unit: DurationUnit,
}

/// The whole number that a text stands for: digits with or without a sign
/// in front, within `i64`.
pub open spec fn signed_value(s: Seq<char>) -> Option<i64> {
    let negative = s.len() > 0 && s[0] == '-';
    let digits = if s.len() > 0 && (s[0] == '-' || s[0] == '+') {
        s.drop_first()
    } else {
        s
    };
    if digits.len() == 0 || !all_digits(digits) {
        None
    } else if negative {
        if decimal_value(digits) <= 0x8000_0000_0000_0000 {
            Some((-(decimal_value(digits) as int)) as i64)
        } else {
            None
        }
    } else {
        if decimal_value(digits) <= 0x7fff_ffff_ffff_ffff {
            Some(decimal_value(digits) as i64)
        } else {
            None
        }
    }
}

/// The duration that a text in small letters stands for: a whole number
/// with `h`, `m` or `s` behind it for hours, minutes or seconds, or a
/// whole number alone for hours.
pub open spec fn duration_of(lower: Seq<char>) -> Option<BlockDuration> {
    let (number, unit) = if lower.len() > 0 && lower.last() == 'h' {
        (lower.drop_last(), DurationUnit::Hours)
    } else if lower.len() > 0 && lower.last() == 'm' {
        (lower.drop_last(), DurationUnit::Minutes)
    } else if lower.len() > 0 && lower.last() == 's' {
        (lower.drop_last(), DurationUnit::Seconds)
    } else {
        (lower, DurationUnit::Hours)
    };
    match signed_value(number) {
        Some(amount) => Some(BlockDuration { amount, unit }),
        None => None,
    }
}

/// The whole number that a text stands for.
pub fn parse_signed(s: &[char]) -> (r: Option<i64>)
    ensures
        r == signed_value(s@),
{
    let n = s.len();
    assert(n == s@.len());
    let negative = n > 0 && s[0] == '-';
    let start: usize = if n > 0 && (s[0] == '-' || s[0] == '+') {
        1
    } else {
        0
    };
    let digits = slice_of(s, start, n);
    assert(start == 1 ==> digits@ == s@.drop_first());
    assert(start == 0 ==> digits@ == s@);
    match parse_digits(digits.as_slice()) {
        None => None,
        Some(v) => {
            if negative {
                if v <= 0x7fff_ffff_ffff_ffff {
                    Some(-(v as i64))
                } else if v == 0x8000_0000_0000_0000 {
                    Some(i64::MIN)
                } else {
                    None
                }
            } else {
                if v <= 0x7fff_ffff_ffff_ffff {
                    Some(v as i64)
                } else {
                    None
                }
            }
        },
    }
}

/// The duration that a text in small letters stands for.
pub fn parse_duration_lower(lower: &[char]) -> (r: Option<BlockDuration>)
    ensures
        r == duration_of(lower@),
{
    let n = lower.len();
    assert(n == lower@.len());
    let (end, unit) = if n > 0 && lower[n - 1] == 'h' {
        (n - 1, DurationUnit::Hours)
    } else if n > 0 && lower[n - 1] == 'm' {
        (n - 1, DurationUnit::Minutes)
    } else if n > 0 && lower[n - 1] == 's' {
        (n - 1, DurationUnit::Seconds)
    } else {
        (n, DurationUnit::Hours)
    };
    let number = slice_of(lower, 0, end);
    assert(end == n ==> number@ == lower@);
    assert(end + 1 == n ==> number@ == lower@.drop_last());
    match parse_signed(number.as_slice()) {
        Some(amount) => Some(BlockDuration { amount, unit }),
        None => None,
    }
}

/// The duration that a text stands for: the text is taken without the
/// white space around it and in small letters.
pub fn parse_duration(dur: &str) -> (r: Option<BlockDuration>)
    ensures
        r == duration_of(lowercase_of(trim_of(dur@))),
{
    let trimmed = trim(chars_of(dur).as_slice());
    let lower = to_lowercase(string_of(trimmed.as_slice()).as_str());
    parse_duration_lower(chars_of(lower.as_str()).as_slice())
}

/// Number of seconds in one unit.
pub open spec fn unit_seconds(unit: DurationUnit) -> int {
    match unit {
        DurationUnit::Hours => 3_600,
        DurationUnit::Minutes => 60,
        DurationUnit::Seconds => 1,
    }
}

impl BlockDuration {
    /// The duration in seconds, where that is within `i64`.
    pub fn seconds(&self) -> (r: Option<i64>)
        ensures
            match r {
                Some(v) => v == self.amount * unit_seconds(self.unit),
                None => self.amount * unit_seconds(self.unit) > i64::MAX || self.amount
                    * unit_seconds(self.unit) < i64::MIN,
            },
    {
        let factor: i128 = match self.unit {
            DurationUnit::Hours => 3_600,
            DurationUnit::Minutes => 60,
            DurationUnit::Seconds => 1,
        };
        assert(-0x8000_0000_0000_0000 * 3_600 <= self.amount * factor <= 0x8000_0000_0000_0000
            * 3_600) by (nonlinear_arith)
            requires
                -0x8000_0000_0000_0000 <= self.amount < 0x8000_0000_0000_0000,
                1 <= factor <= 3_600,
        ;
        let total: i128 = (self.amount as i128) * factor;
        if total > i64::MAX as i128 || total < i64::MIN as i128 {
            None
        } else {
            Some(total as i64)
        }
    }
}

/// A blocked domain.
pub struct BlockedDomain {
    /// The domain.
    pub domain: String,
    /// When the block ends, as an RFC 3339 time; `None` for a block
    /// without end.
    pub expires_at: Option<String>,
}

/// The blocked domains and whether the blocks are in force.
pub struct BlockState {
    /// The blocked domains, in the order in which they were added.
    pub domains: Vec<BlockedDomain>,
    /// Whether the blocks are in force.
    pub enabled: bool,
}

/// A point in time: whole seconds since 1970-01-01 00:00:00 UTC, leap
/// seconds not counted, and the nanoseconds since the last whole second.
/// Within a leap second the nanoseconds are a thousand million and more.
#[derive(Clone, Copy, Debug, PartialEq, Eq, Structural)]
pub struct Instant {
    pub seconds: i64,
    pub nanos: u32,
}

/// The point in time that a text names by RFC 3339, as
/// `chrono::DateTime::parse_from_rfc3339` reads it: the whole seconds since
/// 1970-01-01 00:00:00 UTC, leap seconds not counted, and the nanoseconds
/// since the last whole second, which within a leap second are a thousand
/// million and more; nothing where it reads no time.
pub uninterp spec fn rfc3339_time(s: Seq<char>) -> Option<(i64, u32)>;

/// `chrono::DateTime::parse_from_rfc3339` reads a time with its offset from
/// UTC out of the text; `timestamp` and `timestamp_subsec_nanos` give the
/// point in time it stands for. What comes out depends on the text alone.
#[verifier::external_body]
fn parse_rfc3339(s: &str) -> (r: Option<(i64, u32)>)
    ensures
        r == rfc3339_time(s@),
{
    match chrono::DateTime::parse_from_rfc3339(s) {
        Ok(t) => Some((t.timestamp(), t.timestamp_subsec_nanos())),
        Err(_) => None,
    }
}

/// The point in time that a text names by RFC 3339; nothing where it names
/// none.
pub open spec fn rfc3339_instant(s: Seq<char>) -> Option<Instant> {
    match rfc3339_time(s) {
        Some(t) => Some(Instant { seconds: t.0, nanos: t.1 }),
        None => None,
    }
}

/// The point in time that a text names by RFC 3339.
pub fn parse_instant(s: &str) -> (r: Option<Instant>)
    ensures
        r == rfc3339_instant(s@),
{
    match parse_rfc3339(s) {
        Some(t) => Some(Instant { seconds: t.0, nanos: t.1 }),
        None => None,
    }
}

/// `a` is later than `b`.
pub open spec fn later(a: Instant, b: Instant) -> bool {
    a.seconds > b.seconds || (a.seconds == b.seconds && a.nanos > b.nanos)
}

/// Whether a block still stands at the time `now`: it has no end, or its
/// end is not readable as a time, or its end is later than `now`.
pub open spec fn stands(expiry: Option<Option<Instant>>, now: Instant) -> bool {
    match expiry {
        Some(Some(end)) => later(end, now),
        _ => true,
    }
}

/// What is read of the end of a block: `None` for a block without end,
/// else what the text of its end reads as.
pub open spec fn expiry_of(d: BlockedDomain) -> Option<Option<Instant>> {
    match d.expires_at {
        Some(text) => Some(rfc3339_instant(text@)),
        None => None,
    }
}

/// Whether a block still stands at the time `now`. `expiry` is `None` for
/// a block without end, else what the text of its end reads as.
pub fn still_stands(expiry: Option<Option<Instant>>, now: Instant) -> (r: bool)
    ensures
        r == stands(expiry, now),
{
    match expiry {
        Some(Some(end)) => end.seconds > now.seconds || (end.seconds == now.seconds && end.nanos
            > now.nanos),
        _ => true,
    }
}

/// The blocks among `domains` that still stand at the time `now`, in their
/// order.
pub open spec fn standing(domains: Seq<BlockedDomain>, now: Instant) -> Seq<BlockedDomain>
    decreases domains.len(),
{
    if domains.len() == 0 {
        Seq::empty()
    } else if stands(expiry_of(domains.last()), now) {
        standing(domains.drop_last(), now).push(domains.last())
    } else {
        standing(domains.drop_last(), now)
    }
}

/// The blocks among `domains` that are not for `domain`, in their order.
pub open spec fn without_domain(domains: Seq<BlockedDomain>, domain: Seq<char>) -> Seq<
    BlockedDomain,
>
    decreases domains.len(),
{
    if domains.len() == 0 {
        Seq::empty()
    } else if domains.last().domain@ != domain {
        without_domain(domains.drop_last(), domain).push(domains.last())
    } else {
        without_domain(domains.drop_last(), domain)
    }
}

/// Whether one of the blocks is for `domain`.
pub open spec fn is_blocked(domains: Seq<BlockedDomain>, domain: Seq<char>) -> bool {
    exists|i: int| 0 <= i < domains.len() && (#[trigger] domains[i]).domain@ == domain
}

fn copy_of(d: &BlockedDomain) -> (r: BlockedDomain)
    ensures
        r == *d,
{
    BlockedDomain {
        domain: d.domain.clone(),
        expires_at: match &d.expires_at {
            Some(t) => Some(t.clone()),
            None => None,
        },
    }
}

impl BlockState {
    /// The state without any block, the blocks not in force.
    pub fn empty() -> (r: BlockState)
        ensures
            r.domains@.len() == 0,
            !r.enabled,
    {
        BlockState { domains: Vec::new(), enabled: false }
    }

    /// Drops the blocks that have ended by the time `now`.
    pub fn remove_expired(&mut self, now: Instant)
        ensures
            final(self).domains@ == standing(old(self).domains@, now),
            final(self).enabled == old(self).enabled,
    {
        let mut left: Vec<BlockedDomain> = Vec::new();
        let mut i: usize = 0;
        assert(self.domains@.take(0) == Seq::<BlockedDomain>::empty());
        while i < self.domains.len()
            invariant
                i <= self.domains.len(),
                *self == *old(self),
                left@ == standing(self.domains@.take(i as int), now),
            decreases self.domains.len() - i,
        {
            assert(self.domains@.take(i + 1).drop_last() == self.domains@.take(i as int));
            let d = &self.domains[i];
            let expiry = match &d.expires_at {
                Some(text) => Some(parse_instant(text.as_str())),
                None => None,
            };
            if still_stands(expiry, now) {
                left.push(copy_of(d));
            }
            i += 1;
        }
        assert(self.domains@.take(i as int) == self.domains@);
        self.domains = left;
    }

    /// Whether one of the blocks is for `domain`.
    pub fn blocks(&self, domain: &[char]) -> (r: bool)
        ensures
            r == is_blocked(self.domains@, domain@),
    {
        let mut i: usize = 0;
        while i < self.domains.len()
            invariant
                i <= self.domains.len(),
                forall|j: int| 0 <= j < i ==> (#[trigger] self.domains@[j]).domain@ != domain@,
            decreases self.domains.len() - i,
        {
            if same(chars_of(self.domains[i].domain.as_str()).as_slice(), domain) {
                return true;
            }
            i += 1;
        }
        false
    }

    /// Drops the blocks for `domain`, taken without the white space around
    /// it, and says whether there was one.
    pub fn remove(&mut self, domain: &str) -> (removed: bool)
        ensures
            final(self).domains@ == without_domain(old(self).domains@, trim_of(domain@)),
            final(self).enabled == old(self).enabled,
            removed == (final(self).domains@.len() < old(self).domains@.len()),
    {
        let key = trim(chars_of(domain).as_slice());
        let mut left: Vec<BlockedDomain> = Vec::new();
        let mut i: usize = 0;
        assert(self.domains@.take(0) == Seq::<BlockedDomain>::empty());
        while i < self.domains.len()
            invariant
                i <= self.domains.len(),
                *self == *old(self),
                key@ == trim_of(domain@),
                left@ == without_domain(self.domains@.take(i as int), key@),
            decreases self.domains.len() - i,
        {
            assert(self.domains@.take(i + 1).drop_last() == self.domains@.take(i as int));
            let d = &self.domains[i];
            if !same(chars_of(d.domain.as_str()).as_slice(), key.as_slice()) {
                left.push(copy_of(d));
            }
            i += 1;
        }
        assert(self.domains@.take(i as int) == self.domains@);
        let removed = left.len() < self.domains.len();
        self.domains = left;
        removed
    }
}

/// The domains of the blocks, in their order.
pub open spec fn domain_names(domains: Seq<BlockedDomain>) -> Seq<Seq<char>> {
    Seq::new(domains.len(), |i: int| domains[i].domain@)
}

/// The domains that are blocked once the entries of a list were added to
/// those in `names`: each entry is taken without the white space around
/// it; an empty entry and one that is blocked already add nothing.
pub open spec fn names_after_adding(names: Seq<Seq<char>>, entries: Seq<Seq<char>>) -> Seq<
    Seq<char>,
>
    decreases entries.len(),
{
    if entries.len() == 0 {
        names
    } else {
        let before = names_after_adding(names, entries.drop_last());
        let d = trim_of(entries.last());
        if d.len() == 0 || among(before, d) {
            before
        } else {
            before.push(d)
        }
    }
}

/// What became of one entry of a list of domains to block.
pub struct AddOutcome {
    /// The domain.
    pub domain: String,
    /// Whether a block was added for it; `false` where it was blocked
    /// already.
    pub added: bool,
}

/// What became of the entries of a list, in their order; an empty entry
/// leaves nothing.
pub open spec fn outcomes_of_adding(names: Seq<Seq<char>>, entries: Seq<Seq<char>>) -> Seq<
    (Seq<char>, bool),
>
    decreases entries.len(),
{
    if entries.len() == 0 {
        Seq::empty()
    } else {
        let before = outcomes_of_adding(names, entries.drop_last());
        let d = trim_of(entries.last());
        if d.len() == 0 {
            before
        } else {
            before.push((d, !among(names_after_adding(names, entries.drop_last()), d)))
        }
    }
}

/// The outcomes as plain values.
pub open spec fn outcome_views(v: Seq<AddOutcome>) -> Seq<(Seq<char>, bool)> {
    Seq::new(v.len(), |i: int| (v[i].domain@, v[i].added))
}

impl BlockState {
    /// Adds a block for each entry of the comma-separated `list` that is
    /// not empty and not blocked already, each ending at `expiry`, and puts
    /// the blocks in force. The blocks that stood before stay as they are,
    /// in front of the new ones.
    pub fn add(&mut self, list: &str, expiry: Option<String>) -> (r: Vec<AddOutcome>)
        ensures
            final(self).enabled,
            domain_names(final(self).domains@) == names_after_adding(
                domain_names(old(self).domains@),
                split_on(list@, ','),
            ),
            outcome_views(r@) == outcomes_of_adding(
                domain_names(old(self).domains@),
                split_on(list@, ','),
            ),
            final(self).domains@.len() >= old(self).domains@.len(),
            forall|i: int|
                0 <= i < old(self).domains@.len() ==> final(self).domains@[i] == old(
                    self,
                ).domains@[i],
            forall|i: int|
                old(self).domains@.len() <= i < final(self).domains@.len() ==> (
                #[trigger] final(self).domains@[i]).expires_at == expiry,
    {
        let entries = split(chars_of(list).as_slice(), ',');
        let mut out: Vec<AddOutcome> = Vec::new();
        let mut i: usize = 0;
        let ghost start = self.domains@;
        let ghost fields = views(entries@);
        assert(fields.take(0) == Seq::<Seq<char>>::empty());
        assert(outcome_views(out@) =~= Seq::<(Seq<char>, bool)>::empty());
        while i < entries.len()
            invariant
                i <= entries.len(),
                fields == views(entries@),
                self.enabled == old(self).enabled,
                start == old(self).domains@,
                domain_names(self.domains@) == names_after_adding(
                    domain_names(start),
                    fields.take(i as int),
                ),
                outcome_views(out@) == outcomes_of_adding(
                    domain_names(start),
                    fields.take(i as int),
                ),
                self.domains@.len() >= start.len(),
                forall|k: int| 0 <= k < start.len() ==> self.domains@[k] == start[k],
                forall|k: int|
                    start.len() <= k < self.domains@.len() ==> (
                    #[trigger] self.domains@[k]).expires_at == expiry,
            decreases entries.len() - i,
        {
            assert(fields.take(i + 1).drop_last() == fields.take(i as int));
            assert(fields.take(i + 1).last() == entries@[i as int]@);
            let d = trim(entries[i].as_slice());
            if d.len() > 0 {
                let known = self.blocks(d.as_slice());
                let ghost names = domain_names(self.domains@);
                assert(known == among(names, d@)) by {
                    if known {
                        let k = choose|k: int|
                            0 <= k < self.domains@.len() && (#[trigger] self.domains@[k]).domain@
                                == d@;
                        assert(names[k] == d@);
                    }
                    if among(names, d@) {
                        let k = choose|k: int| 0 <= k < names.len() && #[trigger] names[k] == d@;
                        assert(self.domains@[k].domain@ == d@);
                    }
                }
                let name = string_of(d.as_slice());
                let outcome = AddOutcome { domain: name.clone(), added: !known };
                assert(outcome_views(out@.push(outcome)) =~= outcome_views(out@).push(
                    (d@, !known),
                ));
                out.push(outcome);
                if !known {
                    let block = BlockedDomain {
                        domain: name,
                        expires_at: match &expiry {
                            Some(t) => Some(t.clone()),
                            None => None,
                        },
                    };
                    assert(domain_names(self.domains@.push(block)) =~= names.push(d@));
                    self.domains.push(block);
                }
            }
            i += 1;
        }
        assert(fields.take(i as int) == fields);
        self.enabled = true;
        out
    }
}

/// The line that opens the section of the blocks in the hosts file.
pub open spec fn marker_begin() -> Seq<char> {
    "# >>> netctl block begin"@
}

/// The line that closes the section of the blocks in the hosts file.
pub open spec fn marker_end() -> Seq<char> {
    "# <<< netctl block end"@
}

/// Whether a line is one of the two marker lines, white space around it
/// apart.
pub open spec fn is_marker(line: Seq<char>) -> bool {
    trim_of(line) == marker_begin() || trim_of(line) == marker_end()
}

/// Whether the line that follows `lines` stands inside the section of the
/// blocks: the last marker line among them opens it.
pub open spec fn inside_section(lines: Seq<Seq<char>>) -> bool
    decreases lines.len(),
{
    if lines.len() == 0 {
        false
    } else if trim_of(lines.last()) == marker_begin() {
        true
    } else if trim_of(lines.last()) == marker_end() {
        false
    } else {
        inside_section(lines.drop_last())
    }
}

/// The lines of a hosts file that are no business of the blocker, each
/// with a line feed behind it: neither a marker line nor a line inside the
/// section of the blocks.
pub open spec fn foreign_text(lines: Seq<Seq<char>>) -> Seq<char>
    decreases lines.len(),
{
    if lines.len() == 0 {
        Seq::empty()
    } else if is_marker(lines.last()) || inside_section(lines.drop_last()) {
        foreign_text(lines.drop_last())
    } else {
        foreign_text(lines.drop_last()) + lines.last() + seq!['\n']
    }
}

/// Two lines for each domain that send the domain, and the domain with
/// `www.` in front, to the loopback address.
pub open spec fn entries_text(names: Seq<Seq<char>>) -> Seq<char>
    decreases names.len(),
{
    if names.len() == 0 {
        Seq::empty()
    } else {
        entries_text(names.drop_last()) + "127.0.0.1 "@ + names.last() + seq!['\n']
            + "127.0.0.1 www."@ + names.last() + seq!['\n']
    }
}

/// The hosts file with the section of the blocks brought up to date: the
/// foreign lines as they are, and behind them, where the blocks are in
/// force and there are any, the section between its two marker lines.
pub open spec fn hosts_text(content: Seq<char>, names: Seq<Seq<char>>, enabled: bool) -> Seq<char> {
    foreign_text(lines_of(content)) + if enabled && names.len() > 0 {
        marker_begin() + seq!['\n'] + entries_text(names) + marker_end() + seq!['\n']
    } else {
        Seq::empty()
    }
}

/// The hosts file with the section of the blocks brought up to date.
pub fn apply_blocks(content: &str, state: &BlockState) -> (r: String)
    ensures
        r@ == hosts_text(content@, domain_names(state.domains@), state.enabled),
{
    let begin = chars_of("# >>> netctl block begin");
    let end = chars_of("# <<< netctl block end");
    let ls = lines(chars_of(content).as_slice());
    let mut out: Vec<char> = Vec::new();
    let mut inside = false;
    let mut i: usize = 0;
    let ghost all = views(ls@);
    assert(all.take(0) == Seq::<Seq<char>>::empty());
    while i < ls.len()
        invariant
            i <= ls.len(),
            all == views(ls@),
            begin@ == marker_begin(),
            end@ == marker_end(),
            inside == inside_section(all.take(i as int)),
            out@ == foreign_text(all.take(i as int)),
        decreases ls.len() - i,
    {
        assert(all.take(i + 1).drop_last() == all.take(i as int));
        assert(all.take(i + 1).last() == ls@[i as int]@);
        let t = trim(ls[i].as_slice());
        if same(t.as_slice(), begin.as_slice()) {
            inside = true;
        } else if same(t.as_slice(), end.as_slice()) {
            inside = false;
        } else if !inside {
            let ghost before = out@;
            append(&mut out, ls[i].as_slice());
            out.push('\n');
            assert(out@ == before + ls@[i as int]@ + seq!['\n']);
        }
        i += 1;
    }
    assert(all.take(i as int) == all);
    if state.enabled && state.domains.len() > 0 {
        let ghost foreign = out@;
        let ghost names = domain_names(state.domains@);
        append(&mut out, begin.as_slice());
        out.push('\n');
        let ghost head = out@;
        let mut k: usize = 0;
        assert(names.take(0) == Seq::<Seq<char>>::empty());
        assert(head + Seq::<char>::empty() == head);
        while k < state.domains.len()
            invariant
                k <= state.domains.len(),
                names == domain_names(state.domains@),
                out@ == head + entries_text(names.take(k as int)),
            decreases state.domains.len() - k,
        {
            assert(names.take(k + 1).drop_last() == names.take(k as int));
            assert(names.take(k + 1).last() == state.domains@[k as int].domain@);
            let d = chars_of(state.domains[k].domain.as_str());
            let ghost before = entries_text(names.take(k as int));
            append(&mut out, chars_of("127.0.0.1 ").as_slice());
            append(&mut out, d.as_slice());
            out.push('\n');
            append(&mut out, chars_of("127.0.0.1 www.").as_slice());
            append(&mut out, d.as_slice());
            out.push('\n');
            assert(out@ == head + (before + "127.0.0.1 "@ + d@ + seq!['\n'] + "127.0.0.1 www."@
                + d@ + seq!['\n']));
            k += 1;
        }
        assert(names.take(k as int) == names);
        append(&mut out, end.as_slice());
        out.push('\n');
        assert(out@ == foreign + (marker_begin() + seq!['\n'] + entries_text(names) + marker_end()
            + seq!['\n']));
    } else {
        assert(out@ + Seq::<char>::empty() == out@);
    }
    string_of(out.as_slice())
}

/// The names among `names` other than `name`, in their order.
pub open spec fn names_without(names: Seq<Seq<char>>, name: Seq<char>) -> Seq<Seq<char>>
    decreases names.len(),
{
    if names.len() == 0 {
        Seq::empty()
    } else if names.last() != name {
        names_without(names.drop_last(), name).push(names.last())
    } else {
        names_without(names.drop_last(), name)
    }
}

/// Dropping the blocks for a domain drops exactly that name from the
/// names of the blocks.
pub proof fn lemma_names_without(domains: Seq<BlockedDomain>, name: Seq<char>)
    ensures
        domain_names(without_domain(domains, name)) == names_without(domain_names(domains), name),
    decreases domains.len(),
{
    if domains.len() == 0 {
        assert(domain_names(without_domain(domains, name)) =~= Seq::<Seq<char>>::empty());
    } else {
        let head = domains.drop_last();
        lemma_names_without(head, name);
        assert(domain_names(domains).drop_last() =~= domain_names(head));
        assert(domain_names(domains).last() == domains.last().domain@);
        if domains.last().domain@ != name {
            assert(domain_names(without_domain(head, name).push(domains.last()))
                =~= domain_names(without_domain(head, name)).push(domains.last().domain@));
        }
    }
}

/// What is left after dropping the blocks for a domain are blocks that
/// stood before, none of them for that domain.
pub proof fn lemma_without_domain_keeps(domains: Seq<BlockedDomain>, name: Seq<char>)
    ensures
        without_domain(domains, name).len() <= domains.len(),
        forall|i: int|
            0 <= i < without_domain(domains, name).len() ==> (#[trigger] without_domain(
                domains,
                name,
            )[i]).domain@ != name && exists|j: int|
                0 <= j < domains.len() && domains[j] == without_domain(domains, name)[i],
    decreases domains.len(),
{
    if domains.len() > 0 {
        let head = domains.drop_last();
        lemma_without_domain_keeps(head, name);
        let left = without_domain(domains, name);
        assert forall|i: int| 0 <= i < left.len() implies (#[trigger] left[i]).domain@ != name
            && exists|j: int| 0 <= j < domains.len() && domains[j] == left[i] by {
            if i < without_domain(head, name).len() {
                let j = choose|j: int|
                    0 <= j < head.len() && head[j] == without_domain(head, name)[i];
                assert(domains[j] == left[i]);
            } else {
                assert(domains[domains.len() - 1] == left[i]);
            }
        }
    }
}

/// What is asked of the blocker in one call.
pub struct BlockRequest {
    /// Domains to block, separated by commas.
    pub add: Option<String>,
    /// A domain to unblock.
    pub remove: Option<String>,
    /// Whether the blocks are to be listed.
    pub list: bool,
    /// Whether the blocks are to be put in force.
    pub enable: bool,
    /// Whether the blocks are to be put out of force.
    pub disable: bool,
}

/// What one call of the blocker did.
pub struct BlockReport {
    /// What became of each domain to block.
    pub added: Vec<AddOutcome>,
    /// Whether the domain to unblock was blocked; `None` where none was
    /// asked for.
    pub removed: Option<bool>,
    /// Whether the state is to be saved and the hosts file brought up to
    /// date.
    pub modified: bool,
    /// Whether the blocks are to be listed.
    pub show_status: bool,
}

/// The names of the blocks after a request.
pub open spec fn names_after_request(names: Seq<Seq<char>>, request: BlockRequest) -> Seq<
    Seq<char>,
> {
    let added = match request.add {
        Some(list) => names_after_adding(names, split_on(list@, ',')),
        None => names,
    };
    match request.remove {
        Some(domain) => names_without(added, trim_of(domain@)),
        None => added,
    }
}

/// Whether the blocks are in force after a request: putting them out of
/// force wins over putting them in force, and adding a block puts them in
/// force.
pub open spec fn enabled_after_request(enabled: bool, request: BlockRequest) -> bool {
    if request.disable {
        false
    } else if request.enable || request.add is Some {
        true
    } else {
        enabled
    }
}

/// Carries out one request on the state: first the domains to block, with
/// `expiry` as the end of each new block, then the domain to unblock, then
/// putting the blocks in or out of force. The state counts as modified
/// where a list of domains to block was given, a block was dropped, or the
/// blocks were put in or out of force; the blocks are to be listed where
/// that is asked for or nothing was modified.
pub fn run(state: &mut BlockState, request: &BlockRequest, expiry: Option<String>) -> (r:
    BlockReport)
    ensures
        domain_names(final(state).domains@) == names_after_request(
            domain_names(old(state).domains@),
            *request,
        ),
        final(state).enabled == enabled_after_request(old(state).enabled, *request),
        r.removed is Some == request.remove is Some,
        r.added@.len() > 0 ==> request.add is Some,
        request.add matches Some(list) ==> outcome_views(r.added@) == outcomes_of_adding(
            domain_names(old(state).domains@),
            split_on(list@, ','),
        ),
        r.modified == (request.add is Some || r.removed == Some(true) || request.enable
            || request.disable),
        r.removed matches Some(found) ==> found == (names_after_request(
            domain_names(old(state).domains@),
            *request,
        ).len() < names_after_request(
            domain_names(old(state).domains@),
            BlockRequest {
                add: request.add,
                remove: None,
                list: request.list,
                enable: request.enable,
                disable: request.disable,
            },
        ).len()),
        r.show_status == (request.list || !r.modified),
        forall|i: int|
            0 <= i < final(state).domains@.len() ==> (#[trigger] final(state).domains@[i]).expires_at
                == expiry || exists|j: int|
                0 <= j < old(state).domains@.len() && old(state).domains@[j]
                    == final(state).domains@[i],
{
    let ghost before = state.domains@;
    let added = match &request.add {
        Some(list) => state.add(list.as_str(), expiry),
        None => Vec::new(),
    };
    let ghost middle = state.domains@;
    let removed = match &request.remove {
        Some(domain) => {
            let found = state.remove(domain.as_str());
            proof {
                lemma_names_without(middle, trim_of(domain@));
                lemma_without_domain_keeps(middle, trim_of(domain@));
            }
            Some(found)
        },
        None => None,
    };
    assert forall|i: int| 0 <= i < state.domains@.len() implies (
    #[trigger] state.domains@[i]).expires_at == expiry || exists|j: int|
        0 <= j < before.len() && before[j] == state.domains@[i] by {
        let j = choose|j: int| 0 <= j < middle.len() && middle[j] == state.domains@[i];
        if j < before.len() && request.add is Some {
            assert(before[j] == middle[j]);
        }
    }
    if request.enable {
        state.enabled = true;
    }
    if request.disable {
        state.enabled = false;
    }
    let dropped = match removed {
        Some(found) => found,
        None => false,
    };
    let modified = request.add.is_some() || dropped || request.enable || request.disable;
    BlockReport { added, removed, modified, show_status: request.list || !modified }
}

} // verus!
