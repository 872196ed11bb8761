//! Network connections: reading them out of the listings of the system
//! tools, telling local from external ones, and what is shown of them.

use crate::text::{
    chars_of, contains, contains_text, copy, is_text, lines, lines_of, lowercase_of,
    second_piece, second_piece_of, split, split_on, starts_with, string_of, to_lowercase,
    to_uppercase, trim_end_char, trim_end_char_of, trim_start_char, trim_start_char_of,
    uppercase_of, views, words, words_of,
};
use vstd::prelude::*;

verus! {

/// An address counts as local where it begins with one of these: the
/// loopback and unspecified addresses, a wildcard, `localhost`, and the
/// private ranges `192.168.`, `10.` and `172.16.`.
pub open spec fn is_local(addr: Seq<char>) -> bool {
    ||| "127."@.is_prefix_of(addr)
    ||| "0.0.0.0"@.is_prefix_of(addr)
    ||| "[::1]"@.is_prefix_of(addr)
    ||| "*:"@.is_prefix_of(addr)
    ||| "localhost"@.is_prefix_of(addr)
    ||| "192.168."@.is_prefix_of(addr)
    ||| "10."@.is_prefix_of(addr)
    ||| "172.16."@.is_prefix_of(addr)
}

/// Whether an address counts as local.
pub fn is_local_address(addr: &str) -> (r: bool)
    ensures
        r == is_local(addr@),
{
    let a = chars_of(addr);
    starts_with(a.as_slice(), chars_of("127.").as_slice()) || starts_with(
        a.as_slice(),
        chars_of("0.0.0.0").as_slice(),
    ) || starts_with(a.as_slice(), chars_of("[::1]").as_slice()) || starts_with(
        a.as_slice(),
        chars_of("*:").as_slice(),
    ) || starts_with(a.as_slice(), chars_of("localhost").as_slice()) || starts_with(
        a.as_slice(),
        chars_of("192.168.").as_slice(),
    ) || starts_with(a.as_slice(), chars_of("10.").as_slice()) || starts_with(
        a.as_slice(),
        chars_of("172.16.").as_slice(),
    )
}

/// One network connection.
pub struct Connection {
    /// Identifier of the process.
    pub pid: String,
    /// Name of the application.
    pub application: String,
    /// The far end of the connection.
    pub remote_address: String,
    /// The protocol.
    pub protocol: String,
    /// The state, abbreviated.
    pub state: String,
}

/// A connection as plain values.
pub ghost struct ConnectionView {
    pub pid: Seq<char>,
    pub application: Seq<char>,
    pub remote_address: Seq<char>,
    pub protocol: Seq<char>,
    pub state: Seq<char>,
}

impl View for Connection {
    type V = ConnectionView;

    open spec fn view(&self) -> ConnectionView {
        ConnectionView {
            pid: self.pid@,
            application: self.application@,
            remote_address: self.remote_address@,
            protocol: self.protocol@,
            state: self.state@,
        }
    }
}

/// The connections as plain values.
pub open spec fn connection_views(v: Seq<Connection>) -> Seq<ConnectionView> {
    Seq::new(v.len(), |i: int| v[i]@)
}

/// The state in the last column of a line of the open-files listing; none
/// where the line has no more than nine columns.
pub open spec fn listed_state(parts: Seq<Seq<char>>) -> Seq<char> {
    if parts.len() > 9 {
        parts.last()
    } else {
        Seq::empty()
    }
}

/// Whether a state is one of those behind which the connection stands in
/// the column before.
pub open spec fn state_follows_name(state: Seq<char>) -> bool {
    state == "(ESTABLISHED)"@ || state == "(LISTEN)"@ || state == "(CLOSE_WAIT)"@
}

/// The column of a line of the open-files listing that names the
/// connection.
pub open spec fn listed_connection(parts: Seq<Seq<char>>) -> Seq<char> {
    if state_follows_name(listed_state(parts)) {
        parts[parts.len() - 2]
    } else {
        parts.last()
    }
}

/// The protocol of a connection of the open-files listing: TCP with the
/// service that its port stands for, UDP, or the column as it stands.
pub open spec fn listed_protocol(column: Seq<char>, connection: Seq<char>) -> Seq<char> {
    if contains_text(column, "TCP"@) {
        if contains_text(connection, ":443"@) {
            "TCP/HTTPS"@
        } else if contains_text(connection, ":80"@) {
            "TCP/HTTP"@
        } else {
            "TCP"@
        }
    } else if contains_text(column, "UDP"@) {
        "UDP"@
    } else {
        column
    }
}

/// The far end of a connection: what stands behind the arrow, or the whole
/// where there is no arrow.
pub open spec fn remote_of(connection: Seq<char>) -> Seq<char> {
    if contains_text(connection, "->"@) {
        second_piece_of(connection, "->"@)
    } else {
        connection
    }
}

/// A state of the open-files listing, abbreviated: the brackets around it
/// are dropped.
pub open spec fn listed_state_short(state: Seq<char>) -> Seq<char> {
    let clean = trim_end_char_of(trim_start_char_of(state, '('), ')');
    if clean == "ESTABLISHED"@ {
        "ESTAB"@
    } else if clean == "CLOSE_WAIT"@ {
        "CLOSE_W"@
    } else if clean == "TIME_WAIT"@ {
        "TIME_W"@
    } else {
        clean
    }
}

/// The connection that a line of the open-files listing names; nothing
/// where the line has fewer than nine columns.
pub open spec fn listed_line(line: Seq<char>) -> Option<ConnectionView> {
    let parts = words_of(line);
    if parts.len() < 9 {
        None
    } else {
        Some(
            ConnectionView {
                pid: parts[1],
                application: parts[0],
                remote_address: remote_of(listed_connection(parts)),
                protocol: listed_protocol(parts[7], listed_connection(parts)),
                state: listed_state_short(listed_state(parts)),
            },
        )
    }
}

/// The connection that one line of the open-files listing names.
pub fn parse_listed_line(line: &[char]) -> (r: Option<Connection>)
    ensures
        match listed_line(line@) {
            Some(v) => r is Some && r->0@ == v,
            None => r is None,
        },
{
    let parts = words(line);
    let n = parts.len();
    assert(views(parts@).len() == n);
    if n < 9 {
        return None;
    }
    assert(forall|i: int| 0 <= i < n ==> views(parts@)[i] == #[trigger] parts@[i]@);
    let state: Vec<char> = if n > 9 {
        copy(parts[n - 1].as_slice())
    } else {
        Vec::new()
    };
    assert(state@ == listed_state(views(parts@)));
    let follows = is_text(state.as_slice(), "(ESTABLISHED)") || is_text(state.as_slice(), "(LISTEN)")
        || is_text(state.as_slice(), "(CLOSE_WAIT)");
    let connection = if follows {
        copy(parts[n - 2].as_slice())
    } else {
        copy(parts[n - 1].as_slice())
    };
    assert(connection@ == listed_connection(views(parts@)));
    let column = &parts[7];
    let protocol = if contains(column.as_slice(), chars_of("TCP").as_slice()) {
        if contains(connection.as_slice(), chars_of(":443").as_slice()) {
            chars_of("TCP/HTTPS")
        } else if contains(connection.as_slice(), chars_of(":80").as_slice()) {
            chars_of("TCP/HTTP")
        } else {
            chars_of("TCP")
        }
    } else if contains(column.as_slice(), chars_of("UDP").as_slice()) {
        chars_of("UDP")
    } else {
        copy(column.as_slice())
    };
    let remote = match second_piece(connection.as_slice(), chars_of("->").as_slice()) {
        Some(piece) => piece,
        None => copy(connection.as_slice()),
    };
    let clean = trim_end_char(trim_start_char(state.as_slice(), '(').as_slice(), ')');
    let short = if is_text(clean.as_slice(), "ESTABLISHED") {
        chars_of("ESTAB")
    } else if is_text(clean.as_slice(), "CLOSE_WAIT") {
        chars_of("CLOSE_W")
    } else if is_text(clean.as_slice(), "TIME_WAIT") {
        chars_of("TIME_W")
    } else {
        clean
    };
    Some(
        Connection {
            pid: string_of(parts[1].as_slice()),
            application: string_of(parts[0].as_slice()),
            remote_address: string_of(remote.as_slice()),
            protocol: string_of(protocol.as_slice()),
            state: string_of(short.as_slice()),
        },
    )
}

/// The connections that the lines name, in the order of the lines.
pub open spec fn listed_connections(lines: Seq<Seq<char>>) -> Seq<ConnectionView>
    decreases lines.len(),
{
    if lines.len() == 0 {
        Seq::empty()
    } else {
        match listed_line(lines.last()) {
            Some(v) => listed_connections(lines.drop_last()).push(v),
            None => listed_connections(lines.drop_last()),
        }
    }
}

/// The lines of a listing behind its heading.
pub open spec fn body_lines(listing: Seq<char>) -> Seq<Seq<char>> {
    if lines_of(listing).len() > 0 {
        lines_of(listing).skip(1)
    } else {
        Seq::empty()
    }
}

/// The connections that the open-files listing names: one for each line
/// behind the heading that has nine columns at least.
pub fn parse_listing(listing: &str) -> (r: Vec<Connection>)
    ensures
        connection_views(r@) == listed_connections(body_lines(listing@)),
{
    let ls = lines(chars_of(listing).as_slice());
    let mut out: Vec<Connection> = Vec::new();
    assert(connection_views(out@) =~= Seq::<ConnectionView>::empty());
    if ls.len() == 0 {
        assert(views(ls@).len() == 0);
        return out;
    }
    let ghost body = views(ls@).skip(1);
    let mut i: usize = 1;
    assert(body.take(0) == Seq::<Seq<char>>::empty());
    while i < ls.len()
        invariant
            1 <= i <= ls.len(),
            body == views(ls@).skip(1),
            connection_views(out@) == listed_connections(body.take(i - 1)),
        decreases ls.len() - i,
    {
        assert(body.take(i as int).drop_last() == body.take(i - 1));
        assert(body.take(i as int).last() == ls@[i as int]@);
        match parse_listed_line(ls[i].as_slice()) {
            Some(c) => {
                assert(connection_views(out@.push(c)) =~= connection_views(out@).push(c@));
                out.push(c);
            },
            None => {},
        }
        i += 1;
    }
    assert(body.take(i - 1) == body);
    out
}

/// A state of the socket listing, abbreviated.
pub open spec fn socket_state_short(state: Seq<char>) -> Seq<char> {
    if state == "CLOSE-WAIT"@ {
        "CLOSE_W"@
    } else if state == "TIME-WAIT"@ {
        "TIME_W"@
    } else {
        state
    }
}

/// The process identifier in the process column of the socket listing:
/// what stands behind the first `pid=` up to the next comma; a dash where
/// the column names no process.
pub open spec fn socket_pid_of(column: Seq<char>) -> Seq<char> {
    if contains_text(column, "pid="@) {
        split_on(second_piece_of(column, "pid="@), ',')[0]
    } else {
        "-"@
    }
}

/// The process column of a line of the socket listing: its seventh
/// column, or nothing where it has none.
pub open spec fn process_column(parts: Seq<Seq<char>>) -> Seq<char> {
    if parts.len() > 6 {
        parts[6]
    } else {
        Seq::empty()
    }
}

/// The connection that a line of the socket listing names, for a process
/// of the given name; nothing where the line has fewer than six columns.
pub open spec fn socket_line(line: Seq<char>, application: Seq<char>) -> Option<ConnectionView> {
    let parts = words_of(line);
    if parts.len() < 6 {
        None
    } else {
        Some(
            ConnectionView {
                pid: socket_pid_of(process_column(parts)),
                application,
                remote_address: parts[5],
                protocol: uppercase_of(parts[0]),
                state: socket_state_short(parts[1]),
            },
        )
    }
}

/// The process identifier in the process column of the socket listing.
pub fn socket_pid(column: &[char]) -> (r: Vec<char>)
    ensures
        r@ == socket_pid_of(column@),
{
    match second_piece(column, chars_of("pid=").as_slice()) {
        Some(piece) => {
            let mut fields = split(piece.as_slice(), ',');
            proof {
                crate::text::lemma_index_of_char(piece@, ',');
            }
            assert(views(fields@).len() == fields@.len());
            assert(views(fields@)[0] == fields@[0]@);
            fields.swap_remove(0)
        },
        None => chars_of("-"),
    }
}

/// A state of the socket listing, abbreviated.
pub fn abbreviate_socket_state(state: &[char]) -> (r: Vec<char>)
    ensures
        r@ == socket_state_short(state@),
{
    if is_text(state, "CLOSE-WAIT") {
        chars_of("CLOSE_W")
    } else if is_text(state, "TIME-WAIT") {
        chars_of("TIME_W")
    } else {
        copy(state)
    }
}

/// The process identifier that a line of the socket listing names, so that
/// the name of the process can be asked for; nothing where the line has
/// fewer than six columns.
pub fn socket_line_pid(line: &str) -> (r: Option<String>)
    ensures
        match r {
            Some(pid) => words_of(line@).len() >= 6 && pid@ == socket_pid_of(
                process_column(words_of(line@)),
            ),
            None => words_of(line@).len() < 6,
        },
{
    let parts = words(chars_of(line).as_slice());
    let n = parts.len();
    assert(views(parts@).len() == n);
    if n < 6 {
        return None;
    }
    let column: Vec<char> = if n > 6 {
        assert(views(parts@)[6] == parts@[6]@);
        copy(parts[6].as_slice())
    } else {
        Vec::new()
    };
    Some(string_of(socket_pid(column.as_slice()).as_slice()))
}

/// The connection that one line of the socket listing names, for a
/// process of the given name.
pub fn parse_socket_line(line: &str, application: &str) -> (r: Option<Connection>)
    ensures
        match socket_line(line@, application@) {
            Some(v) => r is Some && r->0@ == v,
            None => r is None,
        },
{
    let parts = words(chars_of(line).as_slice());
    let n = parts.len();
    assert(views(parts@).len() == n);
    if n < 6 {
        return None;
    }
    assert(forall|i: int| 0 <= i < n ==> views(parts@)[i] == #[trigger] parts@[i]@);
    let column: Vec<char> = if n > 6 {
        copy(parts[6].as_slice())
    } else {
        Vec::new()
    };
    Some(
        Connection {
            pid: string_of(socket_pid(column.as_slice()).as_slice()),
            application: application.to_owned(),
            remote_address: string_of(parts[5].as_slice()),
            protocol: to_uppercase(string_of(parts[0].as_slice()).as_str()),
            state: string_of(abbreviate_socket_state(parts[1].as_slice()).as_slice()),
        },
    )
}

/// Number of connections that are shown at most.
pub const SHOWN_AT_MOST: usize = 30;

/// Whether a connection passes the filters: its application holds the
/// filter text, the case of the letters apart, and where only external
/// connections are asked for its far end is not local.
pub open spec fn passes(c: ConnectionView, app_filter: Option<Seq<char>>, external_only: bool) -> bool {
    &&& app_filter matches Some(app) ==> contains_text(
        lowercase_of(c.application),
        lowercase_of(app),
    )
    &&& external_only ==> !is_local(c.remote_address)
}

/// The connections that pass the filters, in their order.
pub open spec fn passing(
    s: Seq<ConnectionView>,
    app_filter: Option<Seq<char>>,
    external_only: bool,
) -> Seq<ConnectionView>
    decreases s.len(),
{
    if s.len() == 0 {
        Seq::empty()
    } else if passes(s.last(), app_filter, external_only) {
        passing(s.drop_last(), app_filter, external_only).push(s.last())
    } else {
        passing(s.drop_last(), app_filter, external_only)
    }
}

/// Number of connections whose far end is not local.
pub open spec fn external_count(s: Seq<ConnectionView>) -> nat
    decreases s.len(),
{
    if s.len() == 0 {
        0
    } else if !is_local(s.last().remote_address) {
        external_count(s.drop_last()) + 1
    } else {
        external_count(s.drop_last())
    }
}

/// What tells connections apart: the process, the far end and the state,
/// with colons between them.
pub open spec fn key_of(c: ConnectionView) -> Seq<char> {
    c.pid + seq![':'] + c.remote_address + seq![':'] + c.state
}

/// Whether a connection with the key `key` is among `s`.
pub open spec fn has_key(s: Seq<ConnectionView>, key: Seq<char>) -> bool {
    exists|i: int| 0 <= i < s.len() && key_of(#[trigger] s[i]) == key
}

/// The connections without those that repeat the key of an earlier one.
pub open spec fn distinct(s: Seq<ConnectionView>) -> Seq<ConnectionView>
    decreases s.len(),
{
    if s.len() == 0 {
        Seq::empty()
    } else if has_key(distinct(s.drop_last()), key_of(s.last())) {
        distinct(s.drop_last())
    } else {
        distinct(s.drop_last()).push(s.last())
    }
}

/// `a` comes before `b` in the order of the dictionary, characters
/// compared by their code points.
pub open spec fn comes_before(a: Seq<char>, b: Seq<char>) -> bool
    decreases a.len(),
{
    if b.len() == 0 {
        false
    } else if a.len() == 0 {
        true
    } else if a[0] != b[0] {
        a[0] < b[0]
    } else {
        comes_before(a.drop_first(), b.drop_first())
    }
}

/// `s`, ordered by application, with `x` put in behind every connection
/// whose application does not come after that of `x`.
pub open spec fn insert_by_application(s: Seq<ConnectionView>, x: ConnectionView) -> Seq<
    ConnectionView,
>
    decreases s.len(),
{
    if s.len() == 0 {
        seq![x]
    } else if !comes_before(x.application, s.last().application) {
        s.push(x)
    } else {
        insert_by_application(s.drop_last(), x).push(s.last())
    }
}

/// The connections ordered by application; connections of the same
/// application stay in the order in which they came.
pub open spec fn by_application(s: Seq<ConnectionView>) -> Seq<ConnectionView>
    decreases s.len(),
{
    if s.len() == 0 {
        Seq::empty()
    } else {
        insert_by_application(by_application(s.drop_last()), s.last())
    }
}

/// The first `n` connections, or all of them where there are fewer.
pub open spec fn at_most(s: Seq<ConnectionView>, n: nat) -> Seq<ConnectionView> {
    if s.len() <= n {
        s
    } else {
        s.take(n as int)
    }
}

/// Whether `a` comes before `b` in the order of the dictionary.
pub fn less(a: &[char], b: &[char]) -> (r: bool)
    ensures
        r == comes_before(a@, b@),
{
    let mut i: usize = 0;
    assert(a@.skip(0) == a@ && b@.skip(0) == b@);
    while i < a.len() && i < b.len() && a[i] == b[i]
        invariant
            i <= a.len(),
            i <= b.len(),
            comes_before(a@, b@) == comes_before(a@.skip(i as int), b@.skip(i as int)),
        decreases a.len() - i,
    {
        assert(a@.skip(i as int).drop_first() == a@.skip(i + 1));
        assert(b@.skip(i as int).drop_first() == b@.skip(i + 1));
        i += 1;
    }
    if i >= b.len() {
        false
    } else if i >= a.len() {
        true
    } else {
        a[i] < b[i]
    }
}

fn clone_connection(c: &Connection) -> (r: Connection)
    ensures
        r@ == c@,
{
    Connection {
        pid: c.pid.clone(),
        application: c.application.clone(),
        remote_address: c.remote_address.clone(),
        protocol: c.protocol.clone(),
        state: c.state.clone(),
    }
}

fn key(c: &Connection) -> (r: Vec<char>)
    ensures
        r@ == key_of(c@),
{
    let mut out = chars_of(c.pid.as_str());
    out.push(':');
    crate::text::append(&mut out, chars_of(c.remote_address.as_str()).as_slice());
    out.push(':');
    crate::text::append(&mut out, chars_of(c.state.as_str()).as_slice());
    out
}

proof fn lemma_views_push(v: Seq<Connection>, c: Connection)
    ensures
        connection_views(v.push(c)) == connection_views(v).push(c@),
{
    assert(connection_views(v.push(c)) =~= connection_views(v).push(c@));
}

proof fn lemma_insert_at(s: Seq<ConnectionView>, x: ConnectionView, p: int)
    requires
        0 <= p <= s.len(),
        forall|j: int| p <= j < s.len() ==> comes_before(x.application, (#[trigger] s[j]).application),
        p > 0 ==> !comes_before(x.application, s[p - 1].application),
    ensures
        insert_by_application(s, x) == s.insert(p, x),
    decreases s.len(),
{
    if s.len() == 0 {
        assert(s.insert(p, x) == seq![x]);
    } else if p == s.len() {
        assert(s.insert(p, x) == s.push(x));
    } else {
        assert(comes_before(x.application, s[s.len() - 1].application));
        lemma_insert_at(s.drop_last(), x, p);
        assert(s.drop_last().insert(p, x).push(s.last()) == s.insert(p, x));
    }
}

proof fn lemma_never_before_itself(a: Seq<char>)
    ensures
        !comes_before(a, a),
    decreases a.len(),
{
    if a.len() > 0 {
        lemma_never_before_itself(a.drop_first());
    }
}

proof fn lemma_one_comes_first(a: Seq<char>, b: Seq<char>)
    ensures
        comes_before(a, b) ==> !comes_before(b, a),
        a != b ==> comes_before(a, b) || comes_before(b, a),
    decreases a.len(),
{
    if a.len() > 0 && b.len() > 0 {
        lemma_one_comes_first(a.drop_first(), b.drop_first());
        if a[0] == b[0] && a.drop_first() == b.drop_first() {
            assert(a =~= seq![a[0]] + a.drop_first());
            assert(b =~= seq![b[0]] + b.drop_first());
        }
    } else if a.len() == 0 && b.len() == 0 {
        assert(a =~= b);
    }
}

proof fn lemma_before_is_transitive(a: Seq<char>, b: Seq<char>, c: Seq<char>)
    ensures
        comes_before(a, b) && comes_before(b, c) ==> comes_before(a, c),
    decreases a.len(),
{
    if a.len() > 0 && b.len() > 0 && c.len() > 0 {
        lemma_before_is_transitive(a.drop_first(), b.drop_first(), c.drop_first());
    }
}

/// The order of the dictionary is a strict total order: no text comes
/// before itself, of two different texts exactly one comes before the
/// other, and what comes before an earlier text comes before a later one.
pub proof fn lemma_dictionary_order(a: Seq<char>, b: Seq<char>, c: Seq<char>)
    ensures
        !comes_before(a, a),
        comes_before(a, b) ==> !comes_before(b, a),
        a != b ==> comes_before(a, b) || comes_before(b, a),
        comes_before(a, b) && comes_before(b, c) ==> comes_before(a, c),
{
    lemma_never_before_itself(a);
    lemma_one_comes_first(a, b);
    lemma_before_is_transitive(a, b, c);
}

/// No connection stands behind one whose application comes after its own.
pub open spec fn ordered_by_application(s: Seq<ConnectionView>) -> bool {
    forall|i: int, j: int|
        0 <= i <= j < s.len() ==> !comes_before(s[j].application, s[i].application)
}

proof fn lemma_insert_keeps_order(s: Seq<ConnectionView>, x: ConnectionView)
    requires
        ordered_by_application(s),
    ensures
        ordered_by_application(insert_by_application(s, x)),
        insert_by_application(s, x).to_multiset() == s.to_multiset().insert(x),
        insert_by_application(s, x).len() == s.len() + 1,
        forall|i: int|
            0 <= i < insert_by_application(s, x).len() ==> #[trigger] insert_by_application(s, x)[i]
                == x || exists|k: int| 0 <= k < s.len() && s[k] == insert_by_application(s, x)[i],
    decreases s.len(),
{
    broadcast use vstd::seq_lib::group_to_multiset_ensures;

    let r = insert_by_application(s, x);
    if s.len() == 0 {
        assert(seq![x] == Seq::<ConnectionView>::empty().push(x));
        assert(s == Seq::<ConnectionView>::empty());
        lemma_dictionary_order(x.application, x.application, x.application);
    } else if !comes_before(x.application, s.last().application) {
        assert forall|i: int, j: int| 0 <= i <= j < r.len() implies !comes_before(
            r[j].application,
            r[i].application,
        ) by {
            if j < s.len() {
            } else if i < s.len() {
                let last = s[s.len() - 1].application;
                assert(!comes_before(last, s[i].application));
                lemma_dictionary_order(last, s[i].application, x.application);
                lemma_dictionary_order(x.application, s[i].application, last);
            } else {
                lemma_dictionary_order(x.application, x.application, x.application);
            }
        }
        assert forall|i: int| 0 <= i < r.len() implies #[trigger] r[i] == x || exists|k: int|
            0 <= k < s.len() && s[k] == r[i] by {
            if i < s.len() {
                assert(s[i] == r[i]);
            }
        }
    } else {
        let head = s.drop_last();
        let last = s.last();
        assert(ordered_by_application(head)) by {
            assert forall|i: int, j: int| 0 <= i <= j < head.len() implies !comes_before(
                head[j].application,
                head[i].application,
            ) by {
                assert(head[i] == s[i] && head[j] == s[j]);
            }
        }
        lemma_insert_keeps_order(head, x);
        let inner = insert_by_application(head, x);
        assert(r == inner.push(last));
        assert(s == head.push(last));
        assert(inner.push(last).to_multiset() == inner.to_multiset().insert(last));
        assert(head.push(last).to_multiset() == head.to_multiset().insert(last));
        assert(head.to_multiset().insert(x).insert(last) == head.to_multiset().insert(last).insert(
            x,
        ));
        assert forall|i: int| 0 <= i < inner.len() implies !comes_before(
            last.application,
            (#[trigger] inner[i]).application,
        ) by {
            if inner[i] == x {
                lemma_dictionary_order(x.application, last.application, x.application);
            } else {
                let k = choose|k: int| 0 <= k < head.len() && head[k] == inner[i];
                assert(s[k] == head[k]);
                assert(!comes_before(s[s.len() - 1].application, s[k].application));
            }
        }
        assert forall|i: int, j: int| 0 <= i <= j < r.len() implies !comes_before(
            r[j].application,
            r[i].application,
        ) by {
            if j < inner.len() {
                assert(r[i] == inner[i] && r[j] == inner[j]);
            } else if i < inner.len() {
                assert(r[i] == inner[i]);
            } else {
                lemma_dictionary_order(last.application, last.application, last.application);
            }
        }
        assert forall|i: int| 0 <= i < r.len() implies #[trigger] r[i] == x || exists|k: int|
            0 <= k < s.len() && s[k] == r[i] by {
            if i < inner.len() {
                assert(r[i] == inner[i]);
                if inner[i] != x {
                    let k = choose|k: int| 0 <= k < head.len() && head[k] == inner[i];
                    assert(s[k] == r[i]);
                }
            } else {
                assert(s[s.len() - 1] == r[i]);
            }
        }
    }
}

/// Ordering by application keeps every connection, as often as it occurs,
/// and leaves no connection behind one whose application comes after its
/// own.
pub proof fn lemma_by_application_sorts(s: Seq<ConnectionView>)
    ensures
        by_application(s).to_multiset() == s.to_multiset(),
        by_application(s).len() == s.len(),
        ordered_by_application(by_application(s)),
    decreases s.len(),
{
    broadcast use vstd::seq_lib::group_to_multiset_ensures;

    if s.len() > 0 {
        let head = s.drop_last();
        let x = s.last();
        lemma_by_application_sorts(head);
        lemma_insert_keeps_order(by_application(head), x);
        assert(s == head.push(x));
        assert(head.push(x).to_multiset() == head.to_multiset().insert(x));
    }
}

/// What is left of the connections holds each key once, and holds every
/// key that the connections hold.
pub proof fn lemma_distinct_keys(s: Seq<ConnectionView>)
    ensures
        forall|i: int, j: int|
            0 <= i < j < distinct(s).len() ==> key_of(#[trigger] distinct(s)[i]) != key_of(
                #[trigger] distinct(s)[j],
            ),
        forall|k: int| 0 <= k < s.len() ==> has_key(distinct(s), key_of(#[trigger] s[k])),
        distinct(s).len() <= s.len(),
    decreases s.len(),
{
    if s.len() > 0 {
        let head = s.drop_last();
        let before = distinct(head);
        let now = distinct(s);
        lemma_distinct_keys(head);
        assert forall|k: int| 0 <= k < s.len() implies has_key(now, key_of(#[trigger] s[k])) by {
            if k < head.len() {
                assert(head[k] == s[k]);
                let w = choose|w: int| 0 <= w < before.len() && key_of(#[trigger] before[w]) == key_of(s[k]);
                assert(key_of(now[w]) == key_of(s[k]));
            } else if has_key(before, key_of(s.last())) {
            } else {
                assert(key_of(now[now.len() - 1]) == key_of(s[k]));
            }
        }
        if !has_key(before, key_of(s.last())) {
            assert forall|i: int, j: int| 0 <= i < j < now.len() implies key_of(#[trigger] now[i])
                != key_of(#[trigger] now[j]) by {
                if j < before.len() {
                    assert(now[i] == before[i] && now[j] == before[j]);
                } else {
                    assert(now[i] == before[i]);
                }
            }
        }
    }
}

/// The connections that pass the filters, in their order.
pub fn filter(connections: &[Connection], app_filter: Option<&str>, external_only: bool) -> (r: Vec<
    Connection,
>)
    ensures
        connection_views(r@) == passing(
            connection_views(connections@),
            match app_filter {
                Some(app) => Some(app@),
                None => None,
            },
            external_only,
        ),
{
    let ghost wanted: Option<Seq<char>> = match app_filter {
        Some(app) => Some(app@),
        None => None,
    };
    let needle: Option<Vec<char>> = match app_filter {
        Some(app) => Some(chars_of(to_lowercase(app).as_str())),
        None => None,
    };
    let ghost all = connection_views(connections@);
    let mut out: Vec<Connection> = Vec::new();
    let mut i: usize = 0;
    assert(all.take(0) == Seq::<ConnectionView>::empty());
    assert(connection_views(out@) =~= Seq::<ConnectionView>::empty());
    while i < connections.len()
        invariant
            i <= connections.len(),
            all == connection_views(connections@),
            wanted == match app_filter {
                Some(app) => Some(app@),
                None => None,
            },
            match needle {
                Some(n) => wanted is Some && n@ == lowercase_of(wanted->0),
                None => wanted is None,
            },
            connection_views(out@) == passing(all.take(i as int), wanted, external_only),
        decreases connections.len() - i,
    {
        assert(all.take(i + 1).drop_last() == all.take(i as int));
        assert(all.take(i + 1).last() == connections@[i as int]@);
        let c = &connections[i];
        let by_app = match &needle {
            Some(n) => contains(
                chars_of(to_lowercase(c.application.as_str()).as_str()).as_slice(),
                n.as_slice(),
            ),
            None => true,
        };
        let by_place = !external_only || !is_local_address(c.remote_address.as_str());
        if by_app && by_place {
            let copy = clone_connection(c);
            proof {
                lemma_views_push(out@, copy);
            }
            out.push(copy);
        }
        i += 1;
    }
    assert(all.take(i as int) == all);
    out
}

/// Number of connections whose far end is not local.
pub fn count_external(connections: &[Connection]) -> (r: usize)
    ensures
        r == external_count(connection_views(connections@)),
        r <= connections@.len(),
{
    let ghost all = connection_views(connections@);
    let mut n: usize = 0;
    let mut i: usize = 0;
    assert(all.take(0) == Seq::<ConnectionView>::empty());
    while i < connections.len()
        invariant
            i <= connections.len(),
            all == connection_views(connections@),
            n == external_count(all.take(i as int)),
            n <= i,
        decreases connections.len() - i,
    {
        assert(all.take(i + 1).drop_last() == all.take(i as int));
        assert(all.take(i + 1).last() == connections@[i as int]@);
        if !is_local_address(connections[i].remote_address.as_str()) {
            n += 1;
        }
        i += 1;
    }
    assert(all.take(i as int) == all);
    n
}

/// The connections without those that repeat the process, far end and
/// state of an earlier one.
pub fn deduplicate(connections: &[Connection]) -> (r: Vec<Connection>)
    ensures
        connection_views(r@) == distinct(connection_views(connections@)),
{
    let ghost all = connection_views(connections@);
    let mut out: Vec<Connection> = Vec::new();
    let mut keys: Vec<Vec<char>> = Vec::new();
    let mut i: usize = 0;
    assert(all.take(0) == Seq::<ConnectionView>::empty());
    assert(connection_views(out@) =~= Seq::<ConnectionView>::empty());
    while i < connections.len()
        invariant
            i <= connections.len(),
            all == connection_views(connections@),
            connection_views(out@) == distinct(all.take(i as int)),
            keys@.len() == out@.len(),
            forall|j: int| 0 <= j < keys@.len() ==> (#[trigger] keys@[j])@ == key_of(out@[j]@),
        decreases connections.len() - i,
    {
        assert(all.take(i + 1).drop_last() == all.take(i as int));
        assert(all.take(i + 1).last() == connections@[i as int]@);
        let k = key(&connections[i]);
        let found = crate::text::position_of(keys.as_slice(), k.as_slice());
        let ghost seen = connection_views(out@);
        assert(found is Some == has_key(seen, k@)) by {
            if found is Some {
                let j = found->0 as int;
                assert(key_of(seen[j]) == k@);
            }
            if has_key(seen, k@) {
                let j = choose|j: int| 0 <= j < seen.len() && key_of(#[trigger] seen[j]) == k@;
                assert(keys@[j]@ == k@);
            }
        }
        if found.is_none() {
            let copy = clone_connection(&connections[i]);
            proof {
                lemma_views_push(out@, copy);
            }
            out.push(copy);
            keys.push(k);
        }
        i += 1;
    }
    assert(all.take(i as int) == all);
    out
}

/// The connections ordered by application; connections of the same
/// application stay in the order in which they came.
pub fn sort_by_application(connections: &[Connection]) -> (r: Vec<Connection>)
    ensures
        connection_views(r@) == by_application(connection_views(connections@)),
{
    let ghost all = connection_views(connections@);
    let mut out: Vec<Connection> = Vec::new();
    let mut i: usize = 0;
    assert(all.take(0) == Seq::<ConnectionView>::empty());
    assert(connection_views(out@) =~= Seq::<ConnectionView>::empty());
    while i < connections.len()
        invariant
            i <= connections.len(),
            all == connection_views(connections@),
            connection_views(out@) == by_application(all.take(i as int)),
        decreases connections.len() - i,
    {
        assert(all.take(i + 1).drop_last() == all.take(i as int));
        assert(all.take(i + 1).last() == connections@[i as int]@);
        let name = chars_of(connections[i].application.as_str());
        let mut p: usize = out.len();
        while p > 0 && less(name.as_slice(), chars_of(out[p - 1].application.as_str()).as_slice())
            invariant
                p <= out.len(),
                name@ == connections@[i as int]@.application,
                forall|j: int|
                    p <= j < out@.len() ==> comes_before(name@, (#[trigger] out@[j])@.application),
            decreases p,
        {
            p -= 1;
        }
        let copy = clone_connection(&connections[i]);
        proof {
            let seen = connection_views(out@);
            assert forall|j: int| p <= j < seen.len() implies comes_before(
                copy@.application,
                (#[trigger] seen[j]).application,
            ) by {
                assert(seen[j] == out@[j]@);
            }
            if p > 0 {
                assert(seen[p - 1] == out@[p - 1]@);
            }
            lemma_insert_at(seen, copy@, p as int);
            assert(connection_views(out@.insert(p as int, copy)) =~= seen.insert(p as int, copy@));
        }
        out.insert(p, copy);
        i += 1;
    }
    assert(all.take(i as int) == all);
    out
}

/// What is shown of the connections.
pub struct ConnectionReport {
    /// The connections to show.
    pub shown: Vec<Connection>,
    /// Number of connections that passed the filters.
    pub total: usize,
    /// How many of them have a far end that is not local.
    pub external: usize,
    /// How many of them have a local far end.
    pub local: usize,
}

/// What is shown of the connections: of those that pass the filters, each
/// process, far end and state once, ordered by application, thirty at
/// most; and how many passed the filters, external and local ones apart.
pub fn summarize(connections: &[Connection], app_filter: Option<&str>, external_only: bool) -> (r:
    ConnectionReport)
    ensures
        ({
            let kept = passing(
                connection_views(connections@),
                match app_filter {
                    Some(app) => Some(app@),
                    None => None,
                },
                external_only,
            );
            &&& connection_views(r.shown@) == at_most(by_application(distinct(kept)), 30)
            &&& r.total == kept.len()
            &&& r.external == external_count(kept)
            &&& r.local == kept.len() - external_count(kept)
        }),
{
    let kept = filter(connections, app_filter, external_only);
    assert(connection_views(kept@).len() == kept@.len());
    let external = count_external(kept.as_slice());
    let unique = deduplicate(kept.as_slice());
    let mut sorted = sort_by_application(unique.as_slice());
    assert(connection_views(sorted@).len() == sorted@.len());
    let ghost before = connection_views(sorted@);
    if sorted.len() > SHOWN_AT_MOST {
        sorted.truncate(SHOWN_AT_MOST);
        assert(connection_views(sorted@) =~= before.take(30));
    }
    ConnectionReport { shown: sorted, total: kept.len(), external, local: kept.len() - external }
}

} // verus!
