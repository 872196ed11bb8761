//! What is known of a VPN tunnel, put together from what the probes of the
//! system found.

use crate::display::{bytes_text, format_bytes as format_size};
use crate::fixed::{counter_of, parse_counter};
use crate::text::{
    chars_of, contains, contains_text, copy, find_char, first_line_with, index_of_char,
    lemma_index_of_char, lines, lines_of, slice_of, split, split_on, starts_with, string_of,
    string_views, trim, trim_of, views, words, words_of,
};
use vstd::prelude::*;

verus! {

/// What is known of the VPN connection of the system.
pub struct VpnInfo {
    /// Whether a tunnel was found.
    pub connected: bool,
    /// The interface of the tunnel.
    pub interface: Option<String>,
    /// The far end of the tunnel.
    pub server: Option<String>,
    /// The protocol of the tunnel.
    pub protocol: Option<String>,
    /// The address of the system outside the tunnel.
    pub local_ip: Option<String>,
    /// The address of the system inside the tunnel.
    pub vpn_ip: Option<String>,
    /// The resolvers in use.
    pub dns_servers: Vec<String>,
    /// Since when the tunnel stands.
    pub connected_since: Option<String>,
    /// Bytes sent through the tunnel.
    pub bytes_sent: Option<u64>,
    /// Bytes received through the tunnel.
    pub bytes_received: Option<u64>,
}

/// What the probes found of a tunnel interface.
pub struct InterfaceProbe {
    /// The interface.
    pub interface: String,
    /// The protocol that its name stands for.
    pub protocol: String,
    /// The address of the interface.
    pub vpn_ip: Option<String>,
    /// The address of the system outside the tunnel.
    pub local_ip: Option<String>,
    /// The resolvers in use.
    pub dns_servers: Vec<String>,
    /// Bytes sent through the interface.
    pub bytes_sent: u64,
    /// Bytes received through the interface.
    pub bytes_received: u64,
}

/// What the WireGuard tool reported.
pub struct WireguardProbe {
    /// The interface.
    pub interface: String,
    /// The far end of the tunnel.
    pub endpoint: String,
    /// The address of the interface.
    pub vpn_ip: Option<String>,
    /// The address of the system outside the tunnel.
    pub local_ip: Option<String>,
    /// The resolvers in use.
    pub dns_servers: Vec<String>,
}

/// The text an optional string holds.
pub open spec fn text_of(s: Option<String>) -> Option<Seq<char>> {
    match s {
        Some(t) => Some(t@),
        None => None,
    }
}

/// `info` says what an interface probe found: the tunnel stands, with the
/// traffic counts of the interface and without a known far end.
pub open spec fn from_interface(info: VpnInfo, probe: InterfaceProbe) -> bool {
    &&& info.connected
    &&& text_of(info.interface) == Some(probe.interface@)
    &&& info.server is None
    &&& text_of(info.protocol) == Some(probe.protocol@)
    &&& text_of(info.local_ip) == text_of(probe.local_ip)
    &&& text_of(info.vpn_ip) == text_of(probe.vpn_ip)
    &&& string_views(info.dns_servers@) == string_views(probe.dns_servers@)
    &&& info.connected_since is None
    &&& info.bytes_sent == Some(probe.bytes_sent)
    &&& info.bytes_received == Some(probe.bytes_received)
}

/// `info` says what the WireGuard tool reported: the tunnel stands, with
/// its far end and without traffic counts.
pub open spec fn from_wireguard(info: VpnInfo, probe: WireguardProbe) -> bool {
    &&& info.connected
    &&& text_of(info.interface) == Some(probe.interface@)
    &&& text_of(info.server) == Some(probe.endpoint@)
    &&& text_of(info.protocol) == Some("WireGuard"@)
    &&& text_of(info.local_ip) == text_of(probe.local_ip)
    &&& text_of(info.vpn_ip) == text_of(probe.vpn_ip)
    &&& string_views(info.dns_servers@) == string_views(probe.dns_servers@)
    &&& info.connected_since is None
    &&& info.bytes_sent is None
    &&& info.bytes_received is None
}

/// `info` says that no tunnel was found.
pub open spec fn disconnected(info: VpnInfo) -> bool {
    &&& !info.connected
    &&& info.interface is None
    &&& info.server is None
    &&& info.protocol is None
    &&& info.local_ip is None
    &&& info.vpn_ip is None
    &&& info.dns_servers@.len() == 0
    &&& info.connected_since is None
    &&& info.bytes_sent is None
    &&& info.bytes_received is None
}

/// Puts together what is known of the VPN connection. A tunnel interface
/// comes first; what the WireGuard tool reported counts only where no
/// tunnel interface was found.
pub fn detect_vpn(interface: Option<InterfaceProbe>, wireguard: Option<WireguardProbe>) -> (r:
    VpnInfo)
    ensures
        match (interface, wireguard) {
            (Some(probe), _) => from_interface(r, probe),
            (None, Some(probe)) => from_wireguard(r, probe),
            (None, None) => disconnected(r),
        },
{
    match interface {
        Some(probe) => VpnInfo {
            connected: true,
            interface: Some(probe.interface),
            server: None,
            protocol: Some(probe.protocol),
            local_ip: probe.local_ip,
            vpn_ip: probe.vpn_ip,
            dns_servers: probe.dns_servers,
            connected_since: None,
            bytes_sent: Some(probe.bytes_sent),
            bytes_received: Some(probe.bytes_received),
        },
        None => match wireguard {
            Some(probe) => VpnInfo {
                connected: true,
                interface: Some(probe.interface),
                server: Some(probe.endpoint),
                protocol: Some("WireGuard".to_owned()),
                local_ip: probe.local_ip,
                vpn_ip: probe.vpn_ip,
                dns_servers: probe.dns_servers,
                connected_since: None,
                bytes_sent: None,
                bytes_received: None,
            },
            None => VpnInfo {
                connected: false,
                interface: None,
                server: None,
                protocol: None,
                local_ip: None,
                vpn_ip: None,
                dns_servers: Vec::new(),
                connected_since: None,
                bytes_sent: None,
                bytes_received: None,
            },
        },
    }
}

/// The protocol that the name of a tunnel interface stands for.
pub open spec fn protocol_of(name: Seq<char>) -> Seq<char> {
    if "wg"@.is_prefix_of(name) {
        "WireGuard"@
    } else if "tun"@.is_prefix_of(name) || "utun"@.is_prefix_of(name) {
        "OpenVPN/IKEv2"@
    } else if "ppp"@.is_prefix_of(name) {
        "PPTP/L2TP"@
    } else {
        "VPN"@
    }
}

/// The protocol that the name of a tunnel interface stands for.
pub fn interface_protocol(name: &str) -> (r: String)
    ensures
        r@ == protocol_of(name@),
{
    let n = chars_of(name);
    if starts_with(n.as_slice(), chars_of("wg").as_slice()) {
        "WireGuard".to_owned()
    } else if starts_with(n.as_slice(), chars_of("tun").as_slice()) || starts_with(
        n.as_slice(),
        chars_of("utun").as_slice(),
    ) {
        "OpenVPN/IKEv2".to_owned()
    } else if starts_with(n.as_slice(), chars_of("ppp").as_slice()) {
        "PPTP/L2TP".to_owned()
    } else {
        "VPN".to_owned()
    }
}

/// A traffic count of the tunnel as it is shown.
pub fn format_bytes(bytes: u64) -> (r: String)
    ensures
        r@ == bytes_text(bytes as nat),
{
    format_size(bytes)
}

/// Whether a text holds one of the marks by which tunnel interfaces are
/// known.
pub open spec fn holds_tunnel_mark(s: Seq<char>) -> bool {
    ||| contains_text(s, "utun"@)
    ||| contains_text(s, "tun"@)
    ||| contains_text(s, "tap"@)
    ||| contains_text(s, "ppp"@)
    ||| contains_text(s, "wg"@)
    ||| contains_text(s, "ipsec"@)
    ||| contains_text(s, "gif"@)
}

/// Whether a name begins with one of the marks by which tunnel interfaces
/// are known.
pub open spec fn begins_with_tunnel_mark(s: Seq<char>) -> bool {
    ||| "utun"@.is_prefix_of(s)
    ||| "tun"@.is_prefix_of(s)
    ||| "tap"@.is_prefix_of(s)
    ||| "ppp"@.is_prefix_of(s)
    ||| "wg"@.is_prefix_of(s)
    ||| "ipsec"@.is_prefix_of(s)
    ||| "gif"@.is_prefix_of(s)
}

/// Whether a text holds one of the marks of tunnel interfaces.
pub fn has_tunnel_mark(s: &[char]) -> (r: bool)
    ensures
        r == holds_tunnel_mark(s@),
{
    contains(s, chars_of("utun").as_slice()) || contains(s, chars_of("tun").as_slice())
        || contains(s, chars_of("tap").as_slice()) || contains(s, chars_of("ppp").as_slice())
        || contains(s, chars_of("wg").as_slice()) || contains(s, chars_of("ipsec").as_slice())
        || contains(s, chars_of("gif").as_slice())
}

/// Whether a name begins with one of the marks of tunnel interfaces.
pub fn starts_with_tunnel_mark(s: &[char]) -> (r: bool)
    ensures
        r == begins_with_tunnel_mark(s@),
{
    starts_with(s, chars_of("utun").as_slice()) || starts_with(s, chars_of("tun").as_slice())
        || starts_with(s, chars_of("tap").as_slice()) || starts_with(s, chars_of("ppp").as_slice())
        || starts_with(s, chars_of("wg").as_slice()) || starts_with(
        s,
        chars_of("ipsec").as_slice(),
    ) || starts_with(s, chars_of("gif").as_slice())
}

/// The field of `s` at position `n` between separators `sep`, or nothing
/// where it has no such field.
pub open spec fn field_or_empty(s: Seq<char>, sep: char, n: int) -> Seq<char> {
    if 0 <= n < split_on(s, sep).len() {
        split_on(s, sep)[n]
    } else {
        Seq::empty()
    }
}

/// The name of the interface in a line of the link listing: what stands
/// between the first and the second colon, without the white space around
/// it, up to an `@`.
pub open spec fn link_name(line: Seq<char>) -> Seq<char> {
    split_on(trim_of(field_or_empty(line, ':', 1)), '@')[0]
}

/// Whether a line of the link listing names a tunnel interface that is
/// up.
pub open spec fn is_tunnel_link(line: Seq<char>) -> bool {
    holds_tunnel_mark(line) && contains_text(line, "UP"@)
}

/// The interface of the first line of the link listing that names a tunnel
/// interface that is up.
pub open spec fn first_tunnel_link(lines: Seq<Seq<char>>) -> Option<Seq<char>>
    decreases lines.len(),
{
    if lines.len() == 0 {
        None
    } else {
        match first_tunnel_link(lines.drop_last()) {
            Some(name) => Some(name),
            None => if is_tunnel_link(lines.last()) {
                Some(link_name(lines.last()))
            } else {
                None
            },
        }
    }
}

fn first_field(s: &[char], sep: char) -> (r: Vec<char>)
    ensures
        r@ == split_on(s@, sep)[0],
{
    let k = find_char(s, 0, sep);
    assert(s@.skip(0) == s@);
    proof {
        lemma_index_of_char(s@, sep);
    }
    let r = slice_of(s, 0, k);
    assert(s@.subrange(0, k as int) == s@.take(k as int));
    r
}

fn field_at(s: &[char], sep: char, n: usize) -> (r: Vec<char>)
    ensures
        r@ == field_or_empty(s@, sep, n as int),
{
    let fields = split(s, sep);
    assert(views(fields@).len() == fields@.len());
    if n < fields.len() {
        assert(views(fields@)[n as int] == fields@[n as int]@);
        copy(fields[n].as_slice())
    } else {
        Vec::new()
    }
}

/// The tunnel interface that the link listing names, with the protocol
/// that its name stands for: that of the first line that holds a mark of
/// tunnel interfaces and `UP`.
pub fn tunnel_from_links(listing: &str) -> (r: Option<(String, String)>)
    ensures
        match first_tunnel_link(lines_of(listing@)) {
            Some(name) => r matches Some(found) && found.0@ == name && found.1@ == protocol_of(
                name,
            ),
            None => r is None,
        },
{
    let ls = lines(chars_of(listing).as_slice());
    let up = chars_of("UP");
    let ghost all = views(ls@);
    let mut i: usize = 0;
    assert(all.take(0) == Seq::<Seq<char>>::empty());
    while i < ls.len()
        invariant
            i <= ls.len(),
            all == views(ls@),
            all == lines_of(listing@),
            up@ == "UP"@,
            first_tunnel_link(all.take(i as int)) is None,
        decreases ls.len() - i,
    {
        assert(all.take(i + 1).drop_last() == all.take(i as int));
        assert(all.take(i + 1).last() == ls@[i as int]@);
        let line = &ls[i];
        if has_tunnel_mark(line.as_slice()) && contains(line.as_slice(), up.as_slice()) {
            let second = field_at(line.as_slice(), ':', 1);
            let name = first_field(trim(second.as_slice()).as_slice(), '@');
            let name_text = string_of(name.as_slice());
            let protocol = interface_protocol(name_text.as_str());
            proof {
                lemma_first_hit_stays(all, i + 1);
            }
            return Some((name_text, protocol));
        }
        i += 1;
    }
    assert(all.take(i as int) == all);
    None
}

proof fn lemma_first_hit_stays(lines: Seq<Seq<char>>, k: int)
    requires
        0 <= k <= lines.len(),
        first_tunnel_link(lines.take(k)) is Some,
    ensures
        first_tunnel_link(lines) == first_tunnel_link(lines.take(k)),
    decreases lines.len() - k,
{
    if k < lines.len() {
        assert(lines.take(k + 1).drop_last() == lines.take(k));
        lemma_first_hit_stays(lines, k + 1);
    } else {
        assert(lines.take(k) == lines);
    }
}

/// Whether a line of the interface listing opens the part of an
/// interface: it begins with neither a tab nor a space and holds a colon.
pub open spec fn is_heading(line: Seq<char>) -> bool {
    &&& !(line.len() > 0 && (line[0] == '\t' || line[0] == ' '))
    &&& index_of_char(line, ':') < line.len()
}

/// The interface whose part the last of `lines` belongs to: the name in
/// front of the colon of the last heading; nothing before the first
/// heading.
pub open spec fn current_interface(lines: Seq<Seq<char>>) -> Seq<char>
    decreases lines.len(),
{
    if lines.len() == 0 {
        Seq::empty()
    } else if is_heading(lines.last()) {
        split_on(lines.last(), ':')[0]
    } else {
        current_interface(lines.drop_last())
    }
}

/// The tunnel interface of the interface listing that has an address: the
/// interface of the first line that holds `inet ` in the part of an
/// interface whose name begins with a mark of tunnel interfaces.
pub open spec fn first_tunnel_config(lines: Seq<Seq<char>>) -> Option<Seq<char>>
    decreases lines.len(),
{
    if lines.len() == 0 {
        None
    } else {
        match first_tunnel_config(lines.drop_last()) {
            Some(name) => Some(name),
            None => if begins_with_tunnel_mark(current_interface(lines)) && contains_text(
                lines.last(),
                "inet "@,
            ) {
                Some(current_interface(lines))
            } else {
                None
            },
        }
    }
}

proof fn lemma_first_config_stays(lines: Seq<Seq<char>>, k: int)
    requires
        0 <= k <= lines.len(),
        first_tunnel_config(lines.take(k)) is Some,
    ensures
        first_tunnel_config(lines) == first_tunnel_config(lines.take(k)),
    decreases lines.len() - k,
{
    if k < lines.len() {
        assert(lines.take(k + 1).drop_last() == lines.take(k));
        lemma_first_config_stays(lines, k + 1);
    } else {
        assert(lines.take(k) == lines);
    }
}

/// The tunnel interface that the interface listing names, with the
/// protocol that its name stands for.
pub fn tunnel_from_config(listing: &str) -> (r: Option<(String, String)>)
    ensures
        match first_tunnel_config(lines_of(listing@)) {
            Some(name) => r matches Some(found) && found.0@ == name && found.1@ == protocol_of(
                name,
            ),
            None => r is None,
        },
{
    let ls = lines(chars_of(listing).as_slice());
    let inet = chars_of("inet ");
    let ghost all = views(ls@);
    let mut current: Vec<char> = Vec::new();
    let mut i: usize = 0;
    assert(all.take(0) == Seq::<Seq<char>>::empty());
    while i < ls.len()
        invariant
            i <= ls.len(),
            all == views(ls@),
            all == lines_of(listing@),
            inet@ == "inet "@,
            current@ == current_interface(all.take(i as int)),
            first_tunnel_config(all.take(i as int)) is None,
        decreases ls.len() - i,
    {
        assert(all.take(i + 1).drop_last() == all.take(i as int));
        assert(all.take(i + 1).last() == ls@[i as int]@);
        let line = &ls[i];
        let n = line.len();
        let indented = n > 0 && (line[0] == '\t' || line[0] == ' ');
        let colon = find_char(line.as_slice(), 0, ':');
        assert(line@.skip(0) == line@);
        if !indented && colon < n {
            proof {
                lemma_index_of_char(line@, ':');
            }
            current = slice_of(line.as_slice(), 0, colon);
            assert(line@.subrange(0, colon as int) == line@.take(colon as int));
        }
        assert(current@ == current_interface(all.take(i + 1)));
        if starts_with_tunnel_mark(current.as_slice()) && contains(line.as_slice(), inet.as_slice()) {
            let name = string_of(current.as_slice());
            let protocol = interface_protocol(name.as_str());
            proof {
                lemma_first_config_stays(all, i + 1);
            }
            return Some((name, protocol));
        }
        i += 1;
    }
    assert(all.take(i as int) == all);
    None
}

/// What the WireGuard tool reports: the interface, which is what stands in
/// front of the first colon of the first line, and the far end, which is
/// what stands between the first and the second colon of the first line
/// that holds `endpoint`, or `unknown`; both without the white space around
/// them. Nothing where the tool printed nothing.
pub open spec fn wireguard_of(stdout: Seq<char>) -> Option<(Seq<char>, Seq<char>)> {
    let ls = lines_of(stdout);
    let k = first_line_with(ls, "endpoint"@);
    if stdout.len() == 0 {
        None
    } else {
        Some(
            (
                trim_of(
                    if ls.len() > 0 {
                        split_on(ls[0], ':')[0]
                    } else {
                        "wg0"@
                    },
                ),
                trim_of(
                    if 0 <= k < ls.len() && split_on(ls[k], ':').len() > 1 {
                        split_on(ls[k], ':')[1]
                    } else {
                        "unknown"@
                    },
                ),
            ),
        )
    }
}

/// What the WireGuard tool reports: the interface and the far end.
pub fn detect_wireguard(stdout: &str) -> (r: Option<(String, String)>)
    ensures
        match wireguard_of(stdout@) {
            Some(expected) => r matches Some(found) && found.0@ == expected.0 && found.1@
                == expected.1,
            None => r is None,
        },
{
    let text = chars_of(stdout);
    if text.len() == 0 {
        return None;
    }
    let ls = lines(text.as_slice());
    let ghost all = views(ls@);
    let interface = if ls.len() > 0 {
        assert(all[0] == ls@[0]@);
        first_field(ls[0].as_slice(), ':')
    } else {
        chars_of("wg0")
    };
    let needle = chars_of("endpoint");
    let mut k: usize = 0;
    assert(all.skip(0) == all);
    while k < ls.len() && !contains(ls[k].as_slice(), needle.as_slice())
        invariant
            k <= ls.len(),
            all == views(ls@),
            needle@ == "endpoint"@,
            first_line_with(all, "endpoint"@) == k + first_line_with(all.skip(k as int), "endpoint"@),
        decreases ls.len() - k,
    {
        assert(all.skip(k as int)[0] == ls@[k as int]@);
        assert(all.skip(k as int).drop_first() == all.skip(k + 1));
        k += 1;
    }
    proof {
        if k < ls.len() {
            assert(all.skip(k as int)[0] == ls@[k as int]@);
        }
    }
    assert(first_line_with(all, "endpoint"@) == k);
    let endpoint = if k < ls.len() {
        let fields = split(ls[k].as_slice(), ':');
        assert(views(fields@).len() == fields@.len());
        assert(all[k as int] == ls@[k as int]@);
        if fields.len() > 1 {
            assert(views(fields@)[1] == fields@[1]@);
            copy(fields[1].as_slice())
        } else {
            chars_of("unknown")
        }
    } else {
        chars_of("unknown")
    };
    Some(
        (
            string_of(trim(interface.as_slice()).as_slice()),
            string_of(trim(endpoint.as_slice()).as_slice()),
        ),
    )
}

/// Position of the first line that, without the white space around it,
/// begins with `inet `; the number of lines where none does.
pub open spec fn first_inet_line(lines: Seq<Seq<char>>) -> int
    decreases lines.len(),
{
    if lines.len() == 0 || "inet "@.is_prefix_of(trim_of(lines[0])) {
        0
    } else {
        1 + first_inet_line(lines.drop_first())
    }
}

/// The address of an interface as its listing gives it: the second word
/// of the first line that begins with `inet `, white space apart; where
/// `cut_prefix_length` is set, only up to a slash. Nothing where there is
/// no such line or it has no second word.
pub open spec fn interface_ip_of(lines: Seq<Seq<char>>, cut_prefix_length: bool) -> Option<
    Seq<char>,
> {
    let k = first_inet_line(lines);
    if 0 <= k < lines.len() && words_of(trim_of(lines[k])).len() > 1 {
        let word = words_of(trim_of(lines[k]))[1];
        if cut_prefix_length {
            Some(split_on(word, '/')[0])
        } else {
            Some(word)
        }
    } else {
        None
    }
}

/// The address of an interface, read from its listing. The listing of
/// Linux gives the address with the length of its prefix behind a slash,
/// which is cut off; that of macOS gives the address alone.
pub fn get_interface_ip(listing: &str, cut_prefix_length: bool) -> (r: Option<String>)
    ensures
        match interface_ip_of(lines_of(listing@), cut_prefix_length) {
            Some(ip) => r is Some && r->0@ == ip,
            None => r is None,
        },
{
    let ls = lines(chars_of(listing).as_slice());
    let ghost all = views(ls@);
    let inet = chars_of("inet ");
    let mut k: usize = 0;
    assert(all.skip(0) == all);
    while k < ls.len() && !starts_with(trim(ls[k].as_slice()).as_slice(), inet.as_slice())
        invariant
            k <= ls.len(),
            all == views(ls@),
            inet@ == "inet "@,
            first_inet_line(all) == k + first_inet_line(all.skip(k as int)),
        decreases ls.len() - k,
    {
        assert(all.skip(k as int)[0] == ls@[k as int]@);
        assert(all.skip(k as int).drop_first() == all.skip(k + 1));
        k += 1;
    }
    proof {
        if k < ls.len() {
            assert(all.skip(k as int)[0] == ls@[k as int]@);
        }
    }
    assert(first_inet_line(all) == k);
    if k >= ls.len() {
        return None;
    }
    assert(all[k as int] == ls@[k as int]@);
    let ws = words(trim(ls[k].as_slice()).as_slice());
    assert(views(ws@).len() == ws@.len());
    if ws.len() > 1 {
        assert(views(ws@)[1] == ws@[1]@);
        if cut_prefix_length {
            Some(string_of(first_field(ws[1].as_slice(), '/').as_slice()))
        } else {
            Some(string_of(ws[1].as_slice()))
        }
    } else {
        None
    }
}

/// What the host name tool printed, or nothing where it could not be
/// started; and likewise what the address tool of macOS printed.
pub open spec fn local_ip_of(hostname: Option<Seq<char>>, ipconfig: Option<Seq<char>>) -> Option<
    Seq<char>,
> {
    match hostname {
        Some(out) => if words_of(out).len() > 0 {
            Some(words_of(out)[0])
        } else {
            None
        },
        None => match ipconfig {
            Some(out) => if trim_of(out).len() > 0 {
                Some(trim_of(out))
            } else {
                None
            },
            None => None,
        },
    }
}

/// The address of the system outside the tunnel: the first word that the
/// host name tool printed; the address tool of macOS counts only where the
/// host name tool could not be started.
pub fn get_local_ip(hostname: Option<&str>, ipconfig: Option<&str>) -> (r: Option<String>)
    ensures
        match local_ip_of(
            match hostname {
                Some(s) => Some(s@),
                None => None,
            },
            match ipconfig {
                Some(s) => Some(s@),
                None => None,
            },
        ) {
            Some(ip) => r is Some && r->0@ == ip,
            None => r is None,
        },
{
    match hostname {
        Some(out) => {
            let ws = words(chars_of(out).as_slice());
            assert(views(ws@).len() == ws@.len());
            if ws.len() > 0 {
                assert(views(ws@)[0] == ws@[0]@);
                Some(string_of(ws[0].as_slice()))
            } else {
                None
            }
        },
        None => match ipconfig {
            Some(out) => {
                let t = trim(chars_of(out).as_slice());
                if t.len() > 0 {
                    Some(string_of(t.as_slice()))
                } else {
                    None
                }
            },
            None => None,
        },
    }
}

/// A counter that could not be read counts as zero.
pub open spec fn counter_or_zero(text: Option<Seq<char>>) -> u64 {
    match text {
        Some(t) => counter_of(t),
        None => 0,
    }
}

/// The word at position `n` of a line, read as a counter; zero where the
/// line has no such word.
pub open spec fn word_counter(line: Seq<char>, n: int) -> u64 {
    if 0 <= n < words_of(line).len() {
        counter_of(words_of(line)[n])
    } else {
        0
    }
}

/// The bytes sent and received through an interface. The two counters of
/// Linux come first; where both are zero and the traffic listing of macOS
/// has a second line of seven words at least, its tenth and seventh word
/// are the bytes sent and received.
pub open spec fn interface_stats_of(
    tx: Option<Seq<char>>,
    rx: Option<Seq<char>>,
    traffic: Option<Seq<char>>,
) -> (u64, u64) {
    let sent = counter_or_zero(tx);
    let received = counter_or_zero(rx);
    if sent == 0 && received == 0 && traffic is Some && lines_of(traffic->0).len() > 1 && words_of(
        lines_of(traffic->0)[1],
    ).len() >= 7 {
        (word_counter(lines_of(traffic->0)[1], 9), word_counter(lines_of(traffic->0)[1], 6))
    } else {
        (sent, received)
    }
}

/// Whether the traffic listing of macOS is needed: both counters of Linux
/// are zero or could not be read.
pub fn needs_traffic_listing(tx: Option<&str>, rx: Option<&str>) -> (r: bool)
    ensures
        r == (counter_or_zero(
            match tx {
                Some(s) => Some(s@),
                None => None,
            },
        ) == 0 && counter_or_zero(
            match rx {
                Some(s) => Some(s@),
                None => None,
            },
        ) == 0),
{
    let sent = match tx {
        Some(s) => parse_counter(chars_of(s).as_slice()),
        None => 0,
    };
    let received = match rx {
        Some(s) => parse_counter(chars_of(s).as_slice()),
        None => 0,
    };
    sent == 0 && received == 0
}

/// The bytes sent and received through an interface, read from the two
/// counters of Linux or, where both are zero, from the traffic listing of
/// macOS. What could not be read is `None`.
pub fn get_interface_stats(tx: Option<&str>, rx: Option<&str>, traffic: Option<&str>) -> (r: (
    u64,
    u64,
))
    ensures
        r == interface_stats_of(
            match tx {
                Some(s) => Some(s@),
                None => None,
            },
            match rx {
                Some(s) => Some(s@),
                None => None,
            },
            match traffic {
                Some(s) => Some(s@),
                None => None,
            },
        ),
{
    let sent = match tx {
        Some(s) => parse_counter(chars_of(s).as_slice()),
        None => 0,
    };
    let received = match rx {
        Some(s) => parse_counter(chars_of(s).as_slice()),
        None => 0,
    };
    if sent == 0 && received == 0 {
        match traffic {
            Some(listing) => {
                let ls = lines(chars_of(listing).as_slice());
                assert(views(ls@).len() == ls@.len());
                if ls.len() > 1 {
                    assert(views(ls@)[1] == ls@[1]@);
                    let ws = words(ls[1].as_slice());
                    assert(views(ws@).len() == ws@.len());
                    if ws.len() >= 7 {
                        assert(views(ws@)[6] == ws@[6]@);
                        let received_bytes = parse_counter(ws[6].as_slice());
                        let sent_bytes = if ws.len() > 9 {
                            assert(views(ws@)[9] == ws@[9]@);
                            parse_counter(ws[9].as_slice())
                        } else {
                            0
                        };
                        return (sent_bytes, received_bytes);
                    }
                }
            },
            None => {},
        }
    }
    (sent, received)
}

} // verus!
