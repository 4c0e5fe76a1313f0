//! Listen addresses: which address of this host to show, and what to say when a port
//! is taken. Binding sockets and asking the system is the caller's part.

use vstd::prelude::*;

use crate::bytes::same;
use crate::kron::bootstrap::{
    default_ip, default_public_ipv4, format_ipv4, four, ipv4_text, is_unspecified, parse_ipv4,
    parsed_ipv4, unspecified_ipv4,
};
use crate::text::{
    chars_of, contains_text, copy_chars, decimal, decimal_text, digit, holds_text, is_digit,
    pieces, piece_views, push_chars, push_text, split_any, trim, trimmed,
};

verus! {

/// `EADDRINUSE` on Unix.
pub const UNIX_EADDRINUSE: i32 = 98;

/// `WSAEADDRINUSE` on Windows.
pub const WINDOWS_EADDRINUSE: i32 = 10048;

/// Ports that are tried where the next free one may be taken.
pub const PORT_AUTO_TRIES: u16 = 5;

/// Whether a bind failed because the port is taken: by the kind of the error, or by
/// its system code.
pub fn is_addr_in_use(kind_in_use: bool, code: Option<i32>) -> (r: bool)
    ensures
        r == (kind_in_use || code == Some(UNIX_EADDRINUSE) || code == Some(WINDOWS_EADDRINUSE)),
{
    match code {
        Some(c) => kind_in_use || c == UNIX_EADDRINUSE || c == WINDOWS_EADDRINUSE,
        None => kind_in_use,
    }
}

/// The number to show: the system's, or the Unix one.
pub open spec fn in_use_code(code: Option<i32>) -> i32 {
    match code {
        Some(c) => c,
        None => UNIX_EADDRINUSE,
    }
}

/// A signed number in decimal.
pub open spec fn signed_text(n: int) -> Seq<char> {
    if n < 0 {
        "-"@ + decimal_text((-n) as nat)
    } else {
        decimal_text(n as nat)
    }
}

/// The port after this one, or the last port.
pub open spec fn next_port(port: u16) -> u16 {
    if port == u16::MAX {
        port
    } else {
        (port + 1) as u16
    }
}

/// What is shown when a port is taken.
pub open spec fn in_use_text(
    service: Seq<char>,
    port: u16,
    flag: Seq<char>,
    code: Option<i32>,
) -> Seq<char> {
    service + " port "@ + decimal_text(port as nat) + " already in use (error "@ + signed_text(
        in_use_code(code) as int,
    ) + ").\nStop the old process: pkill -f kron-phone\nOr use another port: "@ + flag + " "@
        + decimal_text(next_port(port) as nat)
}

fn push_signed(out: &mut String, n: i32)
    ensures
        final(out)@ == old(out)@ + signed_text(n as int),
{
    let ghost start = out@;
    if n < 0 {
        push_text(out, "-");
        let m: i64 = -(n as i64);
        push_chars(out, decimal(m as u64).as_slice());
    } else {
        push_chars(out, decimal(n as u64).as_slice());
    }
    assert(out@ =~= start + signed_text(n as int));
}

/// The hint for a port that is taken, with the system's error code where there is one.
pub fn port_already_in_use_message(
    service: &str,
    port: u16,
    flag: &str,
    code: Option<i32>,
) -> (r: String)
    ensures
        r@ == in_use_text(service@, port, flag@, code),
{
    let shown: i32 = match code {
        Some(c) => c,
        None => UNIX_EADDRINUSE,
    };
    let mut out = String::new();
    push_text(&mut out, service);
    push_text(&mut out, " port ");
    push_chars(&mut out, decimal(port as u64).as_slice());
    push_text(&mut out, " already in use (error ");
    push_signed(&mut out, shown);
    push_text(
        &mut out,
        ").\nStop the old process: pkill -f kron-phone\nOr use another port: ",
    );
    push_text(&mut out, flag);
    push_text(&mut out, " ");
    push_chars(&mut out, decimal(port.saturating_add(1) as u64).as_slice());
    assert(out@ =~= in_use_text(service@, port, flag@, code));
    out
}

/// The ports to try, in order.
pub open spec fn candidates(port: u16, n: nat) -> Seq<u16>
    decreases n,
{
    if n == 0 {
        Seq::empty()
    } else {
        let head = candidates(port, (n - 1) as nat);
        if 0 < port + n - 1 <= u16::MAX {
            head.push((port + n - 1) as u16)
        } else {
            head
        }
    }
}

/// With `auto` five ports from `port` on, else `port` alone; port zero and numbers
/// that are no port are left out.
pub fn port_auto_candidates(port: u16, auto: bool) -> (r: Vec<u16>)
    ensures
        r@ == candidates(
            port,
            if auto {
                PORT_AUTO_TRIES as nat
            } else {
                1
            },
        ),
{
    let n: u16 = if auto {
        PORT_AUTO_TRIES
    } else {
        1
    };
    let mut out: Vec<u16> = Vec::new();
    let mut i: u16 = 0;
    while i < n
        invariant
            i <= n <= 5,
            out@ == candidates(port, i as nat),
        decreases n - i,
    {
        match port.checked_add(i) {
            Some(p) => {
                if p != 0 {
                    out.push(p);
                }
            },
            None => {},
        }
        i += 1;
    }
    out
}

/// `127.0.0.0/8`.
pub open spec fn is_loopback_v4(ip: [u8; 4]) -> bool {
    ip@[0] == 127
}

/// An address that another host can use: none of the unspecified, loopback, multicast
/// and broadcast addresses.
pub open spec fn is_usable(ip: [u8; 4]) -> bool {
    &&& !is_unspecified(ip@)
    &&& !is_loopback_v4(ip)
    &&& !(224 <= ip@[0] <= 239)
    &&& !(ip@[0] == 255 && ip@[1] == 255 && ip@[2] == 255 && ip@[3] == 255)
}

/// RFC 1918.
pub open spec fn is_private(ip: [u8; 4]) -> bool {
    ||| ip@[0] == 10
    ||| ip@[0] == 172 && 16 <= ip@[1] <= 31
    ||| ip@[0] == 192 && ip@[1] == 168
}

/// `169.254.0.0/16`.
pub open spec fn is_link_local(ip: [u8; 4]) -> bool {
    ip@[0] == 169 && ip@[1] == 254
}

/// Usable LAN address: not loopback, unspecified, multicast or broadcast.
pub fn is_usable_lan_ipv4(ip: [u8; 4]) -> (r: bool)
    ensures
        r == is_usable(ip),
{
    !unspecified_ipv4(&ip) && ip[0] != 127 && !(224 <= ip[0] && ip[0] <= 239) && !(ip[0] == 255
        && ip[1] == 255 && ip[2] == 255 && ip[3] == 255)
}

fn private_ipv4(ip: &[u8; 4]) -> (r: bool)
    ensures
        r == is_private(*ip),
{
    ip[0] == 10 || (ip[0] == 172 && 16 <= ip[1] && ip[1] <= 31) || (ip[0] == 192 && ip[1] == 168)
}

/// Routable public address: usable, and neither private nor link-local.
pub fn is_public_routable_ipv4(ip: [u8; 4]) -> (r: bool)
    ensures
        r == (is_usable(ip) && !is_private(ip) && !is_link_local(ip)),
{
    is_usable_lan_ipv4(ip) && !private_ipv4(&ip) && !(ip[0] == 169 && ip[1] == 254)
}

/// The first usable address.
pub open spec fn first_usable(ips: Seq<[u8; 4]>) -> Option<[u8; 4]>
    decreases ips.len(),
{
    if ips.len() == 0 {
        None
    } else if is_usable(ips[0]) {
        Some(ips[0])
    } else {
        first_usable(ips.drop_first())
    }
}

/// The first private address, else the first one.
pub open spec fn preferred(ips: Seq<[u8; 4]>) -> Option<[u8; 4]> {
    match first_private(ips) {
        Some(ip) => Some(ip),
        None => if ips.len() > 0 {
            Some(ips[0])
        } else {
            None
        },
    }
}

pub open spec fn first_private(ips: Seq<[u8; 4]>) -> Option<[u8; 4]>
    decreases ips.len(),
{
    if ips.len() == 0 {
        None
    } else if is_private(ips[0]) {
        Some(ips[0])
    } else {
        first_private(ips.drop_first())
    }
}

/// The address shown on the LAN: the first usable source address that the routing
/// table picked, else the preferred one of the usable addresses found on the host.
pub open spec fn lan_address(routes: Seq<[u8; 4]>, found: Seq<[u8; 4]>) -> Option<[u8; 4]> {
    match first_usable(routes) {
        Some(ip) => Some(ip),
        None => preferred(with_all_usable(Seq::empty(), found)),
    }
}

/// Best-effort address of this host on the LAN, from the source addresses that the
/// routing table picks and the addresses that were found on the host.
pub fn detect_lan_ipv4(routes: &[[u8; 4]], found: &[[u8; 4]]) -> (r: Option<[u8; 4]>)
    ensures
        r == lan_address(routes@, found@),
{
    let mut i: usize = 0;
    assert(routes@.skip(0) =~= routes@);
    while i < routes.len()
        invariant
            i <= routes@.len(),
            first_usable(routes@) == first_usable(routes@.skip(i as int)),
        decreases routes@.len() - i,
    {
        if is_usable_lan_ipv4(routes[i]) {
            return Some(routes[i]);
        }
        assert(routes@.skip(i as int).drop_first() =~= routes@.skip(i + 1));
        i += 1;
    }
    let mut usable: Vec<[u8; 4]> = Vec::new();
    push_unique_usable(&mut usable, found);
    prefer_private(usable.as_slice())
}

/// The first private address, else the first one.
pub fn prefer_private(ips: &[[u8; 4]]) -> (r: Option<[u8; 4]>)
    ensures
        r == preferred(ips@),
{
    let mut i: usize = 0;
    assert(ips@.skip(0) =~= ips@);
    while i < ips.len()
        invariant
            i <= ips@.len(),
            first_private(ips@) == first_private(ips@.skip(i as int)),
        decreases ips@.len() - i,
    {
        if private_ipv4(&ips[i]) {
            return Some(ips[i]);
        }
        assert(ips@.skip(i as int).drop_first() =~= ips@.skip(i + 1));
        i += 1;
    }
    if ips.len() > 0 {
        Some(ips[0])
    } else {
        None
    }
}

/// Best-effort public address: the LAN address where it is a routable one.
pub fn detect_public_ipv4(routes: &[[u8; 4]], found: &[[u8; 4]]) -> (r: Option<[u8; 4]>)
    ensures
        r == (match lan_address(routes@, found@) {
            Some(ip) => if is_usable(ip) && !is_private(ip) && !is_link_local(ip) {
                Some(ip)
            } else {
                None
            },
            None => None,
        }),
{
    match detect_lan_ipv4(routes, found) {
        Some(ip) => if is_public_routable_ipv4(ip) {
            Some(ip)
        } else {
            None
        },
        None => None,
    }
}

/// The host that is printed: the command line's, then the detected public one, then
/// `fallback`.
pub fn advertised_public_ipv4(
    cli: Option<[u8; 4]>,
    detected: Option<[u8; 4]>,
    fallback: [u8; 4],
) -> (r: [u8; 4])
    ensures
        r == (match (cli, detected) {
            (Some(ip), _) => ip,
            (None, Some(ip)) => ip,
            (None, None) => fallback,
        }),
{
    match cli {
        Some(ip) => ip,
        None => match detected {
            Some(ip) => ip,
            None => fallback,
        },
    }
}

/// `list` with an address at its end, where it is usable and new.
pub open spec fn with_usable(list: Seq<[u8; 4]>, ip: [u8; 4]) -> Seq<[u8; 4]> {
    if is_usable(ip) && !list.contains(ip) {
        list.push(ip)
    } else {
        list
    }
}

/// `list` with each usable new address of `more`.
pub open spec fn with_all_usable(list: Seq<[u8; 4]>, more: Seq<[u8; 4]>) -> Seq<[u8; 4]>
    decreases more.len(),
{
    if more.len() == 0 {
        list
    } else {
        with_usable(with_all_usable(list, more.drop_last()), more.last())
    }
}

fn listed(list: &Vec<[u8; 4]>, ip: &[u8; 4]) -> (r: bool)
    ensures
        r == list@.contains(*ip),
{
    let mut i: usize = 0;
    while i < list.len()
        invariant
            i <= list@.len(),
            forall|j: int| 0 <= j < i ==> list@[j] != *ip,
        decreases list@.len() - i,
    {
        if same(&list[i], ip) {
            assert(list@[i as int] == *ip);
            return true;
        }
        i += 1;
    }
    false
}

fn push_usable(out: &mut Vec<[u8; 4]>, ip: [u8; 4])
    ensures
        final(out)@ == with_usable(old(out)@, ip),
{
    if is_usable_lan_ipv4(ip) && !listed(out, &ip) {
        out.push(ip);
    }
}

/// Adds the usable addresses that are not listed yet.
pub fn push_unique_usable(out: &mut Vec<[u8; 4]>, extra: &[[u8; 4]])
    ensures
        final(out)@ == with_all_usable(old(out)@, extra@),
{
    let ghost start = out@;
    let mut i: usize = 0;
    while i < extra.len()
        invariant
            i <= extra@.len(),
            out@ == with_all_usable(start, extra@.take(i as int)),
        decreases extra@.len() - i,
    {
        assert(extra@.take(i + 1).drop_last() =~= extra@.take(i as int));
        push_usable(out, extra[i]);
        i += 1;
    }
    assert(extra@.take(i as int) =~= extra@);
}

/// `s` without leading tree signs and blanks.
pub open spec fn unbranched(s: Seq<char>) -> Seq<char>
    decreases s.len(),
{
    if s.len() > 0 && (s[0] == '|' || s[0] == '+' || s[0] == '-' || s[0] == ' ') {
        unbranched(s.drop_first())
    } else {
        s
    }
}

/// The leading digits and dots.
pub open spec fn dotted_part(s: Seq<char>) -> Seq<char>
    decreases s.len(),
{
    if s.len() > 0 && (is_digit(s[0]) || s[0] == '.') {
        seq![s[0]] + dotted_part(s.drop_first())
    } else {
        Seq::empty()
    }
}

/// The address that a token begins with.
pub open spec fn token_address(token: Seq<char>) -> Option<[u8; 4]> {
    match parsed_ipv4(dotted_part(token)) {
        Some(b) => Some(four(b)),
        None => None,
    }
}

/// The address seen last and the local addresses, after the first `n` lines of a
/// routing trie.
pub open spec fn trie_walk(lines: Seq<Seq<char>>, n: nat) -> (Option<[u8; 4]>, Seq<[u8; 4]>)
    decreases n,
{
    if n == 0 {
        (None, Seq::empty())
    } else {
        let before = trie_walk(lines, (n - 1) as nat);
        let line = trimmed(lines[n - 1]);
        let last = match token_address(unbranched(line)) {
            Some(ip) => Some(ip),
            None => before.0,
        };
        let local = holds_text(line, "/32"@) && holds_text(line, "LOCAL"@);
        match last {
            Some(ip) => if local {
                (last, with_usable(before.1, ip))
            } else {
                (last, before.1)
            },
            None => (last, before.1),
        }
    }
}

/// The host addresses (`/32 … LOCAL`) that a routing trie lists.
pub open spec fn trie_addresses(text: Seq<char>) -> Seq<[u8; 4]> {
    let lines = pieces(text, seq!['\n']);
    trie_walk(lines, lines.len()).1
}

/// The usable host addresses (`/32 … LOCAL`) of Linux's `fib_trie`.
pub fn ipv4s_from_fib_trie(text: &str) -> (r: Vec<[u8; 4]>)
    ensures
        r@ == trie_addresses(text@),
{
    let lines = split_any(chars_of(text).as_slice(), &['\n']);
    let ghost view = piece_views(lines@);
    proof {
        assert(['\n']@ =~= seq!['\n']);
    }
    let mut last: Option<[u8; 4]> = None;
    let mut out: Vec<[u8; 4]> = Vec::new();
    let mut i: usize = 0;
    while i < lines.len()
        invariant
            i <= lines@.len(),
            view == piece_views(lines@),
            (last, out@) == trie_walk(view, i as nat),
        decreases lines@.len() - i,
    {
        assert(view[i as int] == lines@[i as int]@);
        let line = trim(lines[i].as_slice());
        match parse_ipv4_token(unbranch(line.as_slice()).as_slice()) {
            Some(ip) => {
                last = Some(ip);
            },
            None => {},
        }
        if contains_text(line.as_slice(), "/32") && contains_text(line.as_slice(), "LOCAL") {
            match last {
                Some(ip) => {
                    push_usable(&mut out, ip);
                },
                None => {},
            }
        }
        i += 1;
    }
    out
}

fn unbranch(s: &[char]) -> (r: Vec<char>)
    ensures
        r@ == unbranched(s@),
{
    let mut lo: usize = 0;
    assert(s@.skip(0) =~= s@);
    while lo < s.len() && (s[lo] == '|' || s[lo] == '+' || s[lo] == '-' || s[lo] == ' ')
        invariant
            lo <= s@.len(),
            unbranched(s@) == unbranched(s@.skip(lo as int)),
        decreases s@.len() - lo,
    {
        assert(s@.skip(lo as int).drop_first() =~= s@.skip(lo + 1));
        lo += 1;
    }
    let ghost t = s@.skip(lo as int);
    assert(unbranched(s@) == t) by {
        if lo < s@.len() {
            assert(t[0] == s@[lo as int]);
        }
    }
    assert(s@.subrange(lo as int, s@.len() as int) =~= t);
    copy_chars(vstd::slice::slice_subrange(s, lo, s.len()))
}

/// The address that a token begins with, where it begins with one.
pub fn parse_ipv4_token(token: &[char]) -> (r: Option<[u8; 4]>)
    ensures
        r == token_address(token@),
{
    let mut n: usize = 0;
    assert(token@.skip(0) =~= token@);
    assert(dotted_part(token@) =~= token@.take(0) + dotted_part(token@.skip(0)));
    while n < token.len() && (digit(token[n]) || token[n] == '.')
        invariant
            n <= token@.len(),
            dotted_part(token@) == token@.take(n as int) + dotted_part(token@.skip(n as int)),
        decreases token@.len() - n,
    {
        proof {
            let rest = token@.skip(n as int);
            assert(rest[0] == token@[n as int]);
            assert(rest.drop_first() =~= token@.skip(n + 1));
            assert(token@.take(n as int) + (seq![rest[0]] + dotted_part(token@.skip(n + 1)))
                =~= token@.take(n + 1) + dotted_part(token@.skip(n + 1)));
        }
        n += 1;
    }
    proof {
        let rest = token@.skip(n as int);
        if n < token@.len() {
            assert(rest[0] == token@[n as int]);
        }
        assert(token@.take(n as int) + dotted_part(rest) =~= token@.subrange(0, n as int));
    }
    parse_ipv4(vstd::slice::slice_subrange(token, 0, n))
}

pub fn format_p2p_listen_line(port: u16) -> (r: String)
    ensures
        r@ == "P2P listening 0.0.0.0:"@ + decimal_text(port as nat),
{
    let mut out = String::new();
    push_text(&mut out, "P2P listening 0.0.0.0:");
    push_chars(&mut out, decimal(port as u64).as_slice());
    assert(out@ =~= "P2P listening 0.0.0.0:"@ + decimal_text(port as nat));
    out
}

pub fn format_lan_address_line(ip: Option<[u8; 4]>, port: u16) -> (r: String)
    ensures
        r@ == (match ip {
            Some(ip) => "LAN: "@ + ipv4_text(ip@) + ":"@ + decimal_text(port as nat),
            None => "LAN: unknown (listening on all interfaces)"@,
        }),
{
    let mut out = String::new();
    match ip {
        Some(ip) => {
            push_text(&mut out, "LAN: ");
            push_text(&mut out, format_ipv4(&ip).as_str());
            push_text(&mut out, ":");
            push_chars(&mut out, decimal(port as u64).as_slice());
            assert(out@ =~= "LAN: "@ + ipv4_text(ip@) + ":"@ + decimal_text(port as nat));
        },
        None => {
            push_text(&mut out, "LAN: unknown (listening on all interfaces)");
            assert(out@ =~= "LAN: unknown (listening on all interfaces)"@);
        },
    }
    out
}

/// `http://ip:port`.
pub open spec fn url_text(ip: Seq<u8>, port: u16) -> Seq<char> {
    "http://"@ + ipv4_text(ip) + ":"@ + decimal_text(port as nat)
}

fn url(ip: &[u8; 4], port: u16) -> (r: String)
    ensures
        r@ == url_text(ip@, port),
{
    let mut out = String::new();
    push_text(&mut out, "http://");
    push_text(&mut out, format_ipv4(ip).as_str());
    push_text(&mut out, ":");
    push_chars(&mut out, decimal(port as u64).as_slice());
    assert(out@ =~= url_text(ip@, port));
    out
}

/// Explorer line for a PC on the same Wi-Fi. Never the unspecified address.
pub fn format_explorer_open_line(ip: Option<[u8; 4]>, port: u16) -> (r: String)
    ensures
        r@ == (if ip is Some && !is_unspecified(ip.unwrap()@) {
            url_text(ip.unwrap()@, port)
        } else {
            "open explorer from PC: http://<this-phone-WiFi-IP>:"@ + decimal_text(port as nat)
        }),
{
    if let Some(ip) = ip {
        if !unspecified_ipv4(&ip) {
            return url(&ip, port);
        }
    }
    let mut out = String::new();
    push_text(&mut out, "open explorer from PC: http://<this-phone-WiFi-IP>:");
    push_chars(&mut out, decimal(port as u64).as_slice());
    assert(out@ =~= "open explorer from PC: http://<this-phone-WiFi-IP>:"@ + decimal_text(
        port as nat,
    ));
    out
}

/// Browser URL of a public hub. The default hub stands in for the unspecified address.
pub fn format_public_explorer_url(ip: [u8; 4], port: u16) -> (r: String)
    ensures
        r@ == url_text(
            if is_unspecified(ip@) {
                default_ip()@
            } else {
                ip@
            },
            port,
        ),
{
    if unspecified_ipv4(&ip) {
        url(&default_public_ipv4(), port)
    } else {
        url(&ip, port)
    }
}

/// An address that is shown for the LAN is usable: never the loopback or the
/// unspecified address.
pub proof fn law_lan_address_is_usable(routes: Seq<[u8; 4]>, found: Seq<[u8; 4]>)
    ensures
        lan_address(routes, found) matches Some(ip) ==> is_usable(ip),
    decreases routes.len(),
{
    if routes.len() > 0 {
        if !is_usable(routes[0]) {
            law_lan_address_is_usable(routes.drop_first(), found);
        }
    } else {
        let all = with_all_usable(Seq::empty(), found);
        lemma_all_usable(Seq::empty(), found);
        lemma_first_private(all);
    }
}

/// What is listed stays usable.
proof fn lemma_all_usable(out: Seq<[u8; 4]>, extra: Seq<[u8; 4]>)
    requires
        forall|i: int| 0 <= i < out.len() ==> is_usable(#[trigger] out[i]),
    ensures
        forall|i: int|
            0 <= i < with_all_usable(out, extra).len() ==> is_usable(
                #[trigger] with_all_usable(out, extra)[i],
            ),
    decreases extra.len(),
{
    if extra.len() > 0 {
        lemma_all_usable(out, extra.drop_last());
        let before = with_all_usable(out, extra.drop_last());
        let all = with_all_usable(out, extra);
        assert(all == with_usable(before, extra.last()));
        assert forall|i: int| 0 <= i < all.len() implies is_usable(#[trigger] all[i]) by {
            if i < before.len() {
                assert(all[i] == before[i]);
            }
        }
    }
}

proof fn lemma_first_private(ips: Seq<[u8; 4]>)
    ensures
        first_private(ips) matches Some(ip) ==> ips.contains(ip),
    decreases ips.len(),
{
    if ips.len() > 0 {
        if is_private(ips[0]) {
            assert(ips.contains(ips[0]));
        } else {
            let t = ips.drop_first();
            lemma_first_private(t);
            if let Some(ip) = first_private(t) {
                let k = choose|k: int| 0 <= k < t.len() && t[k] == ip;
                assert(ips[k + 1] == ip);
            }
        }
    }
}

/// What a routing trie lists is usable.
pub proof fn law_trie_addresses_are_usable(text: Seq<char>, i: int)
    requires
        0 <= i < trie_addresses(text).len(),
    ensures
        is_usable(trie_addresses(text)[i]),
{
    let lines = pieces(text, seq!['\n']);
    lemma_trie_usable(lines, lines.len(), i);
}

proof fn lemma_trie_usable(lines: Seq<Seq<char>>, n: nat, i: int)
    requires
        0 <= i < trie_walk(lines, n).1.len(),
    ensures
        is_usable(trie_walk(lines, n).1[i]),
    decreases n,
{
    if n > 0 {
        let before = trie_walk(lines, (n - 1) as nat).1;
        if i < before.len() {
            lemma_trie_usable(lines, (n - 1) as nat, i);
        }
    }
}

/// The ports that are tried are the one that was asked for and those that follow it.
pub proof fn law_ports_follow_each_other(port: u16, n: nat)
    requires
        port > 0,
        port + n <= 65_536,
    ensures
        candidates(port, n).len() == n,
        forall|i: int| 0 <= i < n ==> #[trigger] candidates(port, n)[i] == port + i,
    decreases n,
{
    if n > 0 {
        law_ports_follow_each_other(port, (n - 1) as nat);
        let head = candidates(port, (n - 1) as nat);
        assert forall|i: int| 0 <= i < n implies #[trigger] candidates(port, n)[i] == port + i by {
            if i < n - 1 {
                assert(head[i] == port + i);
            }
        }
    }
}

/// Which addresses another host can use: none of the unspecified, the loopback, the multicast
/// and the broadcast ones. The private ones are 10/8, 172.16/12 and 192.168/16.
pub proof fn law_kinds_of_addresses(ip: [u8; 4])
    ensures
        is_usable(ip) <==> !(ip@ =~= seq![0u8, 0, 0, 0]) && ip@[0] != 127 && !(224 <= ip@[0] <= 239)
            && !(ip@ =~= seq![255u8, 255, 255, 255]),
        is_private(ip) <==> ip@[0] == 10 || ip@[0] == 172 && 16 <= ip@[1] < 32 || ip@[0] == 192
            && ip@[1] == 168,
        is_link_local(ip) <==> ip@[0] == 169 && ip@[1] == 254,
{
    if is_unspecified(ip@) {
        assert(ip@[0] == 0 && ip@[1] == 0 && ip@[2] == 0 && ip@[3] == 0);
    }
}

/// Of several addresses the first private one is taken, and else the first.
pub proof fn law_private_address_is_preferred(ips: Seq<[u8; 4]>, i: int)
    requires
        0 <= i < ips.len(),
        forall|j: int| 0 <= j < i ==> !is_private(#[trigger] ips[j]),
    ensures
        is_private(ips[i]) ==> preferred(ips) == Some(ips[i]),
        i == ips.len() - 1 && !is_private(ips[i]) ==> preferred(ips) == Some(ips[0]),
    decreases i,
{
    lemma_first_private_at(ips, i);
}

proof fn lemma_first_private_at(ips: Seq<[u8; 4]>, i: int)
    requires
        0 <= i < ips.len(),
        forall|j: int| 0 <= j < i ==> !is_private(#[trigger] ips[j]),
    ensures
        is_private(ips[i]) ==> first_private(ips) == Some(ips[i]),
        i == ips.len() - 1 && !is_private(ips[i]) ==> first_private(ips) is None,
    decreases i,
{
    let t = ips.drop_first();
    reveal_with_fuel(first_private, 2);
    if i > 0 {
        assert(!is_private(ips[0]));
        assert forall|j: int| 0 <= j < i - 1 implies !is_private(#[trigger] t[j]) by {
            assert(t[j] == ips[j + 1]);
        }
        lemma_first_private_at(t, i - 1);
        assert(t[i - 1] == ips[i]);
    } else if ips.len() == 1 {
        assert(t.len() == 0);
    }
}

/// In a routing trie a line that marks a local host names the address that was seen last; no
/// other line names one.
pub proof fn law_local_lines_name_addresses(lines: Seq<Seq<char>>, n: nat, ip: [u8; 4])
    requires
        0 < n <= lines.len(),
    ensures
        ({
            let before = trie_walk(lines, (n - 1) as nat);
            let after = trie_walk(lines, n);
            let line = trimmed(lines[n - 1]);
            let marks = holds_text(line, "/32"@) && holds_text(line, "LOCAL"@);
            &&& !marks ==> after.1 == before.1
            &&& marks && after.0 == Some(ip) && is_usable(ip) ==> after.1.contains(ip)
            &&& after.1.contains(ip) ==> before.1.contains(ip) || (marks && after.0 == Some(ip)
                && is_usable(ip))
            &&& token_address(unbranched(line)) is None ==> after.0 == before.0
            &&& token_address(unbranched(line)) matches Some(a) ==> after.0 == Some(a)
        }),
{
    let before = trie_walk(lines, (n - 1) as nat);
    let after = trie_walk(lines, n);
    let line = trimmed(lines[n - 1]);
    let marks = holds_text(line, "/32"@) && holds_text(line, "LOCAL"@);
    if marks && after.0 is Some {
        let last = after.0->0;
        assert(after.1 == with_usable(before.1, last));
        let grown = before.1.push(last);
        assert(grown[before.1.len() as int] == last);
        if grown.contains(ip) && ip != last {
            let k = choose|k: int| 0 <= k < grown.len() && grown[k] == ip;
            assert(before.1[k] == ip);
        }
    } else {
        assert(after.1 == before.1);
    }
}

} // verus!
