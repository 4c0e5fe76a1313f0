//! Internet bootstrap peers.
//!
//! Priority: command line, then environment, then `bootstrap.txt`, then the
//! default hub. Each source may list several `host:port` entries. Reading the
//! sources and resolving host names is the caller's part.

use vstd::prelude::*;

use crate::bytes::same;
use crate::p2p::peer::{is_localhost6, is_loopback, PeerAddr};
use crate::text::{all_digits, chars_of, contains_text, decimal, decimal_text, decimal_value, digit,
    holds_text, owned, parse_number, piece_views, pieces, push_chars, push_text, same_text,
    split_any, text_of, trim, trimmed, uppercase, uppered};

verus! {

/// Public gossip relay and explorer. Never mines.
pub const DEFAULT_BOOTSTRAP: &'static str = "144.91.105.244:8000";

/// Public explorer on the same host.
pub const DEFAULT_EXPLORER_URL: &'static str = "http://144.91.105.244:8080";

/// Environment variable with bootstrap peers, separated by commas or newlines.
pub const KRON_BOOTSTRAP_ENV: &'static str = "KRON_BOOTSTRAP";

/// File looked up in the data directory, then in the current one.
pub const BOOTSTRAP_FILE_NAME: &'static str = "bootstrap.txt";

/// A peer as it was written: an IPv4 socket address, or a text that the system's
/// resolver has to look up.
#[derive(Debug, PartialEq, Eq)]
pub enum PeerTarget {
    V4 { ip: [u8; 4], port: u16 },
    Host(String),
}

/// A peer as mathematical data.
#[verifier::ext_equal]
pub enum TargetView {
    V4 { ip: [u8; 4], port: u16 },
    Host(Seq<char>),
}

impl View for PeerTarget {
    type V = TargetView;

    open spec fn view(&self) -> TargetView {
        match self {
            PeerTarget::V4 { ip, port } => TargetView::V4 { ip: *ip, port: *port },
            PeerTarget::Host(h) => TargetView::Host(h@),
        }
    }
}

impl Clone for PeerTarget {
    fn clone(&self) -> (r: Self)
        ensures
            r@ == self@,
    {
        match self {
            PeerTarget::V4 { ip, port } => PeerTarget::V4 { ip: *ip, port: *port },
            PeerTarget::Host(h) => PeerTarget::Host(owned(h.as_str())),
        }
    }
}

/// Dotted decimal text of an IPv4 address.
pub open spec fn ipv4_text(ip: Seq<u8>) -> Seq<char> {
    decimal_text(ip[0] as nat) + "."@ + decimal_text(ip[1] as nat) + "."@ + decimal_text(
        ip[2] as nat,
    ) + "."@ + decimal_text(ip[3] as nat)
}

pub fn format_ipv4(ip: &[u8; 4]) -> (r: String)
    ensures
        r@ == ipv4_text(ip@),
{
    let mut out = String::new();
    push_chars(&mut out, decimal(ip[0] as u64).as_slice());
    push_text(&mut out, ".");
    push_chars(&mut out, decimal(ip[1] as u64).as_slice());
    push_text(&mut out, ".");
    push_chars(&mut out, decimal(ip[2] as u64).as_slice());
    push_text(&mut out, ".");
    push_chars(&mut out, decimal(ip[3] as u64).as_slice());
    assert(out@ =~= ipv4_text(ip@));
    out
}

impl TargetView {
    pub open spec fn text(self) -> Seq<char> {
        match self {
            TargetView::V4 { ip, port } => ipv4_text(ip@) + ":"@ + decimal_text(port as nat),
            TargetView::Host(h) => h,
        }
    }
}

impl PeerTarget {
    /// `ip:port`, or the text to be looked up.
    pub fn text(&self) -> (r: String)
        ensures
            r@ == self@.text(),
    {
        match self {
            PeerTarget::V4 { ip, port } => {
                let mut out = format_ipv4(ip);
                push_text(&mut out, ":");
                push_chars(&mut out, decimal(*port as u64).as_slice());
                assert(out@ =~= self@.text());
                out
            },
            PeerTarget::Host(h) => owned(h.as_str()),
        }
    }

    pub fn same_as(&self, other: &PeerTarget) -> (r: bool)
        ensures
            r == (self@ == other@),
    {
        match (self, other) {
            (PeerTarget::V4 { ip: a, port: p }, PeerTarget::V4 { ip: b, port: q }) => same(a, b)
                && *p == *q,
            (PeerTarget::Host(a), PeerTarget::Host(b)) => same_text(a.as_str(), b.as_str()),
            _ => false,
        }
    }
}

/// A decimal octet: up to three digits, no leading zero, at most 255.
pub open spec fn is_octet(s: Seq<char>) -> bool {
    &&& 1 <= s.len() <= 3
    &&& all_digits(s)
    &&& s.len() > 1 ==> s[0] != '0'
    &&& decimal_value(s) <= 255
}

/// The IPv4 address that a dotted text spells.
pub open spec fn parsed_ipv4(s: Seq<char>) -> Option<Seq<u8>> {
    let p = pieces(s, seq!['.']);
    if p.len() == 4 && is_octet(p[0]) && is_octet(p[1]) && is_octet(p[2]) && is_octet(p[3]) {
        Some(
            seq![
                decimal_value(p[0]) as u8,
                decimal_value(p[1]) as u8,
                decimal_value(p[2]) as u8,
                decimal_value(p[3]) as u8,
            ],
        )
    } else {
        None
    }
}

/// The IPv4 socket address that `a.b.c.d:port` spells.
pub open spec fn parsed_socket(s: Seq<char>) -> Option<(Seq<u8>, u16)> {
    let p = pieces(s, seq![':']);
    if p.len() == 2 && p[1].len() > 0 && all_digits(p[1]) && decimal_value(p[1]) <= u16::MAX {
        match parsed_ipv4(p[0]) {
            Some(ip) => Some((ip, decimal_value(p[1]) as u16)),
            None => None,
        }
    } else {
        None
    }
}

fn digits_only(s: &[char]) -> (r: bool)
    ensures
        r == all_digits(s@),
{
    let mut i: usize = 0;
    while i < s.len()
        invariant
            i <= s@.len(),
            forall|j: int| 0 <= j < i ==> crate::text::is_digit(#[trigger] s@[j]),
        decreases s@.len() - i,
    {
        if !digit(s[i]) {
            return false;
        }
        i += 1;
    }
    true
}

fn octet(s: &[char]) -> (r: Option<u8>)
    ensures
        match r {
            Some(n) => is_octet(s@) && decimal_value(s@) == n,
            None => !is_octet(s@),
        },
{
    if s.len() == 0 || s.len() > 3 || !digits_only(s) {
        return None;
    }
    if s.len() > 1 && s[0] == '0' {
        return None;
    }
    assert(crate::text::is_digit(s@[0]));
    match parse_number(s, 255) {
        Some(n) => Some(n as u8),
        None => None,
    }
}

/// Parses a dotted IPv4 address.
pub fn parse_ipv4(s: &[char]) -> (r: Option<[u8; 4]>)
    ensures
        match r {
            Some(ip) => parsed_ipv4(s@) == Some(ip@),
            None => parsed_ipv4(s@) is None,
        },
{
    let dot: [char; 1] = ['.'];
    assert(dot@ =~= seq!['.']);
    let p = split_any(s, dot.as_slice());
    proof {
        assert forall|i: int| 0 <= i < p@.len() implies #[trigger] pieces(s@, seq!['.'])[i]
            == p@[i]@ by {
            assert(piece_views(p@)[i] == p@[i]@);
        }
    }
    if p.len() != 4 {
        return None;
    }
    match (
        octet(p[0].as_slice()),
        octet(p[1].as_slice()),
        octet(p[2].as_slice()),
        octet(p[3].as_slice()),
    ) {
        (Some(a), Some(b), Some(c), Some(d)) => {
            let ip = [a, b, c, d];
            assert(ip@ =~= seq![a, b, c, d]);
            Some(ip)
        },
        _ => None,
    }
}

/// Parses `a.b.c.d:port`.
pub fn parse_socket(s: &[char]) -> (r: Option<([u8; 4], u16)>)
    ensures
        match r {
            Some((ip, port)) => parsed_socket(s@) == Some((ip@, port)),
            None => parsed_socket(s@) is None,
        },
{
    let colon: [char; 1] = [':'];
    assert(colon@ =~= seq![':']);
    let p = split_any(s, colon.as_slice());
    proof {
        assert forall|i: int| 0 <= i < p@.len() implies #[trigger] pieces(s@, seq![':'])[i]
            == p@[i]@ by {
            assert(piece_views(p@)[i] == p@[i]@);
        }
    }
    if p.len() != 2 {
        return None;
    }
    if p[1].len() == 0 || !digits_only(p[1].as_slice()) {
        return None;
    }
    assert(crate::text::is_digit(p@[1]@[0]));
    match (parse_ipv4(p[0].as_slice()), parse_number(p[1].as_slice(), 65_535)) {
        (Some(ip), Some(port)) => Some((ip, port as u16)),
        _ => None,
    }
}

/// A template entry that was never filled in.
pub open spec fn is_placeholder(s: Seq<char>) -> bool {
    let u = uppered(s);
    ||| holds_text(u, "YOUR_VPS"@)
    ||| holds_text(u, "YOUR_IP"@)
    ||| holds_text(u, "<VPS"@)
    ||| holds_text(u, "PLACEHOLDER"@)
    ||| holds_text(u, "PHONE1_IP"@)
    ||| holds_text(u, "PHONE_IP"@)
}

fn is_placeholder_spec(s: &[char]) -> (r: bool)
    ensures
        r == is_placeholder(s@),
{
    let u = uppercase(s);
    contains_text(u.as_slice(), "YOUR_VPS") || contains_text(u.as_slice(), "YOUR_IP")
        || contains_text(u.as_slice(), "<VPS") || contains_text(u.as_slice(), "PLACEHOLDER")
        || contains_text(u.as_slice(), "PHONE1_IP") || contains_text(u.as_slice(), "PHONE_IP")
}

/// The peer that a text names, or why it names none.
pub open spec fn parsed_peer(text: Seq<char>) -> Result<TargetView, Seq<char>> {
    let s = trimmed(text);
    if s.len() == 0 {
        Err("bootstrap address is empty"@)
    } else if is_placeholder(s) {
        Err(
            "replace the placeholder with your VPS IPv4 (got '"@ + s
                + "'). Copy bootstrap.txt.example → bootstrap.txt"@,
        )
    } else {
        match parsed_socket(s) {
            Some((ip, port)) => Ok(TargetView::V4 { ip: four(ip), port }),
            None => Ok(TargetView::Host(s)),
        }
    }
}

/// The array that holds four bytes.
pub open spec fn four(s: Seq<u8>) -> [u8; 4] {
    choose|a: [u8; 4]| a@ == s
}

pub proof fn lemma_four(a: [u8; 4])
    ensures
        four(a@) == a,
{
    let b = four(a@);
    assert(b@ == a@);
    crate::bytes::lemma_array_view_eq(b, a);
}

/// Parses `IPv4:port`; anything else that is not empty or a placeholder is left to
/// the system's resolver.
pub fn parse_peer_addr(s: &str) -> (r: Result<PeerTarget, String>)
    ensures
        match r {
            Ok(t) => parsed_peer(s@) == Ok::<TargetView, Seq<char>>(t@),
            Err(e) => parsed_peer(s@) == Err::<TargetView, Seq<char>>(e@),
        },
{
    parse_peer(chars_of(s).as_slice())
}

fn parse_peer(text: &[char]) -> (r: Result<PeerTarget, String>)
    ensures
        match r {
            Ok(t) => parsed_peer(text@) == Ok::<TargetView, Seq<char>>(t@),
            Err(e) => parsed_peer(text@) == Err::<TargetView, Seq<char>>(e@),
        },
{
    let s = trim(text);
    if s.len() == 0 {
        return Err(owned("bootstrap address is empty"));
    }
    if is_placeholder_spec(s.as_slice()) {
        let mut out = String::new();
        push_text(&mut out, "replace the placeholder with your VPS IPv4 (got '");
        push_chars(&mut out, s.as_slice());
        push_text(&mut out, "'). Copy bootstrap.txt.example → bootstrap.txt");
        assert(out@ =~= "replace the placeholder with your VPS IPv4 (got '"@ + s@
            + "'). Copy bootstrap.txt.example → bootstrap.txt"@);
        return Err(out);
    }
    match parse_socket(s.as_slice()) {
        Some((ip, port)) => {
            proof {
                lemma_four(ip);
            }
            Ok(PeerTarget::V4 { ip, port })
        },
        None => Ok(PeerTarget::Host(text_of(s.as_slice()))),
    }
}

/// What is said of a host that the resolver does not know.
pub fn unresolved_peer(s: &str) -> (r: String)
    ensures
        r@ == "invalid --bootstrap '"@ + s@ + "' (expected host:port)"@,
{
    let mut out = String::new();
    push_text(&mut out, "invalid --bootstrap '");
    push_text(&mut out, s);
    push_text(&mut out, "' (expected host:port)");
    assert(out@ =~= "invalid --bootstrap '"@ + s@ + "' (expected host:port)"@);
    out
}

/// What is said of a host that resolves to nothing.
pub fn addressless_peer(s: &str) -> (r: String)
    ensures
        r@ == "bootstrap '"@ + s@ + "' resolved to no addresses"@,
{
    let mut out = String::new();
    push_text(&mut out, "bootstrap '");
    push_text(&mut out, s);
    push_text(&mut out, "' resolved to no addresses");
    assert(out@ =~= "bootstrap '"@ + s@ + "' resolved to no addresses"@);
    out
}

/// Whether a piece of a bootstrap text is passed over.
pub open spec fn is_blank_entry(piece: Seq<char>) -> bool {
    let s = trimmed(piece);
    s.len() == 0 || s[0] == '#' || is_placeholder(s)
}

/// The peers of the first `n` pieces.
pub open spec fn entries_of(p: Seq<Seq<char>>, n: nat) -> Result<Seq<TargetView>, Seq<char>>
    decreases n,
{
    if n == 0 {
        Ok(Seq::empty())
    } else {
        match entries_of(p, (n - 1) as nat) {
            Err(e) => Err(e),
            Ok(head) => if is_blank_entry(p[n - 1]) {
                Ok(head)
            } else {
                match parsed_peer(trimmed(p[n - 1])) {
                    Err(e) => Err(e),
                    Ok(t) => Ok(head.push(t)),
                }
            },
        }
    }
}

/// The separators of a bootstrap text.
pub open spec fn entry_separators() -> Seq<char> {
    seq!['\n', ',', ';']
}

/// The peers that a bootstrap text lists.
pub open spec fn parsed_entries(text: Seq<char>) -> Result<Seq<TargetView>, Seq<char>> {
    let p = pieces(text, entry_separators());
    entries_of(p, p.len())
}

/// The views of a list of peers.
pub open spec fn target_views(v: Seq<PeerTarget>) -> Seq<TargetView> {
    v.map_values(|t: PeerTarget| t@)
}

/// All entries that are no comment: one per line, or separated by commas or
/// semicolons.
pub fn parse_bootstrap_text(text: &str) -> (r: Result<Vec<PeerTarget>, String>)
    ensures
        match r {
            Ok(v) => parsed_entries(text@) == Ok::<Seq<TargetView>, Seq<char>>(target_views(v@)),
            Err(e) => parsed_entries(text@) == Err::<Seq<TargetView>, Seq<char>>(e@),
        },
{
    let chars = chars_of(text);
    let seps: [char; 3] = ['\n', ',', ';'];
    assert(seps@ =~= entry_separators());
    let parts = split_any(chars.as_slice(), seps.as_slice());
    let ghost p = pieces(text@, entry_separators());
    let mut out: Vec<PeerTarget> = Vec::new();
    let mut i: usize = 0;
    assert(target_views(out@) =~= Seq::<TargetView>::empty());
    while i < parts.len()
        invariant
            i <= parts@.len(),
            p == piece_views(parts@),
            p == pieces(text@, entry_separators()),
            entries_of(p, i as nat) == Ok::<Seq<TargetView>, Seq<char>>(target_views(out@)),
        decreases parts@.len() - i,
    {
        let ghost before = out@;
        let line = trim(parts[i].as_slice());
        assert(p[i as int] == parts@[i as int]@);
        if !(line.len() == 0 || line[0] == '#' || is_placeholder_spec(line.as_slice())) {
            match parse_peer(line.as_slice()) {
                Ok(t) => {
                    out.push(t);
                    assert(target_views(out@) =~= target_views(before).push(t@));
                },
                Err(e) => {
                    proof {
                        lemma_entries_stick(p, (i + 1) as nat, p.len());
                    }
                    return Err(e);
                },
            }
        }
        i += 1;
    }
    Ok(out)
}

proof fn lemma_entries_stick(p: Seq<Seq<char>>, m: nat, n: nat)
    requires
        m <= n,
        entries_of(p, m) is Err,
    ensures
        entries_of(p, n) == entries_of(p, m),
    decreases n,
{
    if m < n {
        lemma_entries_stick(p, m, (n - 1) as nat);
    }
}

/// `list` with the peers of `more` that it does not have yet.
pub open spec fn with_peers(list: Seq<TargetView>, more: Seq<TargetView>) -> Seq<TargetView>
    decreases more.len(),
{
    if more.len() == 0 {
        list
    } else {
        let head = with_peers(list, more.drop_last());
        if head.contains(more.last()) {
            head
        } else {
            head.push(more.last())
        }
    }
}

fn has_peer(list: &Vec<PeerTarget>, t: &PeerTarget) -> (r: bool)
    ensures
        r == target_views(list@).contains(t@),
{
    let mut i: usize = 0;
    while i < list.len()
        invariant
            i <= list@.len(),
            forall|j: int| 0 <= j < i ==> (#[trigger] list@[j])@ != t@,
        decreases list@.len() - i,
    {
        if list[i].same_as(t) {
            assert(target_views(list@)[i as int] == t@);
            return true;
        }
        i += 1;
    }
    assert forall|j: int| 0 <= j < list@.len() implies target_views(list@)[j] != t@ by {
        assert(list@[j]@ != t@);
    }
    false
}

fn push_unique(out: &mut Vec<PeerTarget>, more: &Vec<PeerTarget>)
    ensures
        target_views(final(out)@) == with_peers(target_views(old(out)@), target_views(more@)),
{
    let ghost start = target_views(out@);
    let ghost m = target_views(more@);
    let mut i: usize = 0;
    assert(m.take(0) =~= Seq::<TargetView>::empty());
    while i < more.len()
        invariant
            i <= more@.len(),
            m == target_views(more@),
            target_views(out@) == with_peers(start, m.take(i as int)),
        decreases more@.len() - i,
    {
        let ghost before = out@;
        proof {
            assert(m.take(i + 1).drop_last() =~= m.take(i as int));
            assert(m[i as int] == more@[i as int]@);
        }
        if !has_peer(out, &more[i]) {
            let t = more[i].clone();
            out.push(t);
            assert(target_views(out@) =~= target_views(before).push(t@));
        }
        i += 1;
    }
    assert(m.take(i as int) =~= m);
}

/// The default hub.
pub open spec fn default_target() -> TargetView {
    TargetView::V4 { ip: default_ip(), port: 8000 }
}

pub open spec fn default_ip() -> [u8; 4] {
    four(seq![144u8, 91, 105, 244])
}

/// The peers that a source lists, nothing where there is no source.
pub open spec fn source_peers(text: Option<Seq<char>>) -> Result<Seq<TargetView>, Seq<char>> {
    match text {
        Some(t) => parsed_entries(t),
        None => Ok(Seq::empty()),
    }
}

/// The peers of all sources in their order, each once.
pub open spec fn resolved_sources(
    cli: Option<TargetView>,
    env: Option<Seq<char>>,
    file: Option<Seq<char>>,
    use_default: bool,
) -> Result<Seq<TargetView>, Seq<char>> {
    let first: Seq<TargetView> = match cli {
        Some(t) => seq![t],
        None => Seq::empty(),
    };
    match source_peers(env) {
        Err(e) => Err(e),
        Ok(a) => match source_peers(file) {
            Err(e) => Err(e),
            Ok(b) => {
                let all = with_peers(with_peers(first, a), b);
                if all.len() == 0 && use_default {
                    Ok(seq![default_target()])
                } else {
                    Ok(all)
                }
            },
        },
    }
}

/// The text of an optional source.
pub open spec fn text_view(t: Option<&str>) -> Option<Seq<char>> {
    match t {
        Some(s) => Some(s@),
        None => None,
    }
}

/// The command line wins, then the environment, then the file. Where all are
/// empty the default hub stands in, if asked for.
pub fn resolve_bootstrap_sources(
    cli: Option<PeerTarget>,
    env_text: Option<&str>,
    file_text: Option<&str>,
    use_default: bool,
) -> (r: Result<Vec<PeerTarget>, String>)
    ensures
        ({
            let c = match cli {
                Some(t) => Some(t@),
                None => None,
            };
            match r {
                Ok(v) => resolved_sources(c, text_view(env_text), text_view(file_text), use_default)
                    == Ok::<Seq<TargetView>, Seq<char>>(target_views(v@)),
                Err(e) => resolved_sources(
                    c,
                    text_view(env_text),
                    text_view(file_text),
                    use_default,
                ) == Err::<Seq<TargetView>, Seq<char>>(e@),
            }
        }),
{
    let mut out: Vec<PeerTarget> = Vec::new();
    if let Some(t) = cli {
        out.push(t);
        assert(target_views(out@) =~= seq![t@]);
    } else {
        assert(target_views(out@) =~= Seq::<TargetView>::empty());
    }
    if let Some(raw) = env_text {
        match parse_bootstrap_text(raw) {
            Ok(v) => push_unique(&mut out, &v),
            Err(e) => {
                return Err(e);
            },
        }
    }
    if let Some(raw) = file_text {
        match parse_bootstrap_text(raw) {
            Ok(v) => push_unique(&mut out, &v),
            Err(e) => {
                return Err(e);
            },
        }
    }
    if out.len() == 0 && use_default {
        let d = default_bootstrap_addr();
        out.push(d);
        assert(target_views(out@) =~= seq![d@]);
    }
    Ok(out)
}

/// Whether the phone asks its text sources at all: a peer on the command line is
/// joined by them, and without one `--no-bootstrap` stays on the local network.
pub open spec fn asks_sources(has_cli: bool, no_bootstrap: bool) -> bool {
    has_cli || !no_bootstrap
}

/// Phone miner: a peer on the command line wins; `--no-bootstrap` stays on the
/// local network; otherwise environment, file, default hub.
pub fn resolve_phone_bootstrap(
    cli: Option<PeerTarget>,
    no_bootstrap: bool,
    env_text: Option<&str>,
    file_text: Option<&str>,
) -> (r: Result<Vec<PeerTarget>, String>)
    ensures
        ({
            let c = match cli {
                Some(t) => Some(t@),
                None => None,
            };
            let wanted = if asks_sources(c is Some, no_bootstrap) {
                resolved_sources(c, text_view(env_text), text_view(file_text), true)
            } else {
                Ok(Seq::empty())
            };
            match r {
                Ok(v) => wanted == Ok::<Seq<TargetView>, Seq<char>>(target_views(v@)),
                Err(e) => wanted == Err::<Seq<TargetView>, Seq<char>>(e@),
            }
        }),
{
    if cli.is_none() && no_bootstrap {
        let out: Vec<PeerTarget> = Vec::new();
        assert(target_views(out@) =~= Seq::<TargetView>::empty());
        return Ok(out);
    }
    resolve_bootstrap_sources(cli, env_text, file_text, true)
}

pub fn default_bootstrap_addr() -> (r: PeerTarget)
    ensures
        r@ == default_target(),
{
    PeerTarget::V4 { ip: default_public_ipv4(), port: 8000 }
}

/// The default hub's address, used where a hub cannot tell its own.
pub fn default_public_ipv4() -> (r: [u8; 4])
    ensures
        r == default_ip(),
        r@ == seq![144u8, 91, 105, 244],
{
    let ip = [144u8, 91, 105, 244];
    proof {
        assert(ip@ =~= seq![144u8, 91, 105, 244]);
        lemma_four(ip);
    }
    ip
}

/// Whether all bytes are zero.
pub open spec fn is_unspecified(ip: Seq<u8>) -> bool {
    forall|i: int| 0 <= i < ip.len() ==> ip[i] == 0
}

fn all_zero(ip: &[u8]) -> (r: bool)
    ensures
        r == is_unspecified(ip@),
{
    let mut i: usize = 0;
    while i < ip.len()
        invariant
            i <= ip@.len(),
            forall|j: int| 0 <= j < i ==> ip@[j] == 0,
        decreases ip@.len() - i,
    {
        if ip[i] != 0 {
            return false;
        }
        i += 1;
    }
    true
}

pub fn unspecified_ipv4(ip: &[u8; 4]) -> (r: bool)
    ensures
        r == is_unspecified(ip@),
{
    all_zero(ip.as_slice())
}

/// Whether `peer` is this process: its own port on a local, advertised, or LAN
/// address.
pub open spec fn is_self(
    peer: PeerAddr,
    listen_port: u16,
    advertised: Option<[u8; 4]>,
    lan: Option<[u8; 4]>,
) -> bool {
    peer.port_number() == listen_port && match peer {
        PeerAddr::V4 { ip, .. } => is_unspecified(ip@) || peer.loopback() || advertised == Some(ip)
            || lan == Some(ip),
        PeerAddr::V6 { ip6, .. } => is_localhost6(ip6@) || is_unspecified(ip6@),
    }
}

fn matches_ip(known: &Option<[u8; 4]>, ip: &[u8; 4]) -> (r: bool)
    ensures
        r == (*known == Some(*ip)),
{
    match known {
        Some(k) => same(k, ip),
        None => false,
    }
}

/// A hub must not dial itself.
pub fn is_self_hub_target(
    peer: PeerAddr,
    listen_port: u16,
    advertised: Option<[u8; 4]>,
    lan: Option<[u8; 4]>,
) -> (r: bool)
    ensures
        r == is_self(peer, listen_port, advertised, lan),
{
    if peer.port() != listen_port {
        return false;
    }
    match peer {
        PeerAddr::V4 { ip, .. } => all_zero(ip.as_slice()) || is_loopback(peer) || matches_ip(
            &advertised,
            &ip,
        ) || matches_ip(&lan, &ip),
        PeerAddr::V6 { ip6, .. } => is_loopback(peer) || all_zero(ip6.as_slice()),
    }
}

proof fn lemma_with_peers(list: Seq<TargetView>, more: Seq<TargetView>)
    requires
        list.no_duplicates(),
    ensures
        with_peers(list, more).no_duplicates(),
        list.len() <= with_peers(list, more).len(),
        with_peers(list, more).take(list.len() as int) == list,
    decreases more.len(),
{
    if more.len() > 0 {
        lemma_with_peers(list, more.drop_last());
        let head = with_peers(list, more.drop_last());
        assert(head.push(more.last()).take(list.len() as int) =~= head.take(list.len() as int));
    } else {
        assert(list.take(list.len() as int) =~= list);
    }
}

/// The peer of the command line comes first, and no peer is listed twice.
pub proof fn law_command_line_wins(
    cli: Option<TargetView>,
    env: Option<Seq<char>>,
    file: Option<Seq<char>>,
    use_default: bool,
    peers: Seq<TargetView>,
)
    requires
        resolved_sources(cli, env, file, use_default) == Ok::<Seq<TargetView>, Seq<char>>(peers),
    ensures
        peers.no_duplicates(),
        cli matches Some(t) ==> peers.len() > 0 && peers[0] == t,
        use_default ==> peers.len() > 0,
{
    let first: Seq<TargetView> = match cli {
        Some(t) => seq![t],
        None => Seq::empty(),
    };
    let a = source_peers(env)->Ok_0;
    let b = source_peers(file)->Ok_0;
    lemma_with_peers(first, a);
    let mid = with_peers(first, a);
    lemma_with_peers(mid, b);
    let all = with_peers(mid, b);
    if cli is Some {
        assert(mid.take(1)[0] == first[0]);
        assert(all.take(mid.len() as int)[0] == mid[0]);
    }
}

} // verus!
