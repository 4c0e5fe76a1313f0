//! Command-line forms shared by the binaries: `--flag value`, `--flag=value`,
//! quoted values, and a positional `kron1…` reward address.

use vstd::prelude::*;
use vstd::utf8::encode_utf8;

use crate::dag::tx::{array_of, lemma_array_of};
use crate::kron::bech32::{decoded, normalize_bech32_input, without_fillers, KRON1_LEN};
use crate::kron::bootstrap::{four, is_unspecified, parse_ipv4, parse_peer_addr, parsed_ipv4,
    parsed_peer, unspecified_ipv4, PeerTarget, TargetView};
use crate::kron::wallet::KronAddress;
use crate::p2p::peer::PeerAddr;
use crate::text::{begins_with, chars_of, copy_chars, is_white, lemma_trimmed_len, lowercase,
    lowered, owned, parse_number, parsed_number, push_chars, push_text, same_chars, same_text,
    starts_with, text_of, text_views, trim, trimmed, white};
use crate::types::Address;

verus! {

pub const PHONE_FLAGS: [&'static str; 19] = [
    "--mine",
    "--reward-address",
    "--miner-address",
    "--hub",
    "--node-only",
    "--generate-wallet",
    "--show-mnemonic",
    "--phone",
    "--port",
    "--port-auto",
    "--explorer-port",
    "--data-dir",
    "--bootstrap",
    "--node",
    "--no-discovery",
    "--no-bootstrap",
    "--no-mine",
    "--help",
    "-h",
];

pub const NODE_FLAGS: [&'static str; 15] = [
    "--port",
    "--follow",
    "--bootstrap",
    "--node",
    "--data-dir",
    "--name",
    "--explorer-port",
    "--hub",
    "--public-ip",
    "--read-only",
    "--no-mine",
    "--no-discovery",
    "--print-identity",
    "--help",
    "-h",
];

pub const PHONE_MINER_FLAGS: [&'static str; 9] = [
    "--phone",
    "--node",
    "--bootstrap",
    "--reward-address",
    "--miner-address",
    "--mine",
    "--data-dir",
    "--help",
    "-h",
];

pub const CREDIT_FLAGS: [&'static str; 4] = ["--to", "--amount", "--data-dir", "--port"];

pub const NODE_MINE_REFUSAL: &'static str = "mining is phone-only. On Termux run kron-phone --mine --reward-address kron1... (also --miner-address or positional kron1...). This PC is a read-only explorer.";

/// Builds the phone binary from the repository root.
pub const TERMUX_BUILD_CMD: &'static str = "cargo build --release -p new-blockchain";

/// Parsed `kron-phone` flags.
#[derive(Debug)]
pub struct PhoneCli {
    pub generate: bool,
    pub mine: bool,
    /// Menu option 2 with no address yet: prompt for one.
    pub prompt_mine: bool,
    pub hub_only: bool,
    pub show_mnemonic: bool,
    pub reward: Option<KronAddress>,
    pub port: u16,
    /// Try the port and the next four if it is busy.
    pub port_auto: bool,
    pub explorer_port: Option<u16>,
    pub data_dir: String,
    pub bootstrap: Option<PeerTarget>,
    pub phone: bool,
    /// No LAN beacons.
    pub no_discovery: bool,
    /// Stay on the local network.
    pub no_bootstrap: bool,
}

/// The flags as mathematical data.
#[verifier::ext_equal]
pub struct PhoneView {
    pub generate: bool,
    pub mine: bool,
    pub prompt_mine: bool,
    pub hub_only: bool,
    pub show_mnemonic: bool,
    pub reward: Option<Address>,
    pub port: u16,
    pub port_auto: bool,
    pub explorer_port: Option<u16>,
    pub data_dir: Seq<char>,
    pub bootstrap: Option<TargetView>,
    pub phone: bool,
    pub no_discovery: bool,
    pub no_bootstrap: bool,
}

pub open spec fn reward_view(r: Option<KronAddress>) -> Option<Address> {
    match r {
        Some(a) => Some(a@),
        None => None,
    }
}

pub open spec fn target_view(t: Option<PeerTarget>) -> Option<TargetView> {
    match t {
        Some(p) => Some(p@),
        None => None,
    }
}

pub open spec fn string_view(s: Option<String>) -> Option<Seq<char>> {
    match s {
        Some(t) => Some(t@),
        None => None,
    }
}

impl View for PhoneCli {
    type V = PhoneView;

    open spec fn view(&self) -> PhoneView {
        PhoneView {
            generate: self.generate,
            mine: self.mine,
            prompt_mine: self.prompt_mine,
            hub_only: self.hub_only,
            show_mnemonic: self.show_mnemonic,
            reward: reward_view(self.reward),
            port: self.port,
            port_auto: self.port_auto,
            explorer_port: self.explorer_port,
            data_dir: self.data_dir@,
            bootstrap: target_view(self.bootstrap),
            phone: self.phone,
            no_discovery: self.no_discovery,
            no_bootstrap: self.no_bootstrap,
        }
    }
}

/// How `kron-node` runs after flags and host are known.
#[derive(Clone, Copy, Debug, PartialEq, Eq, Structural)]
pub enum NodeRunMode {
    /// Gossip relay and explorer. Never mines.
    PublicHub,
    /// Home-PC pull client.
    Viewer,
    /// ARM full hub.
    PhoneHub,
}

/// The public address of a hub: written out, or a text to be looked up.
#[derive(Debug, PartialEq, Eq)]
pub enum PublicIp {
    V4([u8; 4]),
    Host(String),
}

/// The address as mathematical data.
#[verifier::ext_equal]
pub enum PublicIpView {
    V4([u8; 4]),
    Host(Seq<char>),
}

impl View for PublicIp {
    type V = PublicIpView;

    open spec fn view(&self) -> PublicIpView {
        match self {
            PublicIp::V4(ip) => PublicIpView::V4(*ip),
            PublicIp::Host(h) => PublicIpView::Host(h@),
        }
    }
}

/// Parsed `kron-node` flags. A hub never mines.
#[derive(Debug)]
pub struct NodeCli {
    pub port: u16,
    pub explorer_port: u16,
    pub data_dir: Option<String>,
    pub follow: Option<PeerTarget>,
    pub name: Option<String>,
    pub print_identity: bool,
    pub read_only: bool,
    pub public_hub: bool,
    pub no_discovery: bool,
    pub public_ip: Option<PublicIp>,
}

/// The flags as mathematical data.
#[verifier::ext_equal]
pub struct NodeView {
    pub port: u16,
    pub explorer_port: u16,
    pub data_dir: Option<Seq<char>>,
    pub follow: Option<TargetView>,
    pub name: Option<Seq<char>>,
    pub print_identity: bool,
    pub read_only: bool,
    pub public_hub: bool,
    pub no_discovery: bool,
    pub public_ip: Option<PublicIpView>,
}

pub open spec fn public_ip_view(p: Option<PublicIp>) -> Option<PublicIpView> {
    match p {
        Some(i) => Some(i@),
        None => None,
    }
}

impl View for NodeCli {
    type V = NodeView;

    open spec fn view(&self) -> NodeView {
        NodeView {
            port: self.port,
            explorer_port: self.explorer_port,
            data_dir: string_view(self.data_dir),
            follow: target_view(self.follow),
            name: string_view(self.name),
            print_identity: self.print_identity,
            read_only: self.read_only,
            public_hub: self.public_hub,
            no_discovery: self.no_discovery,
            public_ip: public_ip_view(self.public_ip),
        }
    }
}

/// The mode of a node: a public hub where that is asked for, or on an x86 host that
/// neither follows nor only reads; else a viewer on x86 or where it only reads; else
/// the hub of a phone.
pub open spec fn mode_of(
    hub_flag: bool,
    read_only: bool,
    explicit_follow: bool,
    x86_host: bool,
) -> NodeRunMode {
    if hub_flag || (x86_host && !read_only && !explicit_follow) {
        NodeRunMode::PublicHub
    } else if !x86_host && !read_only {
        NodeRunMode::PhoneHub
    } else {
        NodeRunMode::Viewer
    }
}

/// An x86 host that neither follows nor is read-only is a hub, as is `--hub`;
/// another x86 or read-only host is a viewer.
pub fn decide_node_run_mode(
    hub_flag: bool,
    read_only: bool,
    explicit_follow: bool,
    x86_host: bool,
) -> (r: NodeRunMode)
    ensures
        r == mode_of(hub_flag, read_only, explicit_follow, x86_host),
{
    if hub_flag || (x86_host && !read_only && !explicit_follow) {
        NodeRunMode::PublicHub
    } else if x86_host || read_only {
        NodeRunMode::Viewer
    } else {
        NodeRunMode::PhoneHub
    }
}

/// What is said of a public address that is none.
pub open spec fn bad_public_ip(s: Seq<char>) -> Seq<char> {
    "invalid --public-ip '"@ + s + "' (expected IPv4)"@
}

/// The public address that a text names.
pub open spec fn parsed_public_ip(text: Seq<char>) -> Result<PublicIpView, Seq<char>> {
    let s = cli_value(text);
    if s.len() == 0 {
        Err("--public-ip requires an IPv4 address"@)
    } else {
        match parsed_ipv4(s) {
            Some(ip) => if is_unspecified(ip) {
                Err("--public-ip cannot be 0.0.0.0"@)
            } else {
                Ok(PublicIpView::V4(four(ip)))
            },
            None => match parsed_peer(s) {
                Ok(TargetView::V4 { ip, .. }) => if is_unspecified(ip@) {
                    Err(bad_public_ip(s))
                } else {
                    Ok(PublicIpView::V4(ip))
                },
                Ok(TargetView::Host(h)) => Ok(PublicIpView::Host(h)),
                Err(_) => Err(bad_public_ip(s)),
            },
        }
    }
}

fn bad_public_ip_text(s: &[char]) -> (r: String)
    ensures
        r@ == bad_public_ip(s@),
{
    let mut out = String::new();
    push_text(&mut out, "invalid --public-ip '");
    push_chars(&mut out, s);
    push_text(&mut out, "' (expected IPv4)");
    assert(out@ =~= bad_public_ip(s@));
    out
}

/// `--public-ip` as an IPv4 address, with or without a port. A host name is left to
/// the system's resolver.
pub fn parse_public_ipv4(s: &str) -> (r: Result<PublicIp, String>)
    ensures
        match r {
            Ok(ip) => parsed_public_ip(s@) == Ok::<PublicIpView, Seq<char>>(ip@),
            Err(e) => parsed_public_ip(s@) == Err::<PublicIpView, Seq<char>>(e@),
        },
{
    let v = clean(chars_of(s).as_slice());
    if v.len() == 0 {
        return Err(owned("--public-ip requires an IPv4 address"));
    }
    if let Some(ip) = parse_ipv4(v.as_slice()) {
        if unspecified_ipv4(&ip) {
            return Err(owned("--public-ip cannot be 0.0.0.0"));
        }
        proof {
            assert(four(ip@)@ == ip@);
            crate::bytes::lemma_array_view_eq(four(ip@), ip);
        }
        return Ok(PublicIp::V4(ip));
    }
    match parse_peer_addr(text_of(v.as_slice()).as_str()) {
        Ok(PeerTarget::V4 { ip, port: _ }) => {
            if unspecified_ipv4(&ip) {
                Err(bad_public_ip_text(v.as_slice()))
            } else {
                Ok(PublicIp::V4(ip))
            }
        },
        Ok(PeerTarget::Host(h)) => Ok(PublicIp::Host(h)),
        Err(_) => Err(bad_public_ip_text(v.as_slice())),
    }
}

/// The public address of a host name, from what the resolver found for it.
pub fn public_ip_from(host: &str, found: Option<PeerAddr>) -> (r: Result<[u8; 4], String>)
    ensures
        match r {
            Ok(ip) => found matches Some(a) && a.v4() == Some(ip) && !is_unspecified(ip@),
            Err(e) => {
                &&& e@ == bad_public_ip(host@)
                &&& found matches Some(a) ==> (a.v4() matches Some(ip) ==> is_unspecified(ip@))
            },
        },
{
    match found {
        Some(PeerAddr::V4 { ip, port: _ }) => {
            if !unspecified_ipv4(&ip) {
                return Ok(ip);
            }
        },
        _ => {},
    }
    Err(bad_public_ip_text(chars_of(host).as_slice()))
}

/// The flags with blanks between them.
pub open spec fn joined_flags(flags: Seq<&'static str>) -> Seq<char>
    decreases flags.len(),
{
    if flags.len() == 0 {
        Seq::empty()
    } else if flags.len() == 1 {
        flags[0]@
    } else {
        joined_flags(flags.drop_last()) + " "@ + flags.last()@
    }
}

/// What is said of an argument that is not known.
pub open spec fn unknown_text(arg: Seq<char>, flags: Seq<&'static str>) -> Seq<char> {
    "unknown argument: "@ + arg + "\nvalid flags: "@ + joined_flags(flags)
}

/// The flags with blanks between them.
pub fn join_flags(valid_flags: &[&'static str]) -> (r: String)
    ensures
        r@ == joined_flags(valid_flags@),
{
    let mut list = String::new();
    let mut i: usize = 0;
    assert(joined_flags(valid_flags@.take(0)) =~= Seq::<char>::empty());
    while i < valid_flags.len()
        invariant
            i <= valid_flags@.len(),
            list@ == joined_flags(valid_flags@.take(i as int)),
        decreases valid_flags@.len() - i,
    {
        proof {
            assert(valid_flags@.take(i + 1).drop_last() =~= valid_flags@.take(i as int));
        }
        let ghost before = list@;
        if i > 0 {
            push_text(&mut list, " ");
        }
        push_text(&mut list, valid_flags[i]);
        proof {
            if i == 0 {
                assert(before =~= Seq::<char>::empty());
                assert(list@ =~= valid_flags@[0]@);
            } else {
                assert(list@ =~= before + " "@ + valid_flags@[i as int]@);
            }
        }
        i += 1;
    }
    assert(valid_flags@.take(i as int) =~= valid_flags@);
    list
}

pub fn unknown_argument(arg: &str, valid_flags: &[&'static str]) -> (r: String)
    ensures
        r@ == unknown_text(arg@, valid_flags@),
{
    let list = join_flags(valid_flags);
    let mut out = String::new();
    push_text(&mut out, "unknown argument: ");
    push_text(&mut out, arg);
    push_text(&mut out, "\nvalid flags: ");
    push_text(&mut out, list.as_str());
    assert(out@ =~= unknown_text(arg@, valid_flags@));
    out
}

/// Build flags that are pasted onto the binary by mistake.
pub open spec fn is_build_flag(t: Seq<char>) -> bool {
    ||| t == "--bin"@
    ||| t == "--release"@
    ||| t == "-p"@
    ||| t == "--package"@
    ||| t == "--target"@
    ||| t == "--offline"@
    ||| t == "--locked"@
    ||| t == "--workspace"@
    ||| t == "bin"@
    ||| t == "cargo"@
}

pub fn is_cargo_build_flag(token: &str) -> (r: bool)
    ensures
        r == is_build_flag(token@),
{
    same_text(token, "--bin") || same_text(token, "--release") || same_text(token, "-p")
        || same_text(token, "--package") || same_text(token, "--target") || same_text(
        token,
        "--offline",
    ) || same_text(token, "--locked") || same_text(token, "--workspace") || same_text(token, "bin")
        || same_text(token, "cargo")
}

/// What is said of a build flag.
pub open spec fn misuse_text() -> Seq<char> {
    "that is a cargo flag; run: "@ + TERMUX_BUILD_CMD@
}

pub fn cargo_flag_misuse(_arg: &str) -> (r: String)
    ensures
        r@ == misuse_text(),
{
    let mut out = String::new();
    push_text(&mut out, "that is a cargo flag; run: ");
    push_text(&mut out, TERMUX_BUILD_CMD);
    assert(out@ =~= misuse_text());
    out
}

/// Whether `a` and `b` are an opening quote and its closing one.
pub open spec fn is_quote_pair(a: char, b: char) -> bool {
    ||| a == '"' && b == '"'
    ||| a == '\'' && b == '\''
    ||| a == '\u{201c}' && b == '\u{201d}'
    ||| a == '\u{2018}' && b == '\u{2019}'
    ||| a == '`' && b == '`'
}

fn quote_pair(a: char, b: char) -> (r: bool)
    ensures
        r == is_quote_pair(a, b),
{
    (a == '"' && b == '"') || (a == '\'' && b == '\'') || (a == '\u{201c}' && b == '\u{201d}') || (a
        == '\u{2018}' && b == '\u{2019}') || (a == '`' && b == '`')
}

/// Whether `s` stands in matching quotes.
pub open spec fn is_quoted(s: Seq<char>) -> bool {
    s.len() >= 2 && is_quote_pair(s[0], s.last())
}

/// `s` out of its quotes, however many; white space around it goes too.
pub open spec fn unquoted(s: Seq<char>) -> Seq<char>
    decreases s.len(),
{
    if is_quoted(s) {
        proof {
            lemma_trimmed_len(s.subrange(1, s.len() - 1));
        }
        unquoted(trimmed(s.subrange(1, s.len() - 1)))
    } else {
        s
    }
}

/// `s` without leading byte-order marks.
pub open spec fn without_bom(s: Seq<char>) -> Seq<char>
    decreases s.len(),
{
    if s.len() > 0 && s[0] == '\u{feff}' {
        without_bom(s.drop_first())
    } else {
        s
    }
}

/// A command-line value as it was meant.
pub open spec fn cli_value(s: Seq<char>) -> Seq<char> {
    unquoted(trimmed(without_bom(trimmed(s))))
}

fn strip_bom(s: &[char]) -> (r: Vec<char>)
    ensures
        r@ == without_bom(s@),
{
    let mut lo: usize = 0;
    assert(s@.skip(0) =~= s@);
    while lo < s.len() && s[lo] == '\u{feff}'
        invariant
            lo <= s@.len(),
            without_bom(s@) == without_bom(s@.skip(lo as int)),
        decreases s@.len() - lo,
    {
        assert(s@.skip(lo as int).drop_first() =~= s@.skip(lo + 1));
        lo += 1;
    }
    proof {
        let t = s@.skip(lo as int);
        if lo < s@.len() {
            assert(t[0] == s@[lo as int]);
        }
        assert(s@.subrange(lo as int, s@.len() as int) =~= t);
    }
    copy_chars(vstd::slice::slice_subrange(s, lo, s.len()))
}

fn unquote(s: Vec<char>) -> (r: Vec<char>)
    ensures
        r@ == unquoted(s@),
{
    let mut cur = s;
    while cur.len() >= 2 && quote_pair(cur[0], cur[cur.len() - 1])
        invariant
            unquoted(cur@) == unquoted(s@),
        decreases cur@.len(),
    {
        let n: usize = cur.len();
        let inner = vstd::slice::slice_subrange(cur.as_slice(), 1, n - 1);
        proof {
            lemma_trimmed_len(cur@.subrange(1, n - 1));
        }
        cur = trim(inner);
    }
    cur
}

/// [`sanitize_cli_value`] on characters.
pub fn clean(s: &[char]) -> (r: Vec<char>)
    ensures
        r@ == cli_value(s@),
{
    let a = trim(s);
    let b = strip_bom(a.as_slice());
    unquote(trim(b.as_slice()))
}

/// Drops white space, a byte-order mark, and matching quotes.
pub fn sanitize_cli_value(s: &str) -> (r: String)
    ensures
        r@ == cli_value(s@),
{
    text_of(clean(chars_of(s).as_slice()).as_slice())
}

/// `--flag=value` cut at the first `=`; anything else is left whole.
pub open spec fn flag_parts(t: Seq<char>) -> (Seq<char>, Option<Seq<char>>) {
    if t.len() > 0 && t[0] == '-' && t.contains('=') {
        (t.take(first_eq(t, 0)), Some(t.skip(first_eq(t, 0) + 1)))
    } else {
        (t, None)
    }
}

/// The first place from `i` on with `=`.
pub open spec fn first_eq(t: Seq<char>, i: int) -> int
    decreases t.len() - i,
{
    if i < 0 || i >= t.len() || t[i] == '=' {
        i
    } else {
        first_eq(t, i + 1)
    }
}

pub(crate) fn split_flag(t: &[char]) -> (r: (Vec<char>, Option<Vec<char>>))
    ensures
        r.0@ == flag_parts(t@).0,
        match r.1 {
            Some(v) => flag_parts(t@).1 == Some(v@),
            None => flag_parts(t@).1 is None,
        },
{
    if t.len() > 0 && t[0] == '-' {
        let mut i: usize = 0;
        while i < t.len()
            invariant
                i <= t@.len(),
                t@.len() > 0,
                t@[0] == '-',
                first_eq(t@, 0) == first_eq(t@, i as int),
                forall|j: int| 0 <= j < i ==> t@[j] != '=',
            decreases t@.len() - i,
        {
            if t[i] == '=' {
                assert(t@.contains('=')) by {
                    assert(t@[i as int] == '=');
                }
                let head = vstd::slice::slice_subrange(t, 0, i);
                let tail = vstd::slice::slice_subrange(t, i + 1, t.len());
                assert(head@ =~= t@.take(i as int));
                assert(tail@ =~= t@.skip(i + 1));
                return (copy_chars(head), Some(copy_chars(tail)));
            }
            i += 1;
        }
    }
    (copy_chars(t), None)
}

/// `--flag=value` as flag and value.
pub fn split_eq_flag(token: &str) -> (r: (String, Option<String>))
    ensures
        r.0@ == flag_parts(token@).0,
        string_view(r.1) == flag_parts(token@).1,
{
    let (flag, value) = split_flag(chars_of(token).as_slice());
    match value {
        Some(v) => (text_of(flag.as_slice()), Some(text_of(v.as_slice()))),
        None => (text_of(flag.as_slice()), None),
    }
}

/// Menu option 2 in front of an address goes.
pub open spec fn without_menu_two(s: Seq<char>) -> Seq<char> {
    let t = trimmed(s);
    if t == "2"@ {
        Seq::empty()
    } else if t.len() >= 2 && t[0] == '2' && is_white(t[1]) {
        cli_value(t.skip(1))
    } else {
        t
    }
}

/// `s` without a flag name that was pasted in front of an address.
pub open spec fn without_flag_prefix(s: Seq<char>) -> Seq<char> {
    let lower = lowered(s);
    if begins_with(lower, "--reward-address="@) {
        cli_value(s.skip("--reward-address="@.len() as int))
    } else if begins_with(lower, "--miner-address="@) {
        cli_value(s.skip("--miner-address="@.len() as int))
    } else if begins_with(lower, "--reward-address"@) {
        cli_value(s.skip("--reward-address"@.len() as int))
    } else if begins_with(lower, "--miner-address"@) {
        cli_value(s.skip("--miner-address"@.len() as int))
    } else {
        s
    }
}

/// An address as it was meant.
pub open spec fn address_input(s: Seq<char>) -> Seq<char> {
    without_fillers(without_flag_prefix(without_menu_two(cli_value(s))))
}

fn strip_leading_menu_two(s: &[char]) -> (r: Vec<char>)
    ensures
        r@ == without_menu_two(s@),
{
    let t = trim(s);
    let two = chars_of("2");
    if same_chars(t.as_slice(), two.as_slice()) {
        let r: Vec<char> = Vec::new();
        assert(r@ =~= Seq::<char>::empty());
        return r;
    }
    if t.len() >= 2 && t[0] == '2' && white(t[1]) {
        let rest = vstd::slice::slice_subrange(t.as_slice(), 1, t.len());
        assert(rest@ =~= t@.skip(1));
        return clean(rest);
    }
    t
}

/// What follows `prefix` in `s`, where the lower-case form begins with it.
fn after_prefix(s: &[char], lower: &[char], prefix: &str) -> (r: Option<Vec<char>>)
    requires
        lower@ == lowered(s@),
    ensures
        match r {
            Some(v) => begins_with(lower@, prefix@) && v@ == cli_value(s@.skip(prefix@.len() as int)),
            None => !begins_with(lower@, prefix@),
        },
{
    let p = chars_of(prefix);
    if starts_with(lower, p.as_slice()) {
        let rest = vstd::slice::slice_subrange(s, p.len(), s.len());
        assert(rest@ =~= s@.skip(p@.len() as int));
        Some(clean(rest))
    } else {
        None
    }
}

fn strip_flag_prefix(s: Vec<char>) -> (r: Vec<char>)
    ensures
        r@ == without_flag_prefix(s@),
{
    let lower = lowercase(s.as_slice());
    if let Some(v) = after_prefix(s.as_slice(), lower.as_slice(), "--reward-address=") {
        return v;
    }
    if let Some(v) = after_prefix(s.as_slice(), lower.as_slice(), "--miner-address=") {
        return v;
    }
    if let Some(v) = after_prefix(s.as_slice(), lower.as_slice(), "--reward-address") {
        return v;
    }
    if let Some(v) = after_prefix(s.as_slice(), lower.as_slice(), "--miner-address") {
        return v;
    }
    s
}

/// Drops quotes, a pasted flag name, and fillers from an address.
pub fn sanitize_address_input(s: &str) -> (r: String)
    ensures
        r@ == address_input(s@),
{
    clean_address(chars_of(s).as_slice())
}

fn clean_address(s: &[char]) -> (r: String)
    ensures
        r@ == address_input(s@),
{
    let a = clean(s);
    let b = strip_leading_menu_two(a.as_slice());
    let c = strip_flag_prefix(b);
    normalize_bech32_input(text_of(c.as_slice()).as_str())
}

/// Whether a cleaned address begins with `kron1`, in any case.
pub open spec fn has_kron1_prefix(s: Seq<char>) -> bool {
    begins_with(lowered(s), "kron1"@)
}

/// Whether a text means a `kron1…` address.
pub open spec fn means_kron1(s: Seq<char>) -> bool {
    has_kron1_prefix(address_input(s))
}

pub fn looks_like_kron1(s: &str) -> (r: bool)
    ensures
        r == means_kron1(s@),
{
    means_address(chars_of(s).as_slice())
}

pub(crate) fn means_address(s: &[char]) -> (r: bool)
    ensures
        r == means_kron1(s@),
{
    let a = clean_address(s);
    let lower = lowercase(chars_of(a.as_str()).as_slice());
    starts_with(lower.as_slice(), chars_of("kron1").as_slice())
}

/// The first line of a wrapped `kron1…` paste: too short to be complete.
pub fn is_incomplete_kron1(s: &str) -> (r: bool)
    ensures
        r == (means_kron1(s@) && encode_utf8(address_input(s@)).len() < KRON1_LEN),
{
    let a = sanitize_address_input(s);
    let lower = lowercase(chars_of(a.as_str()).as_slice());
    starts_with(lower.as_slice(), chars_of("kron1").as_slice()) && a.as_str().as_bytes().len()
        < KRON1_LEN
}

/// The address that a text means, or what is said of it.
pub open spec fn parsed_address(s: Seq<char>) -> Result<Address, Seq<char>> {
    let cleaned = address_input(s);
    if cleaned.len() == 0 {
        Err("expected kron1... address"@)
    } else {
        match decoded(encode_utf8(without_fillers(cleaned))) {
            Ok(bytes) => Ok(array_of(bytes)),
            Err(e) => Err(e.cli_text(cleaned)),
        }
    }
}

pub fn parse_kron1_arg(s: &str) -> (r: Result<KronAddress, String>)
    ensures
        match r {
            Ok(a) => a.wf() && parsed_address(s@) == Ok::<Address, Seq<char>>(a@),
            Err(e) => parsed_address(s@) == Err::<Address, Seq<char>>(e@),
        },
{
    parse_address(chars_of(s).as_slice())
}

pub(crate) fn parse_address(s: &[char]) -> (r: Result<KronAddress, String>)
    ensures
        match r {
            Ok(a) => a.wf() && parsed_address(s@) == Ok::<Address, Seq<char>>(a@),
            Err(e) => parsed_address(s@) == Err::<Address, Seq<char>>(e@),
        },
{
    let cleaned = clean_address(s);
    if chars_of(cleaned.as_str()).len() == 0 {
        return Err(owned("expected kron1... address"));
    }
    match KronAddress::parse(cleaned.as_str()) {
        Ok(a) => {
            proof {
                lemma_array_of(a@);
            }
            Ok(a)
        },
        Err(e) => Err(e.cli_message(cleaned.as_str())),
    }
}

/// The address that a menu line means.
pub open spec fn parsed_menu_line(line: Seq<char>) -> Result<Address, Seq<char>> {
    if address_input(line).len() == 0 {
        Err("empty address"@)
    } else {
        parsed_address(address_input(line))
    }
}

pub fn parse_menu_reward_input(line: &str) -> (r: Result<KronAddress, String>)
    ensures
        match r {
            Ok(a) => a.wf() && parsed_menu_line(line@) == Ok::<Address, Seq<char>>(a@),
            Err(e) => parsed_menu_line(line@) == Err::<Address, Seq<char>>(e@),
        },
{
    let cleaned = sanitize_address_input(line);
    if chars_of(cleaned.as_str()).len() == 0 {
        return Err(owned("empty address"));
    }
    parse_kron1_arg(cleaned.as_str())
}

/// Whether a flag asks for mining.
pub open spec fn is_mine_flag(f: Seq<char>) -> bool {
    ||| f == "--mine"@
    ||| f == "--miner-only"@
    ||| f == "--miner-ui"@
    ||| f == "--reward-address"@
    ||| f == "--miner-address"@
}

fn mine_flag(f: &str) -> (r: bool)
    ensures
        r == is_mine_flag(f@),
{
    same_text(f, "--mine") || same_text(f, "--miner-only") || same_text(f, "--miner-ui")
        || same_text(f, "--reward-address") || same_text(f, "--miner-address")
}

/// Whether a token asks the phone to mine.
pub open spec fn is_mine_token(token: Seq<char>) -> bool {
    let t = cli_value(token);
    let (flag, value) = flag_parts(t);
    ||| is_mine_flag(flag)
    ||| means_kron1(t)
    ||| value matches Some(v) && means_kron1(v)
}

pub fn is_phone_mine_cli_token(token: &str) -> (r: bool)
    ensures
        r == is_mine_token(token@),
{
    let t = clean(chars_of(token).as_slice());
    let (flag, value) = split_flag(t.as_slice());
    if mine_flag(text_of(flag.as_slice()).as_str()) || means_address(t.as_slice()) {
        return true;
    }
    match value {
        Some(v) => means_address(v.as_slice()),
        None => false,
    }
}

/// What is said of a flag without a value.
pub open spec fn needs_value(flag: Seq<char>) -> Seq<char> {
    flag + " requires a value"@
}

/// The value of the flag at `i`, inline or the next argument, with the place that
/// the parse has come to.
pub open spec fn taken_value(
    inline: Option<Seq<char>>,
    raw: Seq<Seq<char>>,
    i: int,
    flag: Seq<char>,
) -> Result<(Seq<char>, int), Seq<char>> {
    match inline {
        Some(v) => if cli_value(v).len() == 0 {
            Err(needs_value(flag))
        } else {
            Ok((cli_value(v), i))
        },
        None => if i + 1 >= raw.len() || cli_value(raw[i + 1]).len() == 0 {
            Err(needs_value(flag))
        } else {
            Ok((cli_value(raw[i + 1]), i + 1))
        },
    }
}

fn value_missing(flag: &str) -> (r: String)
    ensures
        r@ == needs_value(flag@),
{
    let mut out = owned(flag);
    push_text(&mut out, " requires a value");
    out
}

/// Takes the value of a flag. `i` moves on where the value is the next argument.
pub fn take_cli_value(inline: Option<&str>, raw: &[String], i: &mut usize, flag: &str) -> (r: Result<
    String,
    String,
>)
    requires
        *old(i) < usize::MAX,
    ensures
        *final(i) == (if inline is Some {
            *old(i) as int
        } else {
            *old(i) + 1
        }),
        ({
            let given = match inline {
                Some(v) => Some(v@),
                None => None,
            };
            match r {
                Ok(v) => taken_value(given, text_views(raw@), *old(i) as int, flag@) == Ok::<
                    (Seq<char>, int),
                    Seq<char>,
                >((v@, *final(i) as int)),
                Err(e) => taken_value(given, text_views(raw@), *old(i) as int, flag@) == Err::<
                    (Seq<char>, int),
                    Seq<char>,
                >(e@),
            }
        }),
{
    if let Some(v) = inline {
        let v = clean(chars_of(v).as_slice());
        if v.len() == 0 {
            return Err(value_missing(flag));
        }
        return Ok(text_of(v.as_slice()));
    }
    *i += 1;
    if *i >= raw.len() {
        return Err(value_missing(flag));
    }
    assert(text_views(raw@)[*i as int] == raw@[*i as int]@);
    let v = clean(chars_of(raw[*i].as_str()).as_slice());
    if v.len() == 0 {
        return Err(value_missing(flag));
    }
    Ok(text_of(v.as_slice()))
}

/// The text of an inline value.
pub open spec fn inline_view(v: Option<Vec<char>>) -> Option<Seq<char>> {
    match v {
        Some(c) => Some(c@),
        None => None,
    }
}

pub(crate) fn take_value(inline: &Option<Vec<char>>, raw: &[String], i: &mut usize, flag: &str) -> (r: Result<
    String,
    String,
>)
    requires
        *old(i) < usize::MAX,
    ensures
        match r {
            Ok(v) => taken_value(inline_view(*inline), text_views(raw@), *old(i) as int, flag@)
                == Ok::<(Seq<char>, int), Seq<char>>((v@, *final(i) as int)),
            Err(e) => taken_value(inline_view(*inline), text_views(raw@), *old(i) as int, flag@)
                == Err::<(Seq<char>, int), Seq<char>>(e@),
        },
{
    match inline {
        Some(v) => {
            let text = text_of(v.as_slice());
            take_cli_value(Some(text.as_str()), raw, i, flag)
        },
        None => take_cli_value(None, raw, i, flag),
    }
}

/// The address that a flag takes.
pub open spec fn taken_reward(
    inline: Option<Seq<char>>,
    raw: Seq<Seq<char>>,
    i: int,
    flag: Seq<char>,
) -> Result<(Address, int), Seq<char>> {
    match taken_value(inline, raw, i, flag) {
        Err(_) => Err(flag + " requires kron1..."@),
        Ok((v, j)) => if v[0] == '-' && !means_kron1(v) {
            Err(flag + " requires kron1..."@)
        } else {
            match parsed_address(v) {
                Ok(a) => Ok((a, j)),
                Err(e) => Err(e),
            }
        },
    }
}

fn address_missing(flag: &str) -> (r: String)
    ensures
        r@ == flag@ + " requires kron1..."@,
{
    let mut out = owned(flag);
    push_text(&mut out, " requires kron1...");
    out
}

pub(crate) fn take_reward(inline: &Option<Vec<char>>, raw: &[String], i: &mut usize, flag: &str) -> (r: Result<
    KronAddress,
    String,
>)
    requires
        *old(i) < usize::MAX,
    ensures
        match r {
            Ok(a) => a.wf() && taken_reward(
                inline_view(*inline),
                text_views(raw@),
                *old(i) as int,
                flag@,
            ) == Ok::<(Address, int), Seq<char>>((a@, *final(i) as int)),
            Err(e) => taken_reward(inline_view(*inline), text_views(raw@), *old(i) as int, flag@)
                == Err::<(Address, int), Seq<char>>(e@),
        },
{
    let v = match take_value(inline, raw, i, flag) {
        Ok(v) => v,
        Err(_) => {
            return Err(address_missing(flag));
        },
    };
    let chars = chars_of(v.as_str());
    if chars.len() > 0 && chars[0] == '-' && !means_address(chars.as_slice()) {
        return Err(address_missing(flag));
    }
    parse_address(chars.as_slice())
}

/// The number of a port.
pub open spec fn parsed_port(v: Seq<char>) -> Option<u16> {
    match parsed_number(v, u16::MAX as nat) {
        Some(n) => Some(n as u16),
        None => None,
    }
}

pub(crate) fn parse_port(v: &str) -> (r: Option<u16>)
    ensures
        r == parsed_port(v@),
{
    match parse_number(chars_of(v).as_slice(), 65_535) {
        Some(n) => Some(n as u16),
        None => None,
    }
}

impl PhoneView {
    /// No flag given.
    pub open spec fn defaults() -> PhoneView {
        PhoneView {
            generate: false,
            mine: false,
            prompt_mine: false,
            hub_only: false,
            show_mnemonic: false,
            reward: None,
            port: 8000,
            port_auto: false,
            explorer_port: Some(8080),
            data_dir: "kron-phone"@,
            bootstrap: None,
            phone: false,
            no_discovery: false,
            no_bootstrap: false,
        }
    }

    /// A reward address implies mining unless another task was asked for.
    pub open spec fn finished(self) -> PhoneView {
        if self.reward is Some && !self.hub_only && !self.generate && !self.show_mnemonic {
            PhoneView { mine: true, ..self }
        } else {
            self
        }
    }

    /// An argument that is no flag.
    pub open spec fn with_word(self, word: Seq<char>, token: Seq<char>) -> Result<
        PhoneView,
        Seq<char>,
    > {
        if word == "1"@ {
            Ok(PhoneView { generate: true, ..self })
        } else if word == "2"@ {
            Ok(PhoneView { mine: true, prompt_mine: true, ..self })
        } else if means_kron1(word) {
            self.with_address(word)
        } else {
            Err(unknown_text(token, PHONE_FLAGS@))
        }
    }

    /// A positional reward address.
    pub open spec fn with_address(self, word: Seq<char>) -> Result<PhoneView, Seq<char>> {
        match parsed_address(word) {
            Ok(a) => Ok(PhoneView { reward: Some(a), mine: true, ..self }),
            Err(e) => Err(e),
        }
    }

    /// The flag at `i`, with the place that the parse has come to.
    pub open spec fn with_flag(
        self,
        flag: Seq<char>,
        inline: Option<Seq<char>>,
        raw: Seq<Seq<char>>,
        i: int,
    ) -> Result<(PhoneView, int), Seq<char>> {
        if is_switch(flag) {
            Ok((self.with_switch(flag), i))
        } else if flag == "--mine"@ {
            match inline {
                Some(v) => if cli_value(v).len() > 0 {
                    match parsed_address(v) {
                        Ok(a) => Ok((PhoneView { mine: true, reward: Some(a), ..self }, i)),
                        Err(e) => Err(e),
                    }
                } else {
                    Ok((PhoneView { mine: true, ..self }, i))
                },
                None => Ok((PhoneView { mine: true, ..self }, i)),
            }
        } else if flag == "--reward-address"@ || flag == "--miner-address"@ {
            match taken_reward(inline, raw, i, flag) {
                Ok((a, j)) => Ok((PhoneView { reward: Some(a), ..self }, j)),
                Err(e) => Err(e),
            }
        } else if flag == "--port"@ {
            match taken_value(inline, raw, i, "--port"@) {
                Ok((v, j)) => match parsed_port(v) {
                    Some(p) => Ok((PhoneView { port: p, ..self }, j)),
                    None => Err("invalid --port"@),
                },
                Err(e) => Err(e),
            }
        } else if flag == "--explorer-port"@ {
            match taken_value(inline, raw, i, "--explorer-port"@) {
                Ok((v, j)) => match parsed_port(v) {
                    Some(p) => Ok((PhoneView { explorer_port: Some(p), ..self }, j)),
                    None => Err("invalid --explorer-port"@),
                },
                Err(e) => Err(e),
            }
        } else if flag == "--data-dir"@ {
            match taken_value(inline, raw, i, "--data-dir"@) {
                Ok((v, j)) => Ok((PhoneView { data_dir: v, ..self }, j)),
                Err(e) => Err(e),
            }
        } else if flag == "--bootstrap"@ || flag == "--node"@ {
            match taken_value(inline, raw, i, "--bootstrap"@) {
                Ok((v, j)) => match parsed_peer(v) {
                    Ok(t) => Ok((PhoneView { bootstrap: Some(t), ..self }, j)),
                    Err(e) => Err(e),
                },
                Err(e) => Err(e),
            }
        } else if means_kron1(flag) {
            match self.with_address(flag) {
                Ok(p) => Ok((p, i)),
                Err(e) => Err(e),
            }
        } else {
            Err(unknown_text(flag, PHONE_FLAGS@))
        }
    }

    /// The argument at `i`, with where the next one stands.
    #[verifier::opaque]
    pub open spec fn with_argument(self, raw: Seq<Seq<char>>, i: int) -> Result<
        (PhoneView, int),
        Seq<char>,
    > {
        let token = cli_value(raw[i]);
        let (flag, inline) = flag_parts(token);
        if token.len() == 0 {
            Ok((self, i + 1))
        } else if is_build_flag(flag) {
            Err(misuse_text())
        } else if flag.len() == 0 || flag[0] != '-' {
            match self.with_word(flag, token) {
                Ok(p) => Ok((p, i + 1)),
                Err(e) => Err(e),
            }
        } else {
            match self.with_flag(flag, inline, raw, i) {
                Ok((p, j)) => Ok((p, j + 1)),
                Err(e) => Err(e),
            }
        }
    }

    /// The arguments from `i` on. Every argument moves the parse on.
    pub open spec fn with_arguments(self, raw: Seq<Seq<char>>, i: int) -> Result<
        PhoneView,
        Seq<char>,
    >
        decreases raw.len() - i,
    {
        if i >= raw.len() {
            Ok(self.finished())
        } else {
            match self.with_argument(raw, i) {
                Err(e) => Err(e),
                Ok((p, j)) => if i < j <= raw.len() {
                    p.with_arguments(raw, j)
                } else {
                    Ok(p)
                },
            }
        }
    }
}

impl PhoneCli {
    /// A parsed reward address shows its canonical text.
    pub open spec fn wf(&self) -> bool {
        self.reward matches Some(a) ==> a.wf()
    }

    fn defaults() -> (r: Self)
        ensures
            r@ == PhoneView::defaults(),
            r.wf(),
    {
        PhoneCli {
            generate: false,
            mine: false,
            prompt_mine: false,
            hub_only: false,
            show_mnemonic: false,
            reward: None,
            port: 8000,
            port_auto: false,
            explorer_port: Some(8080),
            data_dir: owned("kron-phone"),
            bootstrap: None,
            phone: false,
            no_discovery: false,
            no_bootstrap: false,
        }
    }

    fn take_word(&mut self, word: &Vec<char>, token: &Vec<char>) -> (r: Result<(), String>)
        requires
            old(self).wf(),
        ensures
            final(self).wf(),
            match r {
                Ok(()) => old(self)@.with_word(word@, token@) == Ok::<PhoneView, Seq<char>>(
                    final(self)@,
                ),
                Err(e) => old(self)@.with_word(word@, token@) == Err::<PhoneView, Seq<char>>(e@),
            },
    {
        let text = text_of(word.as_slice());
        if same_text(text.as_str(), "1") {
            self.generate = true;
            return Ok(());
        }
        if same_text(text.as_str(), "2") {
            self.mine = true;
            self.prompt_mine = true;
            return Ok(());
        }
        if means_address(word.as_slice()) {
            return self.take_address(word);
        }
        Err(unknown_argument(text_of(token.as_slice()).as_str(), PHONE_FLAGS.as_slice()))
    }

    fn take_address(&mut self, word: &Vec<char>) -> (r: Result<(), String>)
        requires
            old(self).wf(),
        ensures
            final(self).wf(),
            match r {
                Ok(()) => old(self)@.with_address(word@) == Ok::<PhoneView, Seq<char>>(
                    final(self)@,
                ),
                Err(e) => old(self)@.with_address(word@) == Err::<PhoneView, Seq<char>>(e@),
            },
    {
        match parse_address(word.as_slice()) {
            Ok(a) => {
                self.reward = Some(a);
                self.mine = true;
                Ok(())
            },
            Err(e) => Err(e),
        }
    }

    /// Flags without a value; `false` where the flag is none of them.
    fn take_switch(&mut self, flag: &str) -> (r: bool)
        requires
            old(self).wf(),
        ensures
            final(self).wf(),
            !r ==> final(self)@ == old(self)@,
            r == is_switch(flag@),
            r ==> final(self)@ == old(self)@.with_switch(flag@),
    {
        if same_text(flag, "--generate-wallet") {
            self.generate = true;
        } else if same_text(flag, "--hub") || same_text(flag, "--node-only") {
            self.hub_only = true;
        } else if same_text(flag, "--show-mnemonic") {
            self.show_mnemonic = true;
        } else if same_text(flag, "--phone") {
            self.phone = true;
        } else if same_text(flag, "--port-auto") {
            self.port_auto = true;
        } else if same_text(flag, "--no-discovery") {
            self.no_discovery = true;
        } else if same_text(flag, "--no-bootstrap") {
            self.no_bootstrap = true;
        } else if same_text(flag, "--no-mine") || same_text(flag, "--help") || same_text(
            flag,
            "-h",
        ) {
        } else {
            return false;
        }
        true
    }

    #[verifier::rlimit(40)]
    fn take_flag(
        &mut self,
        word: &Vec<char>,
        inline: &Option<Vec<char>>,
        raw: &[String],
        i: &mut usize,
    ) -> (r: Result<(), String>)
        requires
            old(self).wf(),
            *old(i) < raw.len(),
        ensures
            final(self).wf(),
            match r {
                Ok(()) => old(self)@.with_flag(
                    word@,
                    inline_view(*inline),
                    text_views(raw@),
                    *old(i) as int,
                ) == Ok::<(PhoneView, int), Seq<char>>((final(self)@, *final(i) as int)),
                Err(e) => old(self)@.with_flag(
                    word@,
                    inline_view(*inline),
                    text_views(raw@),
                    *old(i) as int,
                ) == Err::<(PhoneView, int), Seq<char>>(e@),
            },
    {
        let text = text_of(word.as_slice());
        let flag = text.as_str();
        if self.take_switch(flag) {
            return Ok(());
        }
        if same_text(flag, "--mine") {
            match inline {
                Some(v) => {
                    if clean(v.as_slice()).len() > 0 {
                        match parse_address(v.as_slice()) {
                            Ok(a) => {
                                self.reward = Some(a);
                            },
                            Err(e) => {
                                return Err(e);
                            },
                        }
                    }
                },
                None => {},
            }
            self.mine = true;
            return Ok(());
        }
        if same_text(flag, "--reward-address") || same_text(flag, "--miner-address") {
            match take_reward(inline, raw, i, flag) {
                Ok(a) => {
                    self.reward = Some(a);
                },
                Err(e) => {
                    return Err(e);
                },
            }
            return Ok(());
        }
        if same_text(flag, "--port") {
            match take_value(inline, raw, i, "--port") {
                Ok(v) => match parse_port(v.as_str()) {
                    Some(p) => {
                        self.port = p;
                    },
                    None => {
                        return Err(owned("invalid --port"));
                    },
                },
                Err(e) => {
                    return Err(e);
                },
            }
            return Ok(());
        }
        if same_text(flag, "--explorer-port") {
            match take_value(inline, raw, i, "--explorer-port") {
                Ok(v) => match parse_port(v.as_str()) {
                    Some(p) => {
                        self.explorer_port = Some(p);
                    },
                    None => {
                        return Err(owned("invalid --explorer-port"));
                    },
                },
                Err(e) => {
                    return Err(e);
                },
            }
            return Ok(());
        }
        if same_text(flag, "--data-dir") {
            match take_value(inline, raw, i, "--data-dir") {
                Ok(v) => {
                    self.data_dir = v;
                },
                Err(e) => {
                    return Err(e);
                },
            }
            return Ok(());
        }
        if same_text(flag, "--bootstrap") || same_text(flag, "--node") {
            match take_value(inline, raw, i, "--bootstrap") {
                Ok(v) => match parse_peer_addr(v.as_str()) {
                    Ok(t) => {
                        self.bootstrap = Some(t);
                    },
                    Err(e) => {
                        return Err(e);
                    },
                },
                Err(e) => {
                    return Err(e);
                },
            }
            return Ok(());
        }
        if means_address(word.as_slice()) {
            return self.take_address(word);
        }
        Err(unknown_argument(flag, PHONE_FLAGS.as_slice()))
    }

    fn take_argument(&mut self, raw: &[String], i: &mut usize) -> (r: Result<(), String>)
        requires
            old(self).wf(),
            *old(i) < raw.len(),
        ensures
            final(self).wf(),
            match r {
                Ok(()) => {
                    &&& *old(i) < *final(i) <= raw.len()
                    &&& old(self)@.with_argument(text_views(raw@), *old(i) as int) == Ok::<
                        (PhoneView, int),
                        Seq<char>,
                    >((final(self)@, *final(i) as int))
                },
                Err(e) => old(self)@.with_argument(text_views(raw@), *old(i) as int) == Err::<
                    (PhoneView, int),
                    Seq<char>,
                >(e@),
            },
    {
        reveal(PhoneView::with_argument);
        assert(text_views(raw@)[*i as int] == raw@[*i as int]@);
        let token = clean(chars_of(raw[*i].as_str()).as_slice());
        let (flag, inline) = split_flag(token.as_slice());
        if token.len() == 0 {
            *i += 1;
            return Ok(());
        }
        if is_cargo_build_flag(text_of(flag.as_slice()).as_str()) {
            return Err(cargo_flag_misuse(text_of(token.as_slice()).as_str()));
        }
        if flag.len() == 0 || flag[0] != '-' {
            match self.take_word(&flag, &token) {
                Ok(()) => {
                    *i += 1;
                    return Ok(());
                },
                Err(e) => {
                    return Err(e);
                },
            }
        }
        proof {
            lemma_flag_advances(
                self@,
                flag@,
                inline_view(inline),
                text_views(raw@),
                *i as int,
            );
        }
        match self.take_flag(&flag, &inline, raw, i) {
            Ok(()) => {
                *i += 1;
                Ok(())
            },
            Err(e) => Err(e),
        }
    }
}

proof fn lemma_flag_advances(
    p: PhoneView,
    flag: Seq<char>,
    inline: Option<Seq<char>>,
    raw: Seq<Seq<char>>,
    i: int,
)
    ensures
        p.with_flag(flag, inline, raw, i) matches Ok((_, j)) ==> i <= j && (i < raw.len() ==> j
            < raw.len()),
{
}

/// Flags without a value.
pub open spec fn is_switch(f: Seq<char>) -> bool {
    ||| f == "--generate-wallet"@
    ||| f == "--hub"@
    ||| f == "--node-only"@
    ||| f == "--show-mnemonic"@
    ||| f == "--phone"@
    ||| f == "--port-auto"@
    ||| f == "--no-discovery"@
    ||| f == "--no-bootstrap"@
    ||| f == "--no-mine"@
    ||| f == "--help"@
    ||| f == "-h"@
}

impl PhoneView {
    /// A flag without a value.
    pub open spec fn with_switch(self, flag: Seq<char>) -> PhoneView {
        if flag == "--generate-wallet"@ {
            PhoneView { generate: true, ..self }
        } else if flag == "--hub"@ || flag == "--node-only"@ {
            PhoneView { hub_only: true, ..self }
        } else if flag == "--show-mnemonic"@ {
            PhoneView { show_mnemonic: true, ..self }
        } else if flag == "--phone"@ {
            PhoneView { phone: true, ..self }
        } else if flag == "--port-auto"@ {
            PhoneView { port_auto: true, ..self }
        } else if flag == "--no-discovery"@ {
            PhoneView { no_discovery: true, ..self }
        } else if flag == "--no-bootstrap"@ {
            PhoneView { no_bootstrap: true, ..self }
        } else {
            self
        }
    }
}

/// Parses the arguments of `kron-phone`.
pub fn parse_phone_cli(raw: &[String]) -> (r: Result<PhoneCli, String>)
    ensures
        match r {
            Ok(cli) => cli.wf() && PhoneView::defaults().with_arguments(text_views(raw@), 0)
                == Ok::<PhoneView, Seq<char>>(cli@),
            Err(e) => PhoneView::defaults().with_arguments(text_views(raw@), 0) == Err::<
                PhoneView,
                Seq<char>,
            >(e@),
        },
{
    let mut cli = PhoneCli::defaults();
    let mut i: usize = 0;
    while i < raw.len()
        invariant
            cli.wf(),
            PhoneView::defaults().with_arguments(text_views(raw@), 0) == cli@.with_arguments(
                text_views(raw@),
                i as int,
            ),
        decreases raw.len() - i,
    {
        match cli.take_argument(raw, &mut i) {
            Ok(()) => {},
            Err(e) => {
                return Err(e);
            },
        }
    }
    if cli.reward.is_some() && !cli.hub_only && !cli.generate && !cli.show_mnemonic {
        cli.mine = true;
    }
    Ok(cli)
}

impl NodeView {
    /// No flag given.
    pub open spec fn defaults() -> NodeView {
        NodeView {
            port: 8000,
            explorer_port: 8080,
            data_dir: None,
            follow: None,
            name: None,
            print_identity: false,
            read_only: false,
            public_hub: false,
            no_discovery: false,
            public_ip: None,
        }
    }

    /// The flag at `i`, with the place that the parse has come to.
    pub open spec fn with_flag(
        self,
        flag: Seq<char>,
        inline: Option<Seq<char>>,
        raw: Seq<Seq<char>>,
        i: int,
    ) -> Result<(NodeView, int), Seq<char>> {
        if is_mine_flag(flag) {
            Err(NODE_MINE_REFUSAL@)
        } else if flag == "--port"@ {
            match taken_value(inline, raw, i, "--port"@) {
                Ok((v, j)) => match parsed_port(v) {
                    Some(p) => Ok((NodeView { port: p, ..self }, j)),
                    None => Err("invalid --port"@),
                },
                Err(e) => Err(e),
            }
        } else if flag == "--explorer-port"@ {
            match taken_value(inline, raw, i, "--explorer-port"@) {
                Ok((v, j)) => match parsed_port(v) {
                    Some(p) => Ok((NodeView { explorer_port: p, ..self }, j)),
                    None => Err("invalid --explorer-port"@),
                },
                Err(e) => Err(e),
            }
        } else if flag == "--data-dir"@ {
            match taken_value(inline, raw, i, "--data-dir"@) {
                Ok((v, j)) => Ok((NodeView { data_dir: Some(v), ..self }, j)),
                Err(e) => Err(e),
            }
        } else if flag == "--follow"@ || flag == "--bootstrap"@ || flag == "--node"@ {
            match taken_value(inline, raw, i, "--follow"@) {
                Ok((v, j)) => match parsed_peer(v) {
                    Ok(t) => Ok((NodeView { follow: Some(t), ..self }, j)),
                    Err(e) => Err(e),
                },
                Err(e) => Err(e),
            }
        } else if flag == "--name"@ {
            match taken_value(inline, raw, i, "--name"@) {
                Ok((v, j)) => Ok((NodeView { name: Some(v), ..self }, j)),
                Err(e) => Err(e),
            }
        } else if flag == "--public-ip"@ {
            match taken_value(inline, raw, i, "--public-ip"@) {
                Ok((v, j)) => match parsed_public_ip(v) {
                    Ok(ip) => Ok((NodeView { public_ip: Some(ip), ..self }, j)),
                    Err(e) => Err(e),
                },
                Err(e) => Err(e),
            }
        } else if flag == "--hub"@ {
            Ok((NodeView { public_hub: true, ..self }, i))
        } else if flag == "--read-only"@ {
            Ok((NodeView { read_only: true, ..self }, i))
        } else if flag == "--no-mine"@ {
            Ok((self, i))
        } else if flag == "--no-discovery"@ {
            Ok((NodeView { no_discovery: true, ..self }, i))
        } else if flag == "--print-identity"@ {
            Ok((NodeView { print_identity: true, ..self }, i))
        } else {
            Err(unknown_text(flag, NODE_FLAGS@))
        }
    }

    /// The argument at `i`, with where the next one stands.
    #[verifier::opaque]
    pub open spec fn with_argument(self, raw: Seq<Seq<char>>, i: int) -> Result<
        (NodeView, int),
        Seq<char>,
    > {
        let token = cli_value(raw[i]);
        let (flag, inline) = flag_parts(token);
        if (flag.len() == 0 || flag[0] != '-') && means_kron1(flag) {
            Err(NODE_MINE_REFUSAL@)
        } else {
            match self.with_flag(flag, inline, raw, i) {
                Ok((p, j)) => Ok((p, j + 1)),
                Err(e) => Err(e),
            }
        }
    }

    /// The arguments from `i` on. Every argument moves the parse on.
    pub open spec fn with_arguments(self, raw: Seq<Seq<char>>, i: int) -> Result<
        NodeView,
        Seq<char>,
    >
        decreases raw.len() - i,
    {
        if i >= raw.len() {
            Ok(self)
        } else {
            match self.with_argument(raw, i) {
                Err(e) => Err(e),
                Ok((p, j)) => if i < j <= raw.len() {
                    p.with_arguments(raw, j)
                } else {
                    Ok(p)
                },
            }
        }
    }
}

proof fn lemma_node_flag_advances(
    p: NodeView,
    flag: Seq<char>,
    inline: Option<Seq<char>>,
    raw: Seq<Seq<char>>,
    i: int,
)
    ensures
        p.with_flag(flag, inline, raw, i) matches Ok((_, j)) ==> i <= j && (i < raw.len() ==> j
            < raw.len()),
{
}

impl NodeCli {
    #[verifier::rlimit(40)]
    fn take_flag(
        &mut self,
        flag: &str,
        inline: &Option<Vec<char>>,
        raw: &[String],
        i: &mut usize,
    ) -> (r: Result<(), String>)
        requires
            *old(i) < raw.len(),
        ensures
            match r {
                Ok(()) => old(self)@.with_flag(
                    flag@,
                    inline_view(*inline),
                    text_views(raw@),
                    *old(i) as int,
                ) == Ok::<(NodeView, int), Seq<char>>((final(self)@, *final(i) as int)),
                Err(e) => old(self)@.with_flag(
                    flag@,
                    inline_view(*inline),
                    text_views(raw@),
                    *old(i) as int,
                ) == Err::<(NodeView, int), Seq<char>>(e@),
            },
    {
        if mine_flag(flag) {
            return Err(owned(NODE_MINE_REFUSAL));
        }
        if same_text(flag, "--port") {
            match take_value(inline, raw, i, "--port") {
                Ok(v) => match parse_port(v.as_str()) {
                    Some(p) => {
                        self.port = p;
                    },
                    None => {
                        return Err(owned("invalid --port"));
                    },
                },
                Err(e) => {
                    return Err(e);
                },
            }
            return Ok(());
        }
        if same_text(flag, "--explorer-port") {
            match take_value(inline, raw, i, "--explorer-port") {
                Ok(v) => match parse_port(v.as_str()) {
                    Some(p) => {
                        self.explorer_port = p;
                    },
                    None => {
                        return Err(owned("invalid --explorer-port"));
                    },
                },
                Err(e) => {
                    return Err(e);
                },
            }
            return Ok(());
        }
        if same_text(flag, "--data-dir") {
            match take_value(inline, raw, i, "--data-dir") {
                Ok(v) => {
                    self.data_dir = Some(v);
                },
                Err(e) => {
                    return Err(e);
                },
            }
            return Ok(());
        }
        if same_text(flag, "--follow") || same_text(flag, "--bootstrap") || same_text(
            flag,
            "--node",
        ) {
            match take_value(inline, raw, i, "--follow") {
                Ok(v) => match parse_peer_addr(v.as_str()) {
                    Ok(t) => {
                        self.follow = Some(t);
                    },
                    Err(e) => {
                        return Err(e);
                    },
                },
                Err(e) => {
                    return Err(e);
                },
            }
            return Ok(());
        }
        if same_text(flag, "--name") {
            match take_value(inline, raw, i, "--name") {
                Ok(v) => {
                    self.name = Some(v);
                },
                Err(e) => {
                    return Err(e);
                },
            }
            return Ok(());
        }
        if same_text(flag, "--public-ip") {
            match take_value(inline, raw, i, "--public-ip") {
                Ok(v) => match parse_public_ipv4(v.as_str()) {
                    Ok(ip) => {
                        self.public_ip = Some(ip);
                    },
                    Err(e) => {
                        return Err(e);
                    },
                },
                Err(e) => {
                    return Err(e);
                },
            }
            return Ok(());
        }
        if same_text(flag, "--hub") {
            self.public_hub = true;
        } else if same_text(flag, "--read-only") {
            self.read_only = true;
        } else if same_text(flag, "--no-mine") {
        } else if same_text(flag, "--no-discovery") {
            self.no_discovery = true;
        } else if same_text(flag, "--print-identity") {
            self.print_identity = true;
        } else {
            return Err(unknown_argument(flag, NODE_FLAGS.as_slice()));
        }
        Ok(())
    }

    fn take_argument(&mut self, raw: &[String], i: &mut usize) -> (r: Result<(), String>)
        requires
            *old(i) < raw.len(),
        ensures
            match r {
                Ok(()) => {
                    &&& *old(i) < *final(i) <= raw.len()
                    &&& old(self)@.with_argument(text_views(raw@), *old(i) as int) == Ok::<
                        (NodeView, int),
                        Seq<char>,
                    >((final(self)@, *final(i) as int))
                },
                Err(e) => old(self)@.with_argument(text_views(raw@), *old(i) as int) == Err::<
                    (NodeView, int),
                    Seq<char>,
                >(e@),
            },
    {
        reveal(NodeView::with_argument);
        assert(text_views(raw@)[*i as int] == raw@[*i as int]@);
        let token = clean(chars_of(raw[*i].as_str()).as_slice());
        let (flag, inline) = split_flag(token.as_slice());
        if (flag.len() == 0 || flag[0] != '-') && means_address(flag.as_slice()) {
            return Err(owned(NODE_MINE_REFUSAL));
        }
        proof {
            lemma_node_flag_advances(
                self@,
                flag@,
                inline_view(inline),
                text_views(raw@),
                *i as int,
            );
        }
        match self.take_flag(text_of(flag.as_slice()).as_str(), &inline, raw, i) {
            Ok(()) => {
                *i += 1;
                Ok(())
            },
            Err(e) => Err(e),
        }
    }
}

/// Parses the arguments of `kron-node`.
pub fn parse_node_cli(raw: &[String]) -> (r: Result<NodeCli, String>)
    ensures
        match r {
            Ok(cli) => NodeView::defaults().with_arguments(text_views(raw@), 0) == Ok::<
                NodeView,
                Seq<char>,
            >(cli@),
            Err(e) => NodeView::defaults().with_arguments(text_views(raw@), 0) == Err::<
                NodeView,
                Seq<char>,
            >(e@),
        },
{
    let mut cli = NodeCli {
        port: 8000,
        explorer_port: 8080,
        data_dir: None,
        follow: None,
        name: None,
        print_identity: false,
        read_only: false,
        public_hub: false,
        no_discovery: false,
        public_ip: None,
    };
    let mut i: usize = 0;
    while i < raw.len()
        invariant
            NodeView::defaults().with_arguments(text_views(raw@), 0) == cli@.with_arguments(
                text_views(raw@),
                i as int,
            ),
        decreases raw.len() - i,
    {
        match cli.take_argument(raw, &mut i) {
            Ok(()) => {},
            Err(e) => {
                return Err(e);
            },
        }
    }
    Ok(cli)
}

/// A node refuses every argument that asks for mining.
pub proof fn law_node_never_mines(p: NodeView, raw: Seq<Seq<char>>, i: int)
    requires
        0 <= i < raw.len(),
        is_mine_flag(flag_parts(cli_value(raw[i])).0),
    ensures
        p.with_argument(raw, i) == Err::<(NodeView, int), Seq<char>>(NODE_MINE_REFUSAL@),
{
    reveal(NodeView::with_argument);
}

/// A phone that was given a reward address mines, unless it was asked to be a hub,
/// to make a wallet, or to show its phrase.
pub proof fn law_reward_means_mining(p: PhoneView, raw: Seq<Seq<char>>, i: int)
    requires
        0 <= i <= raw.len(),
    ensures
        p.with_arguments(raw, i) matches Ok(v) ==> (v.reward is Some && !v.hub_only && !v.generate
            && !v.show_mnemonic ==> v.mine),
    decreases raw.len() - i,
{
    if i < raw.len() {
        match p.with_argument(raw, i) {
            Err(_) => {},
            Ok((q, j)) => {
                if i < j <= raw.len() {
                    law_reward_means_mining(q, raw, j);
                } else {
                    lemma_argument_advances(p, raw, i);
                }
            },
        }
    }
}

proof fn lemma_argument_advances(p: PhoneView, raw: Seq<Seq<char>>, i: int)
    requires
        0 <= i < raw.len(),
    ensures
        p.with_argument(raw, i) matches Ok((_, j)) ==> i < j <= raw.len(),
{
    reveal(PhoneView::with_argument);
    let (flag, inline) = flag_parts(cli_value(raw[i]));
    lemma_flag_advances(p, flag, inline, raw, i);
}

} // verus!
