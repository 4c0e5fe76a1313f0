//! What each flag of `kron-phone` and `kron-node` says, and what the flags lead to.

use vstd::prelude::*;

use crate::anti_bot::profile::DeviceClass;
use crate::dag::tx::array_of;
use crate::kron::bech32::kron_text;
use crate::kron::bootstrap::{asks_sources, is_placeholder, is_self, lemma_four, parsed_ipv4, parsed_peer,
    parsed_socket, resolved_sources, source_peers, with_peers, TargetView};
use crate::kron::cli::{cli_value, flag_parts, is_build_flag, is_mine_flag,
    is_mine_token, is_quote_pair, is_switch, mode_of, parsed_menu_line, unquoted, without_bom,
    NodeRunMode, NodeView, PhoneView};
use crate::kron::command::{link_of, menu_choice_of, phone_command_of, setup_of, MenuChoice,
    PeerLink, PhoneCommandView, PhoneTask, REWARD_REQUIRED};
use crate::kron::credit::OrderArgs;
use crate::kron::mine_forms::{lemma_address_input, lemma_address_parses, lemma_address_text};
use crate::kron::miner_cli::MinerArgs;
use crate::p2p::peer::{PeerAddr, PeerRole};
use crate::text::{decimal_text, found_at, is_digit, is_white, lemma_decimal_round_trip,
    lemma_nothing_to_trim, pieces, trimmed, uppered};
use crate::types::Address;

verus! {

/// A text that begins and ends with plain characters is left as it is.
proof fn lemma_plain(s: Seq<char>)
    requires
        s.len() > 0,
        !is_white(s[0]),
        !is_white(s.last()),
        s[0] != '\u{feff}',
        !is_quote_pair(s[0], s.last()),
    ensures
        cli_value(s) == s,
{
    lemma_nothing_to_trim(s);
    assert(without_bom(s) == s);
    assert(unquoted(s) == s);
}

/// A number is a plain text.
proof fn lemma_number_is_plain(n: nat)
    ensures
        cli_value(decimal_text(n)) == decimal_text(n),
        decimal_text(n).len() > 0,
{
    lemma_decimal_round_trip(n);
    let s = decimal_text(n);
    assert(is_digit(s[0]));
    assert(is_digit(s[s.len() - 1]));
    lemma_plain(s);
}

/// The flags by their lengths and letters, in which they all differ.
proof fn lemma_flag_letters()
    ensures
        "--mine"@.len() == 6 && "--mine"@[2] == 'm' && "--mine"@[3] == 'i',
        "--miner-only"@.len() == 12 && "--miner-only"@[2] == 'm' && "--miner-only"@[3] == 'i',
        "--miner-ui"@.len() == 10 && "--miner-ui"@[2] == 'm' && "--miner-ui"@[3] == 'i',
        "--reward-address"@.len() == 16 && "--reward-address"@[2] == 'r' && "--reward-address"@[3] == 'e',
        "--miner-address"@.len() == 15 && "--miner-address"@[2] == 'm' && "--miner-address"@[3] == 'i',
        "--hub"@.len() == 5 && "--hub"@[2] == 'h' && "--hub"@[3] == 'u',
        "--node-only"@.len() == 11 && "--node-only"@[2] == 'n' && "--node-only"@[3] == 'o',
        "--generate-wallet"@.len() == 17 && "--generate-wallet"@[2] == 'g' && "--generate-wallet"@[3] == 'e',
        "--show-mnemonic"@.len() == 15 && "--show-mnemonic"@[2] == 's' && "--show-mnemonic"@[3] == 'h',
        "--phone"@.len() == 7 && "--phone"@[2] == 'p' && "--phone"@[3] == 'h',
        "--port"@.len() == 6 && "--port"@[2] == 'p' && "--port"@[3] == 'o',
        "--port-auto"@.len() == 11 && "--port-auto"@[2] == 'p' && "--port-auto"@[3] == 'o',
        "--explorer-port"@.len() == 15 && "--explorer-port"@[2] == 'e' && "--explorer-port"@[3] == 'x',
        "--data-dir"@.len() == 10 && "--data-dir"@[2] == 'd' && "--data-dir"@[3] == 'a',
        "--bootstrap"@.len() == 11 && "--bootstrap"@[2] == 'b' && "--bootstrap"@[3] == 'o',
        "--node"@.len() == 6 && "--node"@[2] == 'n' && "--node"@[3] == 'o',
        "--follow"@.len() == 8 && "--follow"@[2] == 'f' && "--follow"@[3] == 'o',
        "--name"@.len() == 6 && "--name"@[2] == 'n' && "--name"@[3] == 'a',
        "--public-ip"@.len() == 11 && "--public-ip"@[2] == 'p' && "--public-ip"@[3] == 'u',
        "--read-only"@.len() == 11 && "--read-only"@[2] == 'r' && "--read-only"@[3] == 'e',
        "--print-identity"@.len() == 16 && "--print-identity"@[2] == 'p' && "--print-identity"@[3] == 'r',
        "--no-discovery"@.len() == 14 && "--no-discovery"@[2] == 'n' && "--no-discovery"@[3] == 'o' && "--no-discovery"@[5] == 'd',
        "--no-bootstrap"@.len() == 14 && "--no-bootstrap"@[2] == 'n' && "--no-bootstrap"@[3] == 'o' && "--no-bootstrap"@[5] == 'b',
        "--no-mine"@.len() == 9 && "--no-mine"@[2] == 'n' && "--no-mine"@[3] == 'o' && "--no-mine"@[5] == 'm',
        "--help"@.len() == 6 && "--help"@[2] == 'h' && "--help"@[3] == 'e',
        "--bin"@.len() == 5 && "--bin"@[2] == 'b' && "--bin"@[3] == 'i',
        "--release"@.len() == 9 && "--release"@[2] == 'r' && "--release"@[3] == 'e',
        "--package"@.len() == 9 && "--package"@[2] == 'p' && "--package"@[3] == 'a',
        "--target"@.len() == 8 && "--target"@[2] == 't' && "--target"@[3] == 'a',
        "--offline"@.len() == 9 && "--offline"@[2] == 'o' && "--offline"@[3] == 'f',
        "--locked"@.len() == 8 && "--locked"@[2] == 'l' && "--locked"@[3] == 'o',
        "--workspace"@.len() == 11 && "--workspace"@[2] == 'w' && "--workspace"@[3] == 'o',
        "-h"@.len() == 2 && "-h"@[1] == 'h',
        "-p"@.len() == 2 && "-p"@[1] == 'p',
        "bin"@.len() == 3 && "bin"@[0] == 'b',
        "cargo"@.len() == 5 && "cargo"@[0] == 'c',
{
    reveal_strlit("--mine");
    reveal_strlit("--miner-only");
    reveal_strlit("--miner-ui");
    reveal_strlit("--reward-address");
    reveal_strlit("--miner-address");
    reveal_strlit("--hub");
    reveal_strlit("--node-only");
    reveal_strlit("--generate-wallet");
    reveal_strlit("--show-mnemonic");
    reveal_strlit("--phone");
    reveal_strlit("--port");
    reveal_strlit("--port-auto");
    reveal_strlit("--explorer-port");
    reveal_strlit("--data-dir");
    reveal_strlit("--bootstrap");
    reveal_strlit("--node");
    reveal_strlit("--follow");
    reveal_strlit("--name");
    reveal_strlit("--public-ip");
    reveal_strlit("--read-only");
    reveal_strlit("--print-identity");
    reveal_strlit("--no-discovery");
    reveal_strlit("--no-bootstrap");
    reveal_strlit("--no-mine");
    reveal_strlit("--help");
    reveal_strlit("--bin");
    reveal_strlit("--release");
    reveal_strlit("--package");
    reveal_strlit("--target");
    reveal_strlit("--offline");
    reveal_strlit("--locked");
    reveal_strlit("--workspace");
    reveal_strlit("-h");
    reveal_strlit("-p");
    reveal_strlit("bin");
    reveal_strlit("cargo");
}

/// What each switch of a phone turns on, and that it turns on nothing else.
pub proof fn law_phone_switches(p: PhoneView, raw: Seq<Seq<char>>, i: int)
    requires
        0 <= i < raw.len(),
    ensures
        raw[i] == "--generate-wallet"@ ==> p.with_argument(raw, i) == Ok::<
            (PhoneView, int),
            Seq<char>,
        >((PhoneView { generate: true, ..p }, i + 1)),
        raw[i] == "--hub"@ || raw[i] == "--node-only"@ ==> p.with_argument(raw, i) == Ok::<
            (PhoneView, int),
            Seq<char>,
        >((PhoneView { hub_only: true, ..p }, i + 1)),
        raw[i] == "--show-mnemonic"@ ==> p.with_argument(raw, i) == Ok::<
            (PhoneView, int),
            Seq<char>,
        >((PhoneView { show_mnemonic: true, ..p }, i + 1)),
        raw[i] == "--phone"@ ==> p.with_argument(raw, i) == Ok::<(PhoneView, int), Seq<char>>(
            (PhoneView { phone: true, ..p }, i + 1),
        ),
        raw[i] == "--port-auto"@ ==> p.with_argument(raw, i) == Ok::<(PhoneView, int), Seq<char>>(
            (PhoneView { port_auto: true, ..p }, i + 1),
        ),
        raw[i] == "--no-discovery"@ ==> p.with_argument(raw, i) == Ok::<
            (PhoneView, int),
            Seq<char>,
        >((PhoneView { no_discovery: true, ..p }, i + 1)),
        raw[i] == "--no-bootstrap"@ ==> p.with_argument(raw, i) == Ok::<
            (PhoneView, int),
            Seq<char>,
        >((PhoneView { no_bootstrap: true, ..p }, i + 1)),
        raw[i] == "--no-mine"@ ==> p.with_argument(raw, i) == Ok::<(PhoneView, int), Seq<char>>(
            (p, i + 1),
        ),
{
    let f = raw[i];
    if is_switch(f) {
        lemma_switch(f);
        reveal(PhoneView::with_argument);
        lemma_flag_letters();
    }
}

/// A switch is a flag without a value.
proof fn lemma_switch(f: Seq<char>)
    requires
        is_switch(f),
    ensures
        f.len() > 0,
        f[0] == '-',
        cli_value(f) == f,
        flag_parts(f) == (f, None::<Seq<char>>),
        !is_build_flag(f),
{
    lemma_flag_letters();
    reveal_strlit("--generate-wallet");
    reveal_strlit("--hub");
    reveal_strlit("--node-only");
    reveal_strlit("--show-mnemonic");
    reveal_strlit("--phone");
    reveal_strlit("--port-auto");
    reveal_strlit("--no-discovery");
    reveal_strlit("--no-bootstrap");
    reveal_strlit("--no-mine");
    reveal_strlit("--help");
    reveal_strlit("-h");
    lemma_plain(f);
    lemma_build_flags(f);
    assert forall|k: int| 0 <= k < f.len() implies #[trigger] f[k] != '=' by {
    }
    assert(!f.contains('='));
}

/// The build flags by their lengths and letters.
proof fn lemma_build_flags(f: Seq<char>)
    requires
        f.len() >= 2,
        f[0] == '-',
        f.len() == 2 ==> f[1] != 'p',
        f.len() == 5 ==> f[2] != 'b',
        f.len() == 8 ==> f[2] != 't' && f[2] != 'l',
        f.len() == 9 ==> f[2] != 'r' && f[2] != 'p' && f[2] != 'o',
        f.len() == 11 ==> f[2] != 'w',
    ensures
        !is_build_flag(f),
{
    lemma_flag_letters();
}

/// The flags that take a value.
spec fn is_valued(f: Seq<char>) -> bool {
    ||| f == "--port"@
    ||| f == "--explorer-port"@
    ||| f == "--data-dir"@
    ||| f == "--bootstrap"@
    ||| f == "--node"@
    ||| f == "--follow"@
    ||| f == "--name"@
    ||| f == "--public-ip"@
}

/// Such a flag is read as it stands.
proof fn lemma_valued(f: Seq<char>)
    requires
        is_valued(f),
    ensures
        f.len() > 0,
        f[0] == '-',
        cli_value(f) == f,
        flag_parts(f) == (f, None::<Seq<char>>),
        !is_build_flag(f),
        !is_switch(f),
        !is_mine_flag(f),
{
    lemma_flag_letters();
    reveal_strlit("--port");
    reveal_strlit("--explorer-port");
    reveal_strlit("--data-dir");
    reveal_strlit("--bootstrap");
    reveal_strlit("--node");
    reveal_strlit("--follow");
    reveal_strlit("--name");
    reveal_strlit("--public-ip");
    lemma_plain(f);
    lemma_build_flags(f);
    assert forall|k: int| 0 <= k < f.len() implies #[trigger] f[k] != '=' by {
    }
    assert(!f.contains('='));
    lemma_valued_is_no_switch(f);
}

proof fn lemma_valued_is_no_switch(f: Seq<char>)
    requires
        is_valued(f),
    ensures
        !is_switch(f),
        !is_mine_flag(f),
{
    lemma_flag_letters();
}

proof fn lemma_valued_differ()
    ensures
        "--port"@ != "--explorer-port"@,
        "--port"@ != "--data-dir"@,
        "--port"@ != "--bootstrap"@,
        "--port"@ != "--node"@,
        "--port"@ != "--mine"@,
        "--port"@ != "--reward-address"@,
        "--port"@ != "--miner-address"@,
        "--explorer-port"@ != "--data-dir"@,
        "--explorer-port"@ != "--bootstrap"@,
        "--explorer-port"@ != "--node"@,
        "--explorer-port"@ != "--mine"@,
        "--explorer-port"@ != "--reward-address"@,
        "--explorer-port"@ != "--miner-address"@,
        "--data-dir"@ != "--bootstrap"@,
        "--data-dir"@ != "--node"@,
        "--data-dir"@ != "--mine"@,
        "--data-dir"@ != "--reward-address"@,
        "--data-dir"@ != "--miner-address"@,
        "--bootstrap"@ != "--mine"@,
        "--bootstrap"@ != "--reward-address"@,
        "--bootstrap"@ != "--miner-address"@,
        "--node"@ != "--mine"@,
        "--node"@ != "--reward-address"@,
        "--node"@ != "--miner-address"@,
        "--follow"@ != "--port"@,
        "--follow"@ != "--explorer-port"@,
        "--follow"@ != "--data-dir"@,
        "--name"@ != "--port"@,
        "--name"@ != "--explorer-port"@,
        "--name"@ != "--data-dir"@,
        "--name"@ != "--follow"@,
        "--name"@ != "--bootstrap"@,
        "--name"@ != "--node"@,
        "--public-ip"@ != "--port"@,
        "--public-ip"@ != "--explorer-port"@,
        "--public-ip"@ != "--data-dir"@,
        "--public-ip"@ != "--follow"@,
        "--public-ip"@ != "--bootstrap"@,
        "--public-ip"@ != "--node"@,
        "--public-ip"@ != "--name"@,
{
    lemma_flag_letters();
}

/// A port that is given in digits is the port that is listened on; likewise the explorer's.
/// Nothing else changes, and the parse goes on behind the number.
pub proof fn law_ports_are_taken(
    p: PhoneView,
    q: NodeView,
    raw: Seq<Seq<char>>,
    i: int,
    port: u16,
)
    requires
        0 <= i < raw.len() - 1,
        raw[i + 1] == decimal_text(port as nat),
    ensures
        raw[i] == "--port"@ ==> p.with_argument(raw, i) == Ok::<(PhoneView, int), Seq<char>>(
            (PhoneView { port, ..p }, i + 2),
        ),
        raw[i] == "--explorer-port"@ ==> p.with_argument(raw, i) == Ok::<
            (PhoneView, int),
            Seq<char>,
        >((PhoneView { explorer_port: Some(port), ..p }, i + 2)),
        raw[i] == "--port"@ ==> q.with_argument(raw, i) == Ok::<(NodeView, int), Seq<char>>(
            (NodeView { port, ..q }, i + 2),
        ),
        raw[i] == "--explorer-port"@ ==> q.with_argument(raw, i) == Ok::<
            (NodeView, int),
            Seq<char>,
        >((NodeView { explorer_port: port, ..q }, i + 2)),
{
    let f = raw[i];
    if f == "--port"@ || f == "--explorer-port"@ {
        lemma_valued(f);
        lemma_valued_differ();
        lemma_number_is_plain(port as nat);
        lemma_decimal_round_trip(port as nat);
        assert(is_digit(decimal_text(port as nat)[0]));
        reveal(PhoneView::with_argument);
        reveal(NodeView::with_argument);
    }
}

/// A directory and a name are taken as they are written.
pub proof fn law_texts_are_taken(p: PhoneView, q: NodeView, raw: Seq<Seq<char>>, i: int)
    requires
        0 <= i < raw.len() - 1,
        raw[i + 1].len() > 0,
        cli_value(raw[i + 1]) == raw[i + 1],
    ensures
        raw[i] == "--data-dir"@ ==> p.with_argument(raw, i) == Ok::<(PhoneView, int), Seq<char>>(
            (PhoneView { data_dir: raw[i + 1], ..p }, i + 2),
        ),
        raw[i] == "--data-dir"@ ==> q.with_argument(raw, i) == Ok::<(NodeView, int), Seq<char>>(
            (NodeView { data_dir: Some(raw[i + 1]), ..q }, i + 2),
        ),
        raw[i] == "--name"@ ==> q.with_argument(raw, i) == Ok::<(NodeView, int), Seq<char>>(
            (NodeView { name: Some(raw[i + 1]), ..q }, i + 2),
        ),
{
    let f = raw[i];
    if f == "--data-dir"@ || f == "--name"@ {
        lemma_valued(f);
        lemma_valued_differ();
        reveal(PhoneView::with_argument);
        reveal(NodeView::with_argument);
    }
}

/// A piece in front of a separator stands apart from what follows.
proof fn lemma_first_piece(a: Seq<char>, c: char, b: Seq<char>)
    requires
        !a.contains(c),
    ensures
        pieces(a + seq![c] + b, seq![c]) == seq![a] + pieces(b, seq![c]),
    decreases b.len(),
{
    let s = a + seq![c] + b;
    if b.len() == 0 {
        assert(s.drop_last() =~= a);
        lemma_one_piece(a, c);
        assert(s.last() == c);
        assert(seq![c].contains(c)) by {
            assert(seq![c][0] == c);
        }
        assert(pieces(s, seq![c]) == pieces(a, seq![c]).push(Seq::empty()));
        assert(pieces(s, seq![c]) =~= seq![a] + pieces(b, seq![c]));
    } else {
        lemma_first_piece(a, c, b.drop_last());
        assert(s.drop_last() =~= a + seq![c] + b.drop_last());
        assert(s.last() == b.last());
        lemma_some_piece(b.drop_last(), c);
        assert(pieces(s, seq![c]) =~= seq![a] + pieces(b, seq![c]));
    }
}

proof fn lemma_some_piece(b: Seq<char>, c: char)
    ensures
        pieces(b, seq![c]).len() > 0,
    decreases b.len(),
{
    if b.len() > 0 {
        lemma_some_piece(b.drop_last(), c);
    }
}

/// A text without the separator is one piece.
proof fn lemma_one_piece(a: Seq<char>, c: char)
    requires
        !a.contains(c),
    ensures
        pieces(a, seq![c]) == seq![a],
    decreases a.len(),
{
    if a.len() == 0 {
        assert(a =~= Seq::<char>::empty());
    } else {
        assert forall|k: int| 0 <= k < a.len() - 1 implies #[trigger] a.drop_last()[k] != c by {
            assert(a[k] != c);
        }
        lemma_one_piece(a.drop_last(), c);
        assert(a[a.len() - 1] != c);
        assert(!seq![c].contains(a.last()));
        let head = pieces(a.drop_last(), seq![c]);
        assert(head.last() == a.drop_last());
        assert(a.drop_last().push(a.last()) =~= a);
        assert(head.drop_last().push(head.last().push(a.last())) =~= seq![a]);
    }
}

/// The digits of a byte are an octet.
proof fn lemma_octet(n: u8)
    ensures
        crate::kron::bootstrap::is_octet(decimal_text(n as nat)),
        !decimal_text(n as nat).contains('.'),
        !decimal_text(n as nat).contains(':'),
{
    let s = decimal_text(n as nat);
    lemma_decimal_round_trip(n as nat);
    reveal_with_fuel(decimal_text, 4);
    assert forall|k: int| 0 <= k < s.len() implies #[trigger] s[k] != '.' && s[k] != ':' by {
        assert(is_digit(s[k]));
    }
    if n < 10 {
        assert(s.len() == 1);
    } else if n < 100 {
        assert(s.len() == 2);
        assert(s[0] == crate::text::digit_char((n as nat) / 10));
    } else {
        assert(s.len() == 3);
        assert(s[0] == crate::text::digit_char((n as nat) / 100));
    }
}

/// The dotted text of an address spells the address.
pub proof fn law_ipv4_round_trip(ip: [u8; 4])
    ensures
        parsed_ipv4(crate::kron::bootstrap::ipv4_text(ip@)) == Some(ip@),
{
    let (a, b, c, d) = (
        decimal_text(ip@[0] as nat),
        decimal_text(ip@[1] as nat),
        decimal_text(ip@[2] as nat),
        decimal_text(ip@[3] as nat),
    );
    lemma_octet(ip@[0]);
    lemma_octet(ip@[1]);
    lemma_octet(ip@[2]);
    lemma_octet(ip@[3]);
    lemma_decimal_round_trip(ip@[0] as nat);
    lemma_decimal_round_trip(ip@[1] as nat);
    lemma_decimal_round_trip(ip@[2] as nat);
    lemma_decimal_round_trip(ip@[3] as nat);
    reveal_strlit(".");
    let dot = seq!['.'];
    assert("."@ =~= dot);
    let s = crate::kron::bootstrap::ipv4_text(ip@);
    lemma_one_piece(d, '.');
    lemma_first_piece(c, '.', d);
    lemma_first_piece(b, '.', c + dot + d);
    lemma_first_piece(a, '.', b + dot + (c + dot + d));
    assert(s =~= a + dot + (b + dot + (c + dot + d)));
    let p = pieces(s, dot);
    assert(p =~= seq![a, b, c, d]);
    assert(parsed_ipv4(s)->0 =~= ip@);
}

/// A socket address that is written out names itself.
pub proof fn law_peer_text_round_trip(ip: [u8; 4], port: u16)
    ensures
        parsed_socket((TargetView::V4 { ip, port }).text()) == Some((ip@, port)),
        parsed_peer((TargetView::V4 { ip, port }).text()) == Ok::<TargetView, Seq<char>>(
            TargetView::V4 { ip, port },
        ),
{
    let h = crate::kron::bootstrap::ipv4_text(ip@);
    let n = decimal_text(port as nat);
    let s = (TargetView::V4 { ip, port }).text();
    law_ipv4_round_trip(ip);
    lemma_socket_chars(ip, port);
    lemma_decimal_round_trip(port as nat);
    reveal_strlit(":");
    assert(":"@ =~= seq![':']);
    assert(s =~= h + seq![':'] + n);
    assert forall|k: int| 0 <= k < h.len() implies #[trigger] h[k] != ':' by {
        assert(s[k] == h[k]);
    }
    assert forall|k: int| 0 <= k < n.len() implies #[trigger] n[k] != ':' by {
        assert(is_digit(n[k]));
    }
    lemma_one_piece(n, ':');
    lemma_first_piece(h, ':', n);
    assert(pieces(s, seq![':']) =~= seq![h, n]);
    assert(trimmed(s) == s) by {
        assert(is_digit(s[0]));
        assert(is_digit(n[n.len() - 1]));
        lemma_nothing_to_trim(s);
    }
    assert(!is_placeholder(s)) by {
        lemma_no_placeholder(s);
    }
    lemma_four(ip);
}

/// The characters of a socket address.
pub proof fn lemma_socket_chars(ip: [u8; 4], port: u16)
    ensures
        ({
            let h = crate::kron::bootstrap::ipv4_text(ip@);
            let s = (TargetView::V4 { ip, port }).text();
            &&& h.len() > 0
            &&& is_digit(s[0])
            &&& forall|k: int| 0 <= k < h.len() ==> #[trigger] s[k] == '.' || is_digit(s[k])
            &&& forall|k: int|
                0 <= k < s.len() ==> #[trigger] s[k] == '.' || s[k] == ':' || is_digit(s[k])
        }),
{
    lemma_decimal_round_trip(ip@[0] as nat);
    lemma_decimal_round_trip(ip@[1] as nat);
    lemma_decimal_round_trip(ip@[2] as nat);
    lemma_decimal_round_trip(ip@[3] as nat);
    lemma_decimal_round_trip(port as nat);
    reveal_strlit(".");
    reveal_strlit(":");
    let (a, b, c, d, n) = (
        decimal_text(ip@[0] as nat),
        decimal_text(ip@[1] as nat),
        decimal_text(ip@[2] as nat),
        decimal_text(ip@[3] as nat),
        decimal_text(port as nat),
    );
    let ab = a + "."@ + b;
    let abc = ab + "."@ + c;
    let h = abc + "."@ + d;
    let s = h + ":"@ + n;
    assert(h == crate::kron::bootstrap::ipv4_text(ip@));
    assert(s == (TargetView::V4 { ip, port }).text());
    assert forall|k: int| 0 <= k < ab.len() implies #[trigger] ab[k] == '.' || is_digit(ab[k]) by {
        if k < a.len() {
            assert(is_digit(a[k]));
        } else if k > a.len() {
            assert(is_digit(b[k - a.len() - 1]));
        }
    }
    assert forall|k: int| 0 <= k < abc.len() implies #[trigger] abc[k] == '.' || is_digit(abc[k]) by {
        if k < ab.len() {
            assert(abc[k] == ab[k]);
        } else if k > ab.len() {
            assert(is_digit(c[k - ab.len() - 1]));
        }
    }
    assert forall|k: int| 0 <= k < h.len() implies #[trigger] h[k] == '.' || is_digit(h[k]) by {
        if k < abc.len() {
            assert(h[k] == abc[k]);
        } else if k > abc.len() {
            assert(is_digit(d[k - abc.len() - 1]));
        }
    }
    assert forall|k: int| 0 <= k < s.len() implies #[trigger] s[k] == '.' || s[k] == ':'
        || is_digit(s[k]) by {
        if k < h.len() {
            assert(s[k] == h[k]);
        } else if k > h.len() {
            assert(is_digit(n[k - h.len() - 1]));
        }
    }
    assert forall|k: int| 0 <= k < h.len() implies #[trigger] s[k] == '.' || is_digit(s[k]) by {
        assert(s[k] == h[k]);
    }
    assert(is_digit(a[0]));
    assert(s[0] == a[0]);
}

/// No template entry is made of digits, dots and colons.
proof fn lemma_no_placeholder(s: Seq<char>)
    requires
        forall|k: int| 0 <= k < s.len() ==> #[trigger] s[k] == '.' || s[k] == ':' || is_digit(s[k]),
    ensures
        !is_placeholder(s),
{
    let u = uppered(s);
    reveal_strlit("YOUR_VPS");
    reveal_strlit("YOUR_IP");
    reveal_strlit("<VPS");
    reveal_strlit("PLACEHOLDER");
    reveal_strlit("PHONE1_IP");
    reveal_strlit("PHONE_IP");
    assert forall|k: int| 0 <= k < u.len() implies #[trigger] u[k] == s[k] by {
        assert(s[k] == '.' || s[k] == ':' || is_digit(s[k]));
    }
    assert forall|w: Seq<char>, i: int| w.len() > 0 && (w[0] == 'Y' || w[0] == '<' || w[0] == 'P')
        implies !(#[trigger] found_at(u, w, i)) by {
        if found_at(u, w, i) {
            assert(u.subrange(i, i + w.len())[0] == w[0]);
            assert(u[i] == s[i]);
        }
    }
}

/// A peer that is written out is the one that is dialled: by the phone's `--bootstrap` and
/// `--node`, and by the node's `--follow`, `--bootstrap` and `--node`.
pub proof fn law_peer_is_taken(
    p: PhoneView,
    q: NodeView,
    raw: Seq<Seq<char>>,
    i: int,
    ip: [u8; 4],
    port: u16,
)
    requires
        0 <= i < raw.len() - 1,
        raw[i + 1] == (TargetView::V4 { ip, port }).text(),
    ensures
        raw[i] == "--bootstrap"@ || raw[i] == "--node"@ ==> p.with_argument(raw, i) == Ok::<
            (PhoneView, int),
            Seq<char>,
        >((PhoneView { bootstrap: Some(TargetView::V4 { ip, port }), ..p }, i + 2)),
        raw[i] == "--follow"@ || raw[i] == "--bootstrap"@ || raw[i] == "--node"@
            ==> q.with_argument(raw, i) == Ok::<(NodeView, int), Seq<char>>(
            (NodeView { follow: Some(TargetView::V4 { ip, port }), ..q }, i + 2),
        ),
{
    let f = raw[i];
    let s = raw[i + 1];
    if f == "--bootstrap"@ || f == "--node"@ || f == "--follow"@ {
        lemma_valued(f);
        lemma_valued_differ();
        law_peer_text_round_trip(ip, port);
        lemma_socket_chars(ip, port);
        lemma_decimal_round_trip(port as nat);
        let n = decimal_text(port as nat);
        assert(s.last() == n.last());
        assert(is_digit(n[n.len() - 1]));
        lemma_plain(s);
        reveal(PhoneView::with_argument);
        reveal(NodeView::with_argument);
    }
}

/// The switches of a node.
pub proof fn law_node_switches(q: NodeView, raw: Seq<Seq<char>>, i: int)
    requires
        0 <= i < raw.len(),
    ensures
        raw[i] == "--hub"@ ==> q.with_argument(raw, i) == Ok::<(NodeView, int), Seq<char>>(
            (NodeView { public_hub: true, ..q }, i + 1),
        ),
        raw[i] == "--read-only"@ ==> q.with_argument(raw, i) == Ok::<(NodeView, int), Seq<char>>(
            (NodeView { read_only: true, ..q }, i + 1),
        ),
        raw[i] == "--no-discovery"@ ==> q.with_argument(raw, i) == Ok::<(NodeView, int), Seq<char>>(
            (NodeView { no_discovery: true, ..q }, i + 1),
        ),
        raw[i] == "--print-identity"@ ==> q.with_argument(raw, i) == Ok::<
            (NodeView, int),
            Seq<char>,
        >((NodeView { print_identity: true, ..q }, i + 1)),
        raw[i] == "--no-mine"@ ==> q.with_argument(raw, i) == Ok::<(NodeView, int), Seq<char>>(
            (q, i + 1),
        ),
{
    let f = raw[i];
    if f == "--hub"@ || f == "--read-only"@ || f == "--no-discovery"@ || f == "--print-identity"@
        || f == "--no-mine"@ {
        lemma_flag_letters();
        reveal_strlit("--hub");
        reveal_strlit("--read-only");
        reveal_strlit("--no-discovery");
        reveal_strlit("--print-identity");
        reveal_strlit("--no-mine");
        reveal_strlit("--port");
        reveal_strlit("--explorer-port");
        reveal_strlit("--data-dir");
        reveal_strlit("--bootstrap");
        reveal_strlit("--node");
        reveal_strlit("--follow");
        reveal_strlit("--name");
        reveal_strlit("--public-ip");
        reveal_strlit("--mine");
        reveal_strlit("--miner-only");
        reveal_strlit("--miner-ui");
        reveal_strlit("--reward-address");
        reveal_strlit("--miner-address");
        lemma_plain(f);
        assert forall|k: int| 0 <= k < f.len() implies #[trigger] f[k] != '=' by {
        }
        assert(!f.contains('='));
        reveal(NodeView::with_argument);
    }
}

/// What the flags of a phone lead to: the wallet commands go first, then the hub, then mining,
/// which needs an address or asks for one, and without any of these there is the menu.
pub proof fn law_what_a_phone_does(c: PhoneView)
    ensures
        c.task() == Ok::<PhoneTask, Seq<char>>(PhoneTask::Generate) <==> c.generate,
        c.task() == Ok::<PhoneTask, Seq<char>>(PhoneTask::ShowMnemonic) <==> c.show_mnemonic
            && !c.generate,
        c.task() == Ok::<PhoneTask, Seq<char>>(PhoneTask::Hub) <==> c.hub_only && !c.generate
            && !c.show_mnemonic,
        c.task() == Ok::<PhoneTask, Seq<char>>(PhoneTask::Mine) <==> c.mine && c.reward is Some
            && !c.generate && !c.show_mnemonic && !c.hub_only,
        c.task() == Ok::<PhoneTask, Seq<char>>(PhoneTask::AskReward) <==> c.mine && c.prompt_mine
            && c.reward is None && !c.generate && !c.show_mnemonic && !c.hub_only,
        c.task() == Ok::<PhoneTask, Seq<char>>(PhoneTask::Menu) <==> !c.mine && !c.generate
            && !c.show_mnemonic && !c.hub_only,
        c.task() is Err ==> c.task() == Err::<PhoneTask, Seq<char>>(REWARD_REQUIRED@),
{
}

/// What a node runs as. `--hub` makes a hub of every host; an ARM host without it is a phone's
/// hub unless it only reads; a PC is a hub unless it follows or only reads.
pub proof fn law_what_a_node_runs_as(hub: bool, read_only: bool, follows: bool, x86: bool)
    ensures
        hub ==> mode_of(hub, read_only, follows, x86) == NodeRunMode::PublicHub,
        !hub && !x86 ==> mode_of(hub, read_only, follows, x86) == (if read_only {
            NodeRunMode::Viewer
        } else {
            NodeRunMode::PhoneHub
        }),
        !hub && x86 ==> mode_of(hub, read_only, follows, x86) == (if read_only || follows {
            NodeRunMode::Viewer
        } else {
            NodeRunMode::PublicHub
        }),
{
}

/// What a node does in each mode: a phone's hub is an edge miner on a phone, the others are core
/// validators on a PC; a viewer hands nothing on and sends no beacons; only the public hub
/// leaves the default hub alone; and a viewer follows whom it meets.
pub proof fn law_what_a_node_does(no_discovery: bool, told: bool)
    ensures
        ({
            let hub = setup_of(NodeRunMode::PublicHub, no_discovery);
            let viewer = setup_of(NodeRunMode::Viewer, no_discovery);
            let phone = setup_of(NodeRunMode::PhoneHub, no_discovery);
            &&& phone.role == PeerRole::EdgeMiner && phone.class == DeviceClass::LegacyMobile
            &&& hub.role == PeerRole::CoreValidator && hub.class == DeviceClass::PersonalComputer
            &&& viewer.role == PeerRole::CoreValidator && viewer.class
                == DeviceClass::PersonalComputer
            &&& hub.gossips && phone.gossips && !viewer.gossips
            &&& hub.beacons == !no_discovery && phone.beacons == !no_discovery && !viewer.beacons
            &&& !hub.dials_default && viewer.dials_default && phone.dials_default
        }),
        link_of(NodeRunMode::Viewer, told) == PeerLink::Follow,
        link_of(NodeRunMode::PublicHub, true) == PeerLink::Follow,
        link_of(NodeRunMode::PhoneHub, true) == PeerLink::Follow,
        link_of(NodeRunMode::PublicHub, false) == PeerLink::Dial,
        link_of(NodeRunMode::PhoneHub, false) == PeerLink::Dial,
{
}

/// The lines of the menu that mean something.
pub proof fn law_menu_lines(line: Seq<char>)
    ensures
        menu_choice_of(line) == MenuChoice::Generate <==> trimmed(line) == "1"@,
        menu_choice_of(line) == MenuChoice::Mine <==> trimmed(line) == "2"@,
        menu_choice_of(line) == MenuChoice::Quit <==> trimmed(line) == "q"@ || trimmed(line) == "Q"@,
{
    reveal_strlit("1");
    reveal_strlit("2");
    reveal_strlit("q");
    reveal_strlit("Q");
    assert("1"@[0] == '1' && "2"@[0] == '2' && "q"@[0] == 'q' && "Q"@[0] == 'Q');
}

/// A peer is listed where some source names it, and no other peer is, but for the default hub,
/// which stands in for all sources where they name nobody.
pub proof fn law_every_source_is_heard(
    cli: Option<TargetView>,
    env: Option<Seq<char>>,
    file: Option<Seq<char>>,
    use_default: bool,
    a: Seq<TargetView>,
    b: Seq<TargetView>,
    t: TargetView,
)
    requires
        source_peers(env) == Ok::<Seq<TargetView>, Seq<char>>(a),
        source_peers(file) == Ok::<Seq<TargetView>, Seq<char>>(b),
    ensures
        resolved_sources(cli, env, file, use_default) is Ok,
        ({
            let peers = resolved_sources(cli, env, file, use_default)->Ok_0;
            let named = cli is Some || a.len() > 0 || b.len() > 0;
            &&& named ==> (peers.contains(t) <==> cli == Some(t) || a.contains(t) || b.contains(t))
            &&& !named && !use_default ==> peers.len() == 0
            &&& !named && use_default ==> peers == seq![
                TargetView::V4 { ip: crate::kron::bootstrap::default_ip(), port: 8000 },
            ]
        }),
{
    let first: Seq<TargetView> = match cli {
        Some(x) => seq![x],
        None => Seq::empty(),
    };
    if cli is Some {
        assert(first[0] == cli->0);
    }
    lemma_with_peers_has(first, a, t);
    lemma_with_peers_has(with_peers(first, a), b, t);
    lemma_with_peers_len(first, a);
    lemma_with_peers_len(with_peers(first, a), b);
}

proof fn lemma_with_peers_has(list: Seq<TargetView>, more: Seq<TargetView>, t: TargetView)
    ensures
        with_peers(list, more).contains(t) <==> list.contains(t) || more.contains(t),
    decreases more.len(),
{
    if more.len() > 0 {
        let h = more.drop_last();
        lemma_with_peers_has(list, h, t);
        let head = with_peers(list, h);
        assert(more =~= h.push(more.last()));
        assert(more.contains(t) <==> h.contains(t) || t == more.last()) by {
            if h.contains(t) {
                let k = choose|k: int| 0 <= k < h.len() && h[k] == t;
                assert(more[k] == t);
            }
            assert(more[more.len() - 1] == more.last());
            if more.contains(t) && t != more.last() {
                let k = choose|k: int| 0 <= k < more.len() && more[k] == t;
                assert(h[k] == t);
            }
        }
        let grown = head.push(more.last());
        assert(grown.contains(t) <==> head.contains(t) || t == more.last()) by {
            if head.contains(t) {
                let k = choose|k: int| 0 <= k < head.len() && head[k] == t;
                assert(grown[k] == t);
            }
            assert(grown[grown.len() - 1] == more.last());
            if grown.contains(t) && t != more.last() {
                let k = choose|k: int| 0 <= k < grown.len() && grown[k] == t;
                assert(head[k] == t);
            }
        }
    }
}

proof fn lemma_with_peers_len(list: Seq<TargetView>, more: Seq<TargetView>)
    ensures
        with_peers(list, more).len() >= list.len(),
        list.len() > 0 || more.len() > 0 ==> with_peers(list, more).len() > 0,
    decreases more.len(),
{
    if more.len() > 0 {
        lemma_with_peers_len(list, more.drop_last());
    }
}

/// A hub knows itself: its own port, at the loopback, the unspecified, its advertised or its LAN
/// address, and at no other.
pub proof fn law_own_addresses(
    ip: [u8; 4],
    peer_port: u16,
    port: u16,
    advertised: Option<[u8; 4]>,
    lan: Option<[u8; 4]>,
)
    ensures
        is_self(PeerAddr::V4 { ip, port: peer_port }, port, advertised, lan) <==> peer_port == port
            && (ip@ =~= seq![0u8, 0, 0, 0] || ip@[0] == 127 || advertised == Some(ip) || lan
            == Some(ip)),
{
    let p = PeerAddr::V4 { ip, port: peer_port };
    assert(p.port_number() == peer_port);
    assert(p.loopback() == (ip@[0] == 127));
    if ip@ =~= seq![0u8, 0, 0, 0] {
        assert(crate::kron::bootstrap::is_unspecified(ip@));
    }
    if crate::kron::bootstrap::is_unspecified(ip@) {
        assert(ip@[0] == 0 && ip@[1] == 0 && ip@[2] == 0 && ip@[3] == 0);
    }
}

/// A phone asks its text sources unless it was told to stay off and given no peer.
pub proof fn law_when_sources_are_asked(has_cli: bool)
    ensures
        asks_sources(has_cli, false),
        asks_sources(true, true),
        !asks_sources(false, true),
{
}

/// An address in the menu means itself, and so does one behind the menu's choice.
pub proof fn law_menu_takes_an_address(payload: Seq<u8>)
    requires
        payload.len() == 32,
    ensures
        parsed_menu_line(kron_text(payload)) == Ok::<Address, Seq<char>>(array_of(payload)),
        is_mine_token(kron_text(payload)),
{
    lemma_address_input(payload);
    lemma_address_parses(payload);
    lemma_address_text(payload);
}

/// The flags that ask a phone to mine.
pub proof fn law_mining_flags()
    ensures
        is_mine_token("--mine"@),
        is_mine_token("--miner-only"@),
        is_mine_token("--miner-ui"@),
        is_mine_token("--reward-address"@),
        is_mine_token("--miner-address"@),
{
    lemma_mine_token("--mine"@);
    lemma_mine_token("--miner-only"@);
    lemma_mine_token("--miner-ui"@);
    lemma_mine_token("--reward-address"@);
    lemma_mine_token("--miner-address"@);
}

proof fn lemma_mine_token(f: Seq<char>)
    requires
        is_mine_flag(f),
    ensures
        is_mine_token(f),
{
    reveal_strlit("--mine");
    reveal_strlit("--miner-only");
    reveal_strlit("--miner-ui");
    reveal_strlit("--reward-address");
    reveal_strlit("--miner-address");
    lemma_flag_letters();
    lemma_plain(f);
    assert forall|k: int| 0 <= k < f.len() implies #[trigger] f[k] != '=' by {
    }
    assert(!f.contains('='));
}

/// What a phone does with a line: help goes first, then a grant, and else the flags decide.
pub proof fn law_what_a_phone_line_means(raw: Seq<Seq<char>>, c: PhoneView)
    ensures
        raw.contains("--help"@) || raw.contains("-h"@) ==> phone_command_of(raw) == Ok::<
            PhoneCommandView,
            Seq<char>,
        >(PhoneCommandView::Help),
        !raw.contains("--help"@) && !raw.contains("-h"@) && (raw.len() == 0 || raw[0] != "credit"@)
            && PhoneView::defaults().with_arguments(raw, 0) == Ok::<PhoneView, Seq<char>>(c)
            ==> phone_command_of(raw) == (match c.task() {
            Ok(t) => Ok::<PhoneCommandView, Seq<char>>(PhoneCommandView::Run(t, c)),
            Err(e) => Err(e),
        }),
{
}

/// The flags of a grant: to whom, how much, and where the graph lies. Only a node's has a port.
pub proof fn law_grant_flags(p: OrderArgs, raw: Seq<Seq<char>>, i: int, a: Address, port: u16, node: bool)
    requires
        0 <= i < raw.len() - 1,
    ensures
        raw[i] == "--to"@ && raw[i + 1] == kron_text(a@) ==> p.with_argument(raw, i, node) == Ok::<
            OrderArgs,
            Seq<char>,
        >(OrderArgs { to: Some(a), ..p }),
        raw[i] == "--amount"@ ==> p.with_argument(raw, i, node) == Ok::<OrderArgs, Seq<char>>(
            OrderArgs { amount: Some(raw[i + 1]), ..p },
        ),
        raw[i] == "--data-dir"@ ==> p.with_argument(raw, i, node) == Ok::<OrderArgs, Seq<char>>(
            OrderArgs { data_dir: Some(raw[i + 1]), ..p },
        ),
        raw[i] == "--port"@ && raw[i + 1] == decimal_text(port as nat) && node ==> p.with_argument(
            raw,
            i,
            node,
        ) == Ok::<OrderArgs, Seq<char>>(OrderArgs { port, ..p }),
        raw[i] == "--port"@ && !node ==> p.with_argument(raw, i, node) is Err,
{
    reveal(OrderArgs::with_argument);
    reveal_strlit("--to");
    reveal_strlit("--amount");
    assert("--to"@.len() == 4 && "--amount"@.len() == 8);
    lemma_flag_letters();
    lemma_decimal_round_trip(port as nat);
    assert(is_digit(decimal_text(port as nat)[0]));
    crate::kron::bech32::law_kron_round_trip(a@);
    crate::kron::bech32::lemma_kron_text_has_no_filler(a@);
    crate::dag::tx::lemma_array_of(a);
}

/// The flags of the phone miner that take a text or a peer, and its switch.
pub proof fn law_miner_flags(p: MinerArgs, raw: Seq<Seq<char>>, i: int, ip: [u8; 4], port: u16)
    requires
        0 <= i < raw.len() - 1,
    ensures
        raw[i] == "--phone"@ ==> p.with_argument(raw, i) == Ok::<(MinerArgs, int), Seq<char>>(
            (MinerArgs { phone: true, ..p }, i + 1),
        ),
        raw[i] == "--data-dir"@ && raw[i + 1].len() > 0 && cli_value(raw[i + 1]) == raw[i + 1]
            ==> p.with_argument(raw, i) == Ok::<(MinerArgs, int), Seq<char>>(
            (MinerArgs { data_dir: Some(raw[i + 1]), ..p }, i + 2),
        ),
        (raw[i] == "--node"@ || raw[i] == "--bootstrap"@) && raw[i + 1] == (TargetView::V4 {
            ip,
            port,
        }).text() ==> p.with_argument(raw, i) == Ok::<(MinerArgs, int), Seq<char>>(
            (MinerArgs { node: Some(TargetView::V4 { ip, port }), ..p }, i + 2),
        ),
{
    let f = raw[i];
    reveal(MinerArgs::with_argument);
    lemma_flag_letters();
    if f == "--phone"@ {
        lemma_switch(f);
    } else if f == "--data-dir"@ {
        lemma_valued(f);
    } else if (f == "--node"@ || f == "--bootstrap"@) && raw[i + 1] == (TargetView::V4 {
        ip,
        port,
    }).text() {
        lemma_valued(f);
        lemma_peer_is_plain(ip, port);
        law_peer_text_round_trip(ip, port);
        lemma_four(ip);
    }
}

proof fn lemma_peer_is_plain(ip: [u8; 4], port: u16)
    ensures
        cli_value((TargetView::V4 { ip, port }).text()) == (TargetView::V4 { ip, port }).text(),
        (TargetView::V4 { ip, port }).text().len() > 0,
{
    let s = (TargetView::V4 { ip, port }).text();
    lemma_socket_chars(ip, port);
    lemma_decimal_round_trip(port as nat);
    let n = decimal_text(port as nat);
    assert(s.last() == n.last());
    assert(is_digit(n[n.len() - 1]));
    lemma_plain(s);
}

} // verus!
