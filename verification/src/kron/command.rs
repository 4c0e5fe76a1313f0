//! What the programs are asked to do, and how a node is set up for it.

use vstd::prelude::*;
use vstd::slice::slice_subrange;

use crate::anti_bot::profile::DeviceClass;
use crate::kron::bootstrap::{is_self, is_self_hub_target};
use crate::kron::cli::{join_flags, joined_flags, parse_node_cli, parse_phone_cli, unknown_text,
    NodeCli, NodeRunMode, NodeView, PhoneCli, PhoneView, NODE_FLAGS, NODE_MINE_REFUSAL, PHONE_FLAGS};
use crate::kron::credit::{parse_money_cmd, CreditOrder, OrderArgs, OrderView};
use crate::p2p::peer::{PeerAddr, PeerRole};
use crate::text::{begins_with as text_begins_with, chars_of, owned, push_text, same_chars,
    same_text, starts_with, sub_chars, text_of, text_views, trim, trimmed};

verus! {

/// What `kron-node --mine` is told.
pub const NODE_MINES_NOT: &'static str =
    "mining is phone-only. On Termux run kron-phone (node+miner). This PC is a read-only explorer.";

/// What `kron-node send` is told.
pub const NODE_SEND_REFUSAL: &'static str =
    "kron-node does not send. Phones attach vertices (Termux kron-phone).";

/// What a phone is told that shall mine to nobody.
pub const REWARD_REQUIRED: &'static str = "--mine requires --reward-address kron1...";

/// What `kron-node` is asked to do.
#[derive(Debug)]
pub enum NodeCommand {
    Help,
    Credit(CreditOrder),
    /// Print the identity and stop.
    Identity(NodeCli),
    Serve(NodeCli),
}

/// A command of `kron-node` as mathematical data.
pub enum NodeCommandView {
    Help,
    Credit(OrderView),
    Identity(NodeView),
    Serve(NodeView),
}

impl View for NodeCommand {
    type V = NodeCommandView;

    open spec fn view(&self) -> NodeCommandView {
        match self {
            NodeCommand::Help => NodeCommandView::Help,
            NodeCommand::Credit(o) => NodeCommandView::Credit(o@),
            NodeCommand::Identity(c) => NodeCommandView::Identity(c@),
            NodeCommand::Serve(c) => NodeCommandView::Serve(c@),
        }
    }
}

/// Whether help is asked for, anywhere on the line.
pub open spec fn asks_help(raw: Seq<Seq<char>>) -> bool {
    raw.contains("--help"@) || raw.contains("-h"@)
}

/// Whether a mining flag stands anywhere on the line.
pub open spec fn asks_to_mine(raw: Seq<Seq<char>>) -> bool {
    raw.contains("--mine"@) || raw.contains("--miner-only"@) || raw.contains("--miner-ui"@)
}

/// Whether the line begins with a word.
pub open spec fn begins_with(raw: Seq<Seq<char>>, word: Seq<char>) -> bool {
    raw.len() > 0 && raw[0] == word
}

/// The order behind `credit`.
pub open spec fn order_of(raw: Seq<Seq<char>>, node: bool) -> Result<OrderView, Seq<char>> {
    OrderArgs::none().with_arguments(raw.skip(1), 0, node)
}

/// What follows an argument that is not known.
pub open spec fn flags_tail(flags: Seq<&'static str>) -> Seq<char> {
    "\nvalid flags: "@ + joined_flags(flags)
}

/// What a program prints of a fault in its flags: an unknown argument without the list of
/// the flags, a missing value by what it would be, and its own refusal to mine.
pub open spec fn program_text(e: Seq<char>, flags: Seq<&'static str>) -> Seq<char> {
    let tail = flags_tail(flags);
    let cut = e.len() - tail.len();
    if e == NODE_MINE_REFUSAL@ {
        NODE_MINES_NOT@
    } else if e == "--data-dir requires a value"@ {
        "--data-dir requires a path"@
    } else if e == "--follow requires a value"@ {
        "--follow/--bootstrap requires IP:PORT"@
    } else if e == "--bootstrap requires a value"@ {
        "--bootstrap requires IP:PORT"@
    } else if text_begins_with(e, "unknown argument: "@) && cut >= 0 && e.skip(cut) == tail {
        e.take(cut)
    } else {
        e
    }
}

fn in_program_text(e: String, flags: &[&'static str]) -> (r: String)
    ensures
        r@ == program_text(e@, flags@),
{
    if same_text(e.as_str(), NODE_MINE_REFUSAL) {
        return owned(NODE_MINES_NOT);
    }
    if same_text(e.as_str(), "--data-dir requires a value") {
        return owned("--data-dir requires a path");
    }
    if same_text(e.as_str(), "--follow requires a value") {
        return owned("--follow/--bootstrap requires IP:PORT");
    }
    if same_text(e.as_str(), "--bootstrap requires a value") {
        return owned("--bootstrap requires IP:PORT");
    }
    let whole = chars_of(e.as_str());
    if !starts_with(whole.as_slice(), chars_of("unknown argument: ").as_slice()) {
        return e;
    }
    let mut tail = String::new();
    push_text(&mut tail, "\nvalid flags: ");
    push_text(&mut tail, join_flags(flags).as_str());
    let end = chars_of(tail.as_str());
    assert(end@ =~= flags_tail(flags@));
    if end.len() > whole.len() {
        return e;
    }
    let cut: usize = whole.len() - end.len();
    let rest = sub_chars(whole.as_slice(), cut, whole.len());
    assert(rest@ =~= e@.skip(cut as int));
    if !same_chars(rest.as_slice(), end.as_slice()) {
        return e;
    }
    assert(e@.subrange(0, cut as int) =~= e@.take(cut as int));
    text_of(sub_chars(whole.as_slice(), 0, cut).as_slice())
}

/// An argument that is not known is named, and nothing else is printed.
pub proof fn law_unknown_argument_is_named(arg: Seq<char>, flags: Seq<&'static str>)
    ensures
        program_text(unknown_text(arg, flags), flags) == "unknown argument: "@ + arg,
{
    let e = unknown_text(arg, flags);
    let head = "unknown argument: "@;
    reveal_strlit("unknown argument: ");
    reveal_strlit("--data-dir requires a value");
    reveal_strlit("--follow requires a value");
    reveal_strlit("--bootstrap requires a value");
    reveal_strlit(
        "mining is phone-only. On Termux run kron-phone --mine --reward-address kron1... (also --miner-address or positional kron1...). This PC is a read-only explorer.",
    );
    assert(e[0] == 'u');
    assert(e =~= head + arg + flags_tail(flags));
    let cut = e.len() - flags_tail(flags).len();
    assert(e.take(head.len() as int) =~= head);
    assert(e.skip(cut) =~= flags_tail(flags));
    assert(e.take(cut) =~= head + arg);
}

/// What `kron-node` does with a line: help before all else, then the refusals, then
/// the grant, then what the flags say.
pub open spec fn node_command_of(raw: Seq<Seq<char>>) -> Result<NodeCommandView, Seq<char>> {
    if asks_help(raw) {
        Ok(NodeCommandView::Help)
    } else if asks_to_mine(raw) {
        Err(NODE_MINES_NOT@)
    } else if begins_with(raw, "send"@) {
        Err(NODE_SEND_REFUSAL@)
    } else if begins_with(raw, "credit"@) {
        match order_of(raw, true) {
            Ok(o) => Ok(NodeCommandView::Credit(o)),
            Err(e) => Err(e),
        }
    } else {
        match NodeView::defaults().with_arguments(raw, 0) {
            Ok(c) => if c.print_identity {
                Ok(NodeCommandView::Identity(c))
            } else {
                Ok(NodeCommandView::Serve(c))
            },
            Err(e) => Err(program_text(e, NODE_FLAGS@)),
        }
    }
}

fn has_word(raw: &[String], word: &str) -> (r: bool)
    ensures
        r == text_views(raw@).contains(word@),
{
    let mut i: usize = 0;
    while i < raw.len()
        invariant
            0 <= i <= raw@.len(),
            forall|j: int| 0 <= j < i ==> text_views(raw@)[j] != word@,
        decreases raw.len() - i,
    {
        if same_text(raw[i].as_str(), word) {
            assert(text_views(raw@)[i as int] == word@);
            return true;
        }
        i += 1;
    }
    false
}

fn first_is(raw: &[String], word: &str) -> (r: bool)
    ensures
        r == begins_with(text_views(raw@), word@),
{
    raw.len() > 0 && same_text(raw[0].as_str(), word)
}

fn parse_order(raw: &[String], node: bool) -> (r: Result<CreditOrder, String>)
    requires
        raw@.len() > 0,
    ensures
        match r {
            Ok(o) => o.to.wf() && order_of(text_views(raw@), node) == Ok::<OrderView, Seq<char>>(o@),
            Err(e) => order_of(text_views(raw@), node) == Err::<OrderView, Seq<char>>(e@),
        },
{
    let rest = slice_subrange(raw, 1, raw.len());
    assert(text_views(rest@) =~= text_views(raw@).skip(1));
    parse_money_cmd(rest, node)
}

/// Reads the line of `kron-node`.
pub fn node_command(raw: &[String]) -> (r: Result<NodeCommand, String>)
    ensures
        match r {
            Ok(c) => node_command_of(text_views(raw@)) == Ok::<NodeCommandView, Seq<char>>(c@),
            Err(e) => node_command_of(text_views(raw@)) == Err::<NodeCommandView, Seq<char>>(e@),
        },
        r matches Ok(NodeCommand::Credit(o)) ==> o.to.wf(),
{
    if has_word(raw, "--help") || has_word(raw, "-h") {
        return Ok(NodeCommand::Help);
    }
    if has_word(raw, "--mine") || has_word(raw, "--miner-only") || has_word(raw, "--miner-ui") {
        return Err(owned(NODE_MINES_NOT));
    }
    if first_is(raw, "send") {
        return Err(owned(NODE_SEND_REFUSAL));
    }
    if first_is(raw, "credit") {
        return match parse_order(raw, true) {
            Ok(o) => Ok(NodeCommand::Credit(o)),
            Err(e) => Err(e),
        };
    }
    match parse_node_cli(raw) {
        Ok(c) => if c.print_identity {
            Ok(NodeCommand::Identity(c))
        } else {
            Ok(NodeCommand::Serve(c))
        },
        Err(e) => Err(in_program_text(e, NODE_FLAGS.as_slice())),
    }
}

/// What `kron-phone` does with its flags.
#[derive(Clone, Copy, Debug, PartialEq, Eq, Structural)]
pub enum PhoneTask {
    Generate,
    ShowMnemonic,
    Hub,
    /// Mine to the reward address that was given.
    Mine,
    /// Ask for a reward address, then mine.
    AskReward,
    Menu,
}

impl PhoneView {
    /// The task that the flags name: the wallet commands go before the hub, the hub
    /// before mining, and no flag at all opens the menu.
    pub open spec fn task(self) -> Result<PhoneTask, Seq<char>> {
        if self.generate {
            Ok(PhoneTask::Generate)
        } else if self.show_mnemonic {
            Ok(PhoneTask::ShowMnemonic)
        } else if self.hub_only {
            Ok(PhoneTask::Hub)
        } else if self.mine {
            if self.reward is Some {
                Ok(PhoneTask::Mine)
            } else if self.prompt_mine {
                Ok(PhoneTask::AskReward)
            } else {
                Err(REWARD_REQUIRED@)
            }
        } else {
            Ok(PhoneTask::Menu)
        }
    }
}

impl PhoneCli {
    pub fn task(&self) -> (r: Result<PhoneTask, String>)
        ensures
            match r {
                Ok(t) => self@.task() == Ok::<PhoneTask, Seq<char>>(t),
                Err(e) => self@.task() == Err::<PhoneTask, Seq<char>>(e@),
            },
    {
        if self.generate {
            Ok(PhoneTask::Generate)
        } else if self.show_mnemonic {
            Ok(PhoneTask::ShowMnemonic)
        } else if self.hub_only {
            Ok(PhoneTask::Hub)
        } else if self.mine {
            if self.reward.is_some() {
                Ok(PhoneTask::Mine)
            } else if self.prompt_mine {
                Ok(PhoneTask::AskReward)
            } else {
                Err(owned(REWARD_REQUIRED))
            }
        } else {
            Ok(PhoneTask::Menu)
        }
    }
}

/// What `kron-phone` is asked to do.
#[derive(Debug)]
pub enum PhoneCommand {
    Help,
    Credit(CreditOrder),
    Run(PhoneTask, PhoneCli),
}

/// A command of `kron-phone` as mathematical data.
pub enum PhoneCommandView {
    Help,
    Credit(OrderView),
    Run(PhoneTask, PhoneView),
}

impl View for PhoneCommand {
    type V = PhoneCommandView;

    open spec fn view(&self) -> PhoneCommandView {
        match self {
            PhoneCommand::Help => PhoneCommandView::Help,
            PhoneCommand::Credit(o) => PhoneCommandView::Credit(o@),
            PhoneCommand::Run(t, c) => PhoneCommandView::Run(*t, c@),
        }
    }
}

/// What `kron-phone` does with a line.
pub open spec fn phone_command_of(raw: Seq<Seq<char>>) -> Result<PhoneCommandView, Seq<char>> {
    if asks_help(raw) {
        Ok(PhoneCommandView::Help)
    } else if begins_with(raw, "credit"@) {
        match order_of(raw, false) {
            Ok(o) => Ok(PhoneCommandView::Credit(o)),
            Err(e) => Err(e),
        }
    } else {
        match PhoneView::defaults().with_arguments(raw, 0) {
            Ok(c) => match c.task() {
                Ok(t) => Ok(PhoneCommandView::Run(t, c)),
                Err(e) => Err(e),
            },
            Err(e) => Err(program_text(e, PHONE_FLAGS@)),
        }
    }
}

/// Reads the line of `kron-phone`.
pub fn phone_command(raw: &[String]) -> (r: Result<PhoneCommand, String>)
    ensures
        match r {
            Ok(c) => phone_command_of(text_views(raw@)) == Ok::<PhoneCommandView, Seq<char>>(c@),
            Err(e) => phone_command_of(text_views(raw@)) == Err::<PhoneCommandView, Seq<char>>(e@),
        },
        r matches Ok(PhoneCommand::Credit(o)) ==> o.to.wf(),
        r matches Ok(PhoneCommand::Run(_, c)) ==> c.wf(),
{
    if has_word(raw, "--help") || has_word(raw, "-h") {
        return Ok(PhoneCommand::Help);
    }
    if first_is(raw, "credit") {
        return match parse_order(raw, false) {
            Ok(o) => Ok(PhoneCommand::Credit(o)),
            Err(e) => Err(e),
        };
    }
    match parse_phone_cli(raw) {
        Ok(c) => match c.task() {
            Ok(t) => Ok(PhoneCommand::Run(t, c)),
            Err(e) => Err(e),
        },
        Err(e) => Err(in_program_text(e, PHONE_FLAGS.as_slice())),
    }
}

/// A line of the phone's menu.
#[derive(Clone, Copy, Debug, PartialEq, Eq, Structural)]
pub enum MenuChoice {
    Generate,
    Mine,
    Quit,
    Unknown,
}

/// The choice that a line means.
pub open spec fn menu_choice_of(line: Seq<char>) -> MenuChoice {
    let t = trimmed(line);
    if t == "1"@ {
        MenuChoice::Generate
    } else if t == "2"@ {
        MenuChoice::Mine
    } else if t == "q"@ || t == "Q"@ {
        MenuChoice::Quit
    } else {
        MenuChoice::Unknown
    }
}

pub fn menu_choice(line: &str) -> (r: MenuChoice)
    ensures
        r == menu_choice_of(line@),
{
    let t = text_of(trim(chars_of(line).as_slice()).as_slice());
    if same_text(t.as_str(), "1") {
        MenuChoice::Generate
    } else if same_text(t.as_str(), "2") {
        MenuChoice::Mine
    } else if same_text(t.as_str(), "q") || same_text(t.as_str(), "Q") {
        MenuChoice::Quit
    } else {
        MenuChoice::Unknown
    }
}

/// How a node presents itself and what it does with vertices.
#[derive(Clone, Copy, Debug, PartialEq, Eq, Structural)]
pub struct NodeSetup {
    pub role: PeerRole,
    pub class: DeviceClass,
    /// Stored vertices are announced, and new ones handed on.
    pub gossips: bool,
    /// LAN beacons are sent and heard.
    pub beacons: bool,
    /// Without a peer of its own choice the node dials the default hub.
    pub dials_default: bool,
}

/// The setup of a mode. Only an ARM host is a phone; a viewer hands nothing on; the
/// public hub does not dial itself.
pub open spec fn setup_of(mode: NodeRunMode, no_discovery: bool) -> NodeSetup {
    let phone = mode == NodeRunMode::PhoneHub;
    let viewer = mode == NodeRunMode::Viewer;
    NodeSetup {
        role: if phone {
            PeerRole::EdgeMiner
        } else {
            PeerRole::CoreValidator
        },
        class: if phone {
            DeviceClass::LegacyMobile
        } else {
            DeviceClass::PersonalComputer
        },
        gossips: !viewer,
        beacons: !viewer && !no_discovery,
        dials_default: mode != NodeRunMode::PublicHub,
    }
}

pub fn node_setup(mode: NodeRunMode, no_discovery: bool) -> (r: NodeSetup)
    ensures
        r == setup_of(mode, no_discovery),
{
    let phone = mode == NodeRunMode::PhoneHub;
    let viewer = mode == NodeRunMode::Viewer;
    NodeSetup {
        role: if phone {
            PeerRole::EdgeMiner
        } else {
            PeerRole::CoreValidator
        },
        class: if phone {
            DeviceClass::LegacyMobile
        } else {
            DeviceClass::PersonalComputer
        },
        gossips: !viewer,
        beacons: !viewer && !no_discovery,
        dials_default: mode != NodeRunMode::PublicHub,
    }
}

/// How a node holds on to a peer.
#[derive(Clone, Copy, Debug, PartialEq, Eq, Structural)]
pub enum PeerLink {
    /// Bodies are pulled at once, then the link is kept up.
    Follow,
    /// The peer is dialled as a hub.
    Dial,
}

/// A node follows the peer that it was told to follow; a viewer follows every peer.
pub open spec fn link_of(mode: NodeRunMode, told: bool) -> PeerLink {
    if told || mode == NodeRunMode::Viewer {
        PeerLink::Follow
    } else {
        PeerLink::Dial
    }
}

pub fn peer_link(mode: NodeRunMode, told: bool) -> (r: PeerLink)
    ensures
        r == link_of(mode, told),
{
    if told || mode == NodeRunMode::Viewer {
        PeerLink::Follow
    } else {
        PeerLink::Dial
    }
}

/// The peers that a node dials: those that are not the node itself, in order.
pub fn other_hubs(
    peers: Vec<PeerAddr>,
    listen_port: u16,
    advertised: Option<[u8; 4]>,
    lan: Option<[u8; 4]>,
) -> (r: Vec<PeerAddr>)
    ensures
        r@ == peers@.filter(|p: PeerAddr| !is_self(p, listen_port, advertised, lan)),
{
    let ghost f = |p: PeerAddr| !is_self(p, listen_port, advertised, lan);
    let mut out: Vec<PeerAddr> = Vec::new();
    let mut i: usize = 0;
    proof {
        reveal(Seq::filter);
        assert(peers@.take(0).filter(f) =~= out@);
    }
    while i < peers.len()
        invariant
            0 <= i <= peers@.len(),
            f == (|p: PeerAddr| !is_self(p, listen_port, advertised, lan)),
            out@ == peers@.take(i as int).filter(f),
        decreases peers.len() - i,
    {
        proof {
            assert(peers@.take(i as int + 1) =~= peers@.take(i as int).push(peers@[i as int]));
            peers@.take(i as int).lemma_filter_push(peers@[i as int], f);
        }
        if !is_self_hub_target(peers[i], listen_port, advertised, lan) {
            out.push(peers[i]);
        }
        i += 1;
    }
    assert(peers@.take(i as int) =~= peers@);
    out
}

/// `kron-node` never mines: a line with a mining flag comes to help or to a refusal.
pub proof fn law_mining_line_is_refused(raw: Seq<Seq<char>>)
    requires
        asks_to_mine(raw),
    ensures
        node_command_of(raw) == Ok::<NodeCommandView, Seq<char>>(NodeCommandView::Help)
            || node_command_of(raw) == Err::<NodeCommandView, Seq<char>>(NODE_MINES_NOT@),
{
}

/// A phone mines only to an address that it was given or asks for.
pub proof fn law_phone_mines_to_someone(c: PhoneView)
    requires
        c.task() == Ok::<PhoneTask, Seq<char>>(PhoneTask::Mine),
    ensures
        c.reward is Some,
        !c.generate && !c.show_mnemonic && !c.hub_only,
{
}

/// A PC hands itself out as a PC in every mode, and a viewer never gossips.
pub proof fn law_setup_of_a_pc(
    hub_flag: bool,
    read_only: bool,
    explicit_follow: bool,
    no_discovery: bool,
    mode: NodeRunMode,
)
    requires
        crate::kron::cli::mode_of(hub_flag, read_only, explicit_follow, true) == mode,
    ensures
        setup_of(mode, no_discovery).class == DeviceClass::PersonalComputer,
        setup_of(mode, no_discovery).role == PeerRole::CoreValidator,
        mode == NodeRunMode::Viewer ==> !setup_of(mode, no_discovery).gossips,
{
}

} // verus!
