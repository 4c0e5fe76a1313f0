//! The arguments of `kron-phone-miner`.

use vstd::prelude::*;

use crate::kron::bootstrap::{four, lemma_four, parse_socket, parsed_socket, PeerTarget, TargetView};
use crate::kron::cli::{clean, cli_value, flag_parts, inline_view, means_address, means_kron1,
    parse_address, parsed_address, split_flag, take_reward, take_value, taken_reward, taken_value,
    unknown_argument, unknown_text, PHONE_MINER_FLAGS};
use crate::kron::wallet::KronAddress;
use crate::text::{chars_of, owned, push_text, same_text, text_of, text_views};
use crate::types::Address;

verus! {

/// A parsed command line of `kron-phone-miner`.
#[derive(Debug)]
pub struct PhoneMinerCli {
    /// The gateway. A bracketed address is left to the caller's own parser.
    pub node: PeerTarget,
    pub reward: KronAddress,
    pub data_dir: String,
    /// Attest as a phone.
    pub phone: bool,
}

/// What the arguments have said so far.
struct Given {
    node: Option<PeerTarget>,
    reward: Option<KronAddress>,
    data_dir: Option<String>,
    phone: bool,
}

/// Arguments as mathematical data.
#[verifier::ext_equal]
pub struct MinerArgs {
    pub node: Option<TargetView>,
    pub reward: Option<Address>,
    pub data_dir: Option<Seq<char>>,
    pub phone: bool,
}

/// A command line as mathematical data.
#[verifier::ext_equal]
pub struct MinerView {
    pub node: TargetView,
    pub reward: Address,
    pub data_dir: Seq<char>,
    pub phone: bool,
}

impl View for PhoneMinerCli {
    type V = MinerView;

    open spec fn view(&self) -> MinerView {
        MinerView {
            node: self.node@,
            reward: self.reward@,
            data_dir: self.data_dir@,
            phone: self.phone,
        }
    }
}

impl View for Given {
    type V = MinerArgs;

    closed spec fn view(&self) -> MinerArgs {
        MinerArgs {
            node: match self.node {
                Some(n) => Some(n@),
                None => None,
            },
            reward: match self.reward {
                Some(a) => Some(a@),
                None => None,
            },
            data_dir: match self.data_dir {
                Some(d) => Some(d@),
                None => None,
            },
            phone: self.phone,
        }
    }
}

/// The refusal of a gateway that is no `IP:PORT`.
pub open spec fn invalid_node(v: Seq<char>) -> Seq<char> {
    "invalid --node '"@ + v + "'"@
}

/// The gateway that a text names.
pub open spec fn parsed_node(v: Seq<char>) -> Result<TargetView, Seq<char>> {
    match parsed_socket(v) {
        Some((ip, port)) => Ok(TargetView::V4 { ip: four(ip), port }),
        None => if v.len() > 0 && v[0] == '[' {
            Ok(TargetView::Host(v))
        } else {
            Err(invalid_node(v))
        },
    }
}

/// The refusal of a gateway that is no `IP:PORT`.
pub fn invalid_node_message(v: &str) -> (r: String)
    ensures
        r@ == invalid_node(v@),
{
    let mut out = owned("invalid --node '");
    push_text(&mut out, v);
    push_text(&mut out, "'");
    out
}

fn parse_node(v: &str) -> (r: Result<PeerTarget, String>)
    ensures
        match r {
            Ok(t) => parsed_node(v@) == Ok::<TargetView, Seq<char>>(t@),
            Err(e) => parsed_node(v@) == Err::<TargetView, Seq<char>>(e@),
        },
{
    let chars = chars_of(v);
    match parse_socket(chars.as_slice()) {
        Some((ip, port)) => {
            proof {
                lemma_four(ip);
            }
            Ok(PeerTarget::V4 { ip, port })
        },
        None => if chars.len() > 0 && chars[0] == '[' {
            Ok(PeerTarget::Host(owned(v)))
        } else {
            Err(invalid_node_message(v))
        },
    }
}

impl MinerArgs {
    /// No argument given.
    pub open spec fn none() -> MinerArgs {
        MinerArgs { node: None, reward: None, data_dir: None, phone: false }
    }

    /// A positional reward address.
    pub open spec fn with_address(self, word: Seq<char>) -> Result<MinerArgs, Seq<char>> {
        match parsed_address(word) {
            Ok(a) => Ok(MinerArgs { reward: Some(a), ..self }),
            Err(e) => Err(e),
        }
    }

    /// The flag at `i`, with the place that the parse has come to.
    pub open spec fn with_flag(
        self,
        flag: Seq<char>,
        inline: Option<Seq<char>>,
        raw: Seq<Seq<char>>,
        i: int,
    ) -> Result<(MinerArgs, int), Seq<char>> {
        if flag == "--phone"@ {
            Ok((MinerArgs { phone: true, ..self }, i))
        } else if flag == "--mine"@ {
            match inline {
                Some(v) => if cli_value(v).len() > 0 {
                    match self.with_address(v) {
                        Ok(p) => Ok((p, i)),
                        Err(e) => Err(e),
                    }
                } else {
                    Ok((self, i))
                },
                None => Ok((self, i)),
            }
        } else if flag == "--node"@ || flag == "--bootstrap"@ {
            match taken_value(inline, raw, i, "--node"@) {
                Ok((v, j)) => match parsed_node(v) {
                    Ok(t) => Ok((MinerArgs { node: Some(t), ..self }, j)),
                    Err(e) => Err(e),
                },
                Err(e) => Err(e),
            }
        } else if flag == "--reward-address"@ || flag == "--miner-address"@ {
            match taken_reward(inline, raw, i, "--reward-address"@) {
                Ok((a, j)) => Ok((MinerArgs { reward: Some(a), ..self }, j)),
                Err(e) => Err(e),
            }
        } else if flag == "--data-dir"@ {
            match taken_value(inline, raw, i, "--data-dir"@) {
                Ok((v, j)) => Ok((MinerArgs { data_dir: Some(v), ..self }, j)),
                Err(e) => Err(e),
            }
        } else {
            Err(unknown_text(flag, PHONE_MINER_FLAGS@))
        }
    }

    /// The argument at `i`, with where the next one stands.
    #[verifier::opaque]
    pub open spec fn with_argument(self, raw: Seq<Seq<char>>, i: int) -> Result<
        (MinerArgs, int),
        Seq<char>,
    > {
        let (flag, inline) = flag_parts(cli_value(raw[i]));
        if (flag.len() == 0 || flag[0] != '-') && means_kron1(flag) {
            match self.with_address(flag) {
                Ok(p) => Ok((p, i + 1)),
                Err(e) => Err(e),
            }
        } else {
            match self.with_flag(flag, inline, raw, i) {
                Ok((p, j)) => Ok((p, j + 1)),
                Err(e) => Err(e),
            }
        }
    }

    /// The arguments from `i` on. Every argument moves the parse on.
    pub open spec fn with_arguments(self, raw: Seq<Seq<char>>, i: int) -> Result<
        MinerView,
        Seq<char>,
    >
        decreases raw.len() - i,
    {
        if i >= raw.len() {
            self.finished()
        } else {
            match self.with_argument(raw, i) {
                Err(e) => Err(e),
                Ok((p, j)) => if i < j <= raw.len() {
                    p.with_arguments(raw, j)
                } else {
                    p.finished()
                },
            }
        }
    }

    /// The command line. Only the reward address has no default.
    pub open spec fn finished(self) -> Result<MinerView, Seq<char>> {
        match self.reward {
            Some(a) => Ok(
                MinerView {
                    node: match self.node {
                        Some(n) => n,
                        None => TargetView::V4 { ip: four(seq![127u8, 0, 0, 1]), port: 8000 },
                    },
                    reward: a,
                    data_dir: match self.data_dir {
                        Some(d) => d,
                        None => "kron-phone-miner"@,
                    },
                    phone: self.phone,
                },
            ),
            None => Err("--reward-address kron1... is required"@),
        }
    }
}

proof fn lemma_flag_moves_on(
    p: MinerArgs,
    flag: Seq<char>,
    inline: Option<Seq<char>>,
    raw: Seq<Seq<char>>,
    i: int,
)
    ensures
        p.with_flag(flag, inline, raw, i) matches Ok((_, j)) ==> i <= j && (i < raw.len() ==> j
            < raw.len()),
{
}

impl Given {
    spec fn wf(&self) -> bool {
        self.reward matches Some(a) ==> a.wf()
    }

    fn take_address(&mut self, word: &[char]) -> (r: Result<(), String>)
        requires
            old(self).wf(),
        ensures
            final(self).wf(),
            match r {
                Ok(()) => old(self)@.with_address(word@) == Ok::<MinerArgs, Seq<char>>(
                    final(self)@,
                ),
                Err(e) => old(self)@.with_address(word@) == Err::<MinerArgs, Seq<char>>(e@),
            },
    {
        match parse_address(word) {
            Ok(a) => {
                self.reward = Some(a);
                Ok(())
            },
            Err(e) => Err(e),
        }
    }

    fn take_flag(
        &mut self,
        flag: &str,
        inline: &Option<Vec<char>>,
        raw: &[String],
        i: &mut usize,
    ) -> (r: Result<(), String>)
        requires
            old(self).wf(),
            *old(i) < raw.len(),
        ensures
            final(self).wf(),
            match r {
                Ok(()) => old(self)@.with_flag(
                    flag@,
                    inline_view(*inline),
                    text_views(raw@),
                    *old(i) as int,
                ) == Ok::<(MinerArgs, int), Seq<char>>((final(self)@, *final(i) as int)),
                Err(e) => old(self)@.with_flag(
                    flag@,
                    inline_view(*inline),
                    text_views(raw@),
                    *old(i) as int,
                ) == Err::<(MinerArgs, int), Seq<char>>(e@),
            },
    {
        if same_text(flag, "--phone") {
            self.phone = true;
            return Ok(());
        }
        if same_text(flag, "--mine") {
            if let Some(v) = inline {
                if clean(v.as_slice()).len() > 0 {
                    return self.take_address(v.as_slice());
                }
            }
            return Ok(());
        }
        if same_text(flag, "--node") || same_text(flag, "--bootstrap") {
            match take_value(inline, raw, i, "--node") {
                Ok(v) => match parse_node(v.as_str()) {
                    Ok(t) => {
                        self.node = Some(t);
                    },
                    Err(e) => {
                        return Err(e);
                    },
                },
                Err(e) => {
                    return Err(e);
                },
            }
            return Ok(());
        }
        if same_text(flag, "--reward-address") || same_text(flag, "--miner-address") {
            match take_reward(inline, raw, i, "--reward-address") {
                Ok(a) => {
                    self.reward = Some(a);
                },
                Err(e) => {
                    return Err(e);
                },
            }
            return Ok(());
        }
        if same_text(flag, "--data-dir") {
            match take_value(inline, raw, i, "--data-dir") {
                Ok(v) => {
                    self.data_dir = Some(v);
                },
                Err(e) => {
                    return Err(e);
                },
            }
            return Ok(());
        }
        Err(unknown_argument(flag, PHONE_MINER_FLAGS.as_slice()))
    }

    fn take_argument(&mut self, raw: &[String], i: &mut usize) -> (r: Result<(), String>)
        requires
            old(self).wf(),
            *old(i) < raw.len(),
        ensures
            final(self).wf(),
            match r {
                Ok(()) => {
                    &&& *old(i) < *final(i) <= raw.len()
                    &&& old(self)@.with_argument(text_views(raw@), *old(i) as int) == Ok::<
                        (MinerArgs, int),
                        Seq<char>,
                    >((final(self)@, *final(i) as int))
                },
                Err(e) => old(self)@.with_argument(text_views(raw@), *old(i) as int) == Err::<
                    (MinerArgs, int),
                    Seq<char>,
                >(e@),
            },
    {
        reveal(MinerArgs::with_argument);
        assert(text_views(raw@)[*i as int] == raw@[*i as int]@);
        let token = clean(chars_of(raw[*i].as_str()).as_slice());
        let (flag, inline) = split_flag(token.as_slice());
        if (flag.len() == 0 || flag[0] != '-') && means_address(flag.as_slice()) {
            match self.take_address(flag.as_slice()) {
                Ok(()) => {
                    *i += 1;
                    return Ok(());
                },
                Err(e) => {
                    return Err(e);
                },
            }
        }
        proof {
            lemma_flag_moves_on(self@, flag@, inline_view(inline), text_views(raw@), *i as int);
        }
        match self.take_flag(text_of(flag.as_slice()).as_str(), &inline, raw, i) {
            Ok(()) => {
                *i += 1;
                Ok(())
            },
            Err(e) => Err(e),
        }
    }
}

/// Parses the arguments of `kron-phone-miner`.
pub fn parse_phone_miner_cli(raw: &[String]) -> (r: Result<PhoneMinerCli, String>)
    ensures
        match r {
            Ok(cli) => cli.reward.wf() && MinerArgs::none().with_arguments(text_views(raw@), 0)
                == Ok::<MinerView, Seq<char>>(cli@),
            Err(e) => MinerArgs::none().with_arguments(text_views(raw@), 0) == Err::<
                MinerView,
                Seq<char>,
            >(e@),
        },
{
    let mut given = Given { node: None, reward: None, data_dir: None, phone: false };
    let mut i: usize = 0;
    while i < raw.len()
        invariant
            given.wf(),
            MinerArgs::none().with_arguments(text_views(raw@), 0) == given@.with_arguments(
                text_views(raw@),
                i as int,
            ),
        decreases raw.len() - i,
    {
        match given.take_argument(raw, &mut i) {
            Ok(()) => {},
            Err(e) => {
                return Err(e);
            },
        }
    }
    let reward = match given.reward {
        Some(a) => a,
        None => {
            return Err(owned("--reward-address kron1... is required"));
        },
    };
    let node = match given.node {
        Some(n) => n,
        None => {
            let home: [u8; 4] = [127, 0, 0, 1];
            proof {
                assert(home@ =~= seq![127u8, 0, 0, 1]);
                lemma_four(home);
            }
            PeerTarget::V4 { ip: home, port: 8000 }
        },
    };
    let data_dir = match given.data_dir {
        Some(d) => d,
        None => owned("kron-phone-miner"),
    };
    Ok(PhoneMinerCli { node, reward, data_dir, phone: given.phone })
}

} // verus!
