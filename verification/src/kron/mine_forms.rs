//! The ways to ask `kron-phone` for mining to one address, and that they mean the same.

use vstd::prelude::*;

use crate::dag::tx::array_of;
use crate::kron::bech32::{kron1_prefix, kron_text, law_kron_round_trip,
    lemma_kron_text_has_no_filler, KRON1_LEN};
use crate::kron::cli::{address_input, cli_value, first_eq, flag_parts, is_build_flag,
    is_quote_pair, is_switch, means_kron1, parsed_address, unquoted, without_bom,
    without_flag_prefix, without_menu_two, PhoneView};
use crate::text::{begins_with, is_white, lemma_nothing_to_trim, lowered, trimmed};
use crate::types::Address;

verus! {

/// The flags of a phone that mines to an address and is told nothing else.
pub open spec fn mining_to(reward: Address) -> PhoneView {
    PhoneView { mine: true, reward: Some(reward), ..PhoneView::defaults() }
}

/// Whether `f` is a flag that takes the reward address.
pub open spec fn is_reward_flag(f: Seq<char>) -> bool {
    f == "--reward-address"@ || f == "--miner-address"@
}

/// A text that begins and ends with plain characters is left as it is.
proof fn lemma_plain_value(s: Seq<char>)
    requires
        s.len() > 0,
        !is_white(s[0]),
        !is_white(s.last()),
        s[0] != '\u{feff}',
        !is_quote_pair(s[0], s.last()),
    ensures
        cli_value(s) == s,
{
    lemma_nothing_to_trim(s);
    assert(without_bom(s) == s);
    assert(unquoted(s) == s);
}

/// The characters of an address that reading a command line looks at.
pub proof fn lemma_address_text(payload: Seq<u8>)
    requires
        payload.len() == 32,
    ensures
        kron_text(payload).len() == KRON1_LEN,
        kron_text(payload)[0] == 'k',
        kron_text(payload)[1] == 'r',
        !is_white(kron_text(payload).last()),
        cli_value(kron_text(payload)) == kron_text(payload),
        flag_parts(kron_text(payload)) == (kron_text(payload), None::<Seq<char>>),
        lowered(kron_text(payload))[0] == 'k',
{
    let a = kron_text(payload);
    law_kron_round_trip(payload);
    lemma_kron_text_has_no_filler(payload);
    assert(a.take(5)[0] == kron1_prefix()[0]);
    assert(a.take(5)[1] == kron1_prefix()[1]);
    crate::kron::bech32::lemma_kron_text_is_plain(payload, KRON1_LEN - 1);
    lemma_plain_value(a);
}

/// An address is read as it stands.
pub proof fn lemma_address_input(payload: Seq<u8>)
    requires
        payload.len() == 32,
    ensures
        address_input(kron_text(payload)) == kron_text(payload),
{
    let a = kron_text(payload);
    lemma_address_text(payload);
    lemma_kron_text_has_no_filler(payload);
    lemma_nothing_to_trim(a);
    reveal_strlit("2");
    reveal_strlit("--reward-address=");
    reveal_strlit("--miner-address=");
    reveal_strlit("--reward-address");
    reveal_strlit("--miner-address");
    let low = lowered(a);
    assert(without_menu_two(a) == a);
    assert(!begins_with(low, "--reward-address="@)) by {
        assert(low.take("--reward-address="@.len() as int)[0] == 'k' || low.len()
            < "--reward-address="@.len());
    }
    assert(!begins_with(low, "--miner-address="@)) by {
        assert(low.take("--miner-address="@.len() as int)[0] == 'k');
    }
    assert(!begins_with(low, "--reward-address"@)) by {
        assert(low.take("--reward-address"@.len() as int)[0] == 'k');
    }
    assert(!begins_with(low, "--miner-address"@)) by {
        assert(low.take("--miner-address"@.len() as int)[0] == 'k');
    }
    assert(without_flag_prefix(a) == a);
}

/// An address begins as addresses do.
proof fn lemma_address_prefix(payload: Seq<u8>)
    requires
        payload.len() == 32,
    ensures
        begins_with(lowered(kron_text(payload)), "kron1"@),
{
    let a = kron_text(payload);
    law_kron_round_trip(payload);
    reveal_strlit("kron1");
    let low = lowered(a);
    assert forall|i: int| 0 <= i < 5 implies #[trigger] low.take(5)[i] == "kron1"@[i] by {
        assert(a[i] == a.take(5)[i]);
        assert(a[i] == kron1_prefix()[i]);
    }
    assert(low.take(5) =~= "kron1"@);
}

/// An address means itself.
pub proof fn lemma_address_parses(payload: Seq<u8>)
    requires
        payload.len() == 32,
    ensures
        means_kron1(kron_text(payload)),
        parsed_address(kron_text(payload)) == Ok::<Address, Seq<char>>(array_of(payload)),
{
    let a = kron_text(payload);
    lemma_address_input(payload);
    lemma_address_prefix(payload);
    law_kron_round_trip(payload);
    lemma_kron_text_has_no_filler(payload);
    assert(a.len() == 63);
}

/// Quotes around an address are dropped, of whatever sort.
pub proof fn law_quotes_are_dropped(payload: Seq<u8>, open: char, close: char)
    requires
        payload.len() == 32,
        is_quote_pair(open, close),
    ensures
        cli_value(seq![open] + kron_text(payload) + seq![close]) == kron_text(payload),
        cli_value(kron_text(payload)) == kron_text(payload),
{
    let a = kron_text(payload);
    let w = seq![open] + a + seq![close];
    lemma_address_text(payload);
    assert(w[0] == open && w.last() == close);
    lemma_nothing_to_trim(w);
    assert(without_bom(w) == w);
    assert(w.subrange(1, w.len() - 1) =~= a);
    lemma_nothing_to_trim(a);
    assert(unquoted(a) == a);
    assert(unquoted(w) == unquoted(trimmed(w.subrange(1, w.len() - 1))));
}

/// A flag is left as it is.
proof fn lemma_flag_token(f: Seq<char>)
    requires
        f == "--mine"@ || is_reward_flag(f),
    ensures
        f.len() > 0,
        f[0] == '-',
        cli_value(f) == f,
        flag_parts(f) == (f, None::<Seq<char>>),
        !f.contains('='),
        !is_build_flag(f),
        !is_switch(f),
        is_reward_flag(f) ==> f != "--mine"@,
{
    reveal_strlit("--mine");
    reveal_strlit("--reward-address");
    reveal_strlit("--miner-address");
    lemma_plain_value(f);
    lemma_other_flags(f);
}

proof fn lemma_other_flags(f: Seq<char>)
    requires
        f == "--mine"@ || is_reward_flag(f),
    ensures
        !is_build_flag(f),
        !is_switch(f),
{
    reveal_strlit("--mine");
    reveal_strlit("--reward-address");
    reveal_strlit("--miner-address");
    reveal_strlit("--bin");
    reveal_strlit("--release");
    reveal_strlit("-p");
    reveal_strlit("--package");
    reveal_strlit("--target");
    reveal_strlit("--offline");
    reveal_strlit("--locked");
    reveal_strlit("--workspace");
    reveal_strlit("bin");
    reveal_strlit("cargo");
    reveal_strlit("--generate-wallet");
    reveal_strlit("--hub");
    reveal_strlit("--node-only");
    reveal_strlit("--show-mnemonic");
    reveal_strlit("--phone");
    reveal_strlit("--port-auto");
    reveal_strlit("--no-discovery");
    reveal_strlit("--no-bootstrap");
    reveal_strlit("--no-mine");
    reveal_strlit("--help");
    reveal_strlit("-h");
    if f.len() == 6 {
        assert(f[2] == 'm' && f[3] == 'i');
    } else if f.len() == 16 {
        assert(f[2] == 'r' && f[3] == 'e' && f[4] == 'w');
    } else {
        assert(f[2] == 'm');
    }
}

proof fn lemma_first_eq(f: Seq<char>, v: Seq<char>, i: int)
    requires
        !f.contains('='),
        0 <= i <= f.len(),
    ensures
        first_eq(f + seq!['='] + v, i) == f.len(),
    decreases f.len() - i,
{
    let t = f + seq!['='] + v;
    if i < f.len() {
        assert(f.contains(f[i]));
        lemma_first_eq(f, v, i + 1);
    }
}

/// A flag with its value behind `=` is read as the two.
proof fn lemma_inline_token(f: Seq<char>, v: Seq<char>)
    requires
        f.len() > 0,
        f[0] == '-',
        !f.contains('='),
        v.len() > 0,
        !is_white(v.last()),
    ensures
        cli_value(f + seq!['='] + v) == f + seq!['='] + v,
        flag_parts(f + seq!['='] + v) == (f, Some(v)),
{
    let t = f + seq!['='] + v;
    lemma_plain_value(t);
    lemma_first_eq(f, v, 0);
    assert(t[f.len() as int] == '=');
    assert(t.contains('='));
    assert(t.take(f.len() as int) =~= f);
    assert(t.skip(f.len() as int + 1) =~= v);
}

/// `--mine` asks for mining, wherever it stands.
pub proof fn law_mine_flag(p: PhoneView, raw: Seq<Seq<char>>, i: int)
    requires
        0 <= i < raw.len(),
        raw[i] == "--mine"@,
    ensures
        p.with_argument(raw, i) == Ok::<(PhoneView, int), Seq<char>>(
            (PhoneView { mine: true, ..p }, i + 1),
        ),
{
    reveal(PhoneView::with_argument);
    lemma_flag_token("--mine"@);
}

/// `--reward-address` and `--miner-address` with an address in the next argument, quoted or
/// not, set the reward, wherever they stand.
pub proof fn law_reward_flag(p: PhoneView, raw: Seq<Seq<char>>, i: int, payload: Seq<u8>)
    requires
        payload.len() == 32,
        0 <= i,
        i + 1 < raw.len(),
        is_reward_flag(raw[i]),
        cli_value(raw[i + 1]) == kron_text(payload),
    ensures
        p.with_argument(raw, i) == Ok::<(PhoneView, int), Seq<char>>(
            (PhoneView { reward: Some(array_of(payload)), ..p }, i + 2),
        ),
{
    reveal(PhoneView::with_argument);
    lemma_flag_token(raw[i]);
    lemma_address_text(payload);
    lemma_address_parses(payload);
}

/// The same with the address behind `=`.
pub proof fn law_reward_flag_inline(
    p: PhoneView,
    raw: Seq<Seq<char>>,
    i: int,
    flag: Seq<char>,
    v: Seq<char>,
    payload: Seq<u8>,
)
    requires
        payload.len() == 32,
        0 <= i < raw.len(),
        is_reward_flag(flag),
        v.len() > 0,
        !is_white(v.last()),
        cli_value(v) == kron_text(payload),
        raw[i] == flag + seq!['='] + v,
    ensures
        p.with_argument(raw, i) == Ok::<(PhoneView, int), Seq<char>>(
            (PhoneView { reward: Some(array_of(payload)), ..p }, i + 1),
        ),
{
    reveal(PhoneView::with_argument);
    lemma_flag_token(flag);
    lemma_inline_token(flag, v);
    lemma_address_text(payload);
    lemma_address_parses(payload);
}

/// `--mine=` with an address asks for mining to it, wherever it stands.
pub proof fn law_mine_inline(
    p: PhoneView,
    raw: Seq<Seq<char>>,
    i: int,
    v: Seq<char>,
    payload: Seq<u8>,
)
    requires
        payload.len() == 32,
        0 <= i < raw.len(),
        v.len() > 0,
        !is_white(v.last()),
        cli_value(v) == kron_text(payload),
        raw[i] == "--mine"@ + seq!['='] + v,
    ensures
        p.with_argument(raw, i) == Ok::<(PhoneView, int), Seq<char>>(
            (PhoneView { mine: true, reward: Some(array_of(payload)), ..p }, i + 1),
        ),
{
    reveal(PhoneView::with_argument);
    lemma_flag_token("--mine"@);
    lemma_inline_token("--mine"@, v);
    lemma_address_text(payload);
    lemma_address_parses_quoted(v, payload);
}

/// A text that is an address out of its quotes means the address.
proof fn lemma_address_parses_quoted(v: Seq<char>, payload: Seq<u8>)
    requires
        payload.len() == 32,
        cli_value(v) == kron_text(payload),
    ensures
        parsed_address(v) == Ok::<Address, Seq<char>>(array_of(payload)),
{
    lemma_address_text(payload);
    lemma_address_parses(payload);
    assert(address_input(v) == address_input(kron_text(payload)));
}

/// An address that stands alone, quoted or not, asks for mining to it, wherever it stands.
pub proof fn law_positional_address(p: PhoneView, raw: Seq<Seq<char>>, i: int, payload: Seq<u8>)
    requires
        payload.len() == 32,
        0 <= i < raw.len(),
        cli_value(raw[i]) == kron_text(payload),
    ensures
        p.with_argument(raw, i) == Ok::<(PhoneView, int), Seq<char>>(
            (PhoneView { mine: true, reward: Some(array_of(payload)), ..p }, i + 1),
        ),
{
    reveal(PhoneView::with_argument);
    let a = kron_text(payload);
    lemma_address_text(payload);
    lemma_address_parses(payload);
    reveal_strlit("1");
    reveal_strlit("2");
    reveal_strlit("bin");
    reveal_strlit("cargo");
    reveal_strlit("--bin");
    reveal_strlit("--release");
    reveal_strlit("-p");
    reveal_strlit("--package");
    reveal_strlit("--target");
    reveal_strlit("--offline");
    reveal_strlit("--locked");
    reveal_strlit("--workspace");
    assert(!is_build_flag(a));
}

/// All the forms of one request: `--mine` with the address behind either flag, behind `=`,
/// or alone; either flag without `--mine`; and the address alone.
pub open spec fn is_mine_form(raw: Seq<Seq<char>>, payload: Seq<u8>) -> bool {
    let a = kron_text(payload);
    let n = raw.len() as int;
    let at = if n > 0 && raw[0] == "--mine"@ {
        1int
    } else {
        0
    };
    ||| n == at + 2 && is_reward_flag(raw[at]) && cli_value(raw[at + 1]) == a
    ||| n == at + 1 && cli_value(raw[at]) == a
    ||| n == at + 1 && exists|flag: Seq<char>, v: Seq<char>|
        #[trigger] is_inline_request(raw[at], flag, v, payload)
}

/// A flag with the address behind `=`.
pub open spec fn is_inline_request(
    token: Seq<char>,
    flag: Seq<char>,
    v: Seq<char>,
    payload: Seq<u8>,
) -> bool {
    &&& flag == "--mine"@ || is_reward_flag(flag)
    &&& v.len() > 0
    &&& !is_white(v.last())
    &&& cli_value(v) == kron_text(payload)
    &&& token == flag + seq!['='] + v
}

/// The forms are equivalent: each of them parses, and to the same flags.
pub proof fn law_mine_forms_are_equivalent(raw: Seq<Seq<char>>, payload: Seq<u8>)
    requires
        payload.len() == 32,
        is_mine_form(raw, payload),
    ensures
        PhoneView::defaults().with_arguments(raw, 0) == Ok::<PhoneView, Seq<char>>(
            mining_to(array_of(payload)),
        ),
{
    let d = PhoneView::defaults();
    let n = raw.len() as int;
    let at = if n > 0 && raw[0] == "--mine"@ {
        1int
    } else {
        0
    };
    let p = if at == 1 {
        PhoneView { mine: true, ..d }
    } else {
        d
    };
    reveal_with_fuel(PhoneView::with_arguments, 3);
    if at == 1 {
        law_mine_flag(d, raw, 0);
    }
    assert(d.with_arguments(raw, 0) == p.with_arguments(raw, at));
    if n == at + 2 {
        law_reward_flag(p, raw, at, payload);
    } else if cli_value(raw[at]) == kron_text(payload) {
        law_positional_address(p, raw, at, payload);
    } else {
        let (flag, v) = choose|flag: Seq<char>, v: Seq<char>|
            #[trigger] is_inline_request(raw[at], flag, v, payload);
        if flag == "--mine"@ {
            law_mine_inline(p, raw, at, v, payload);
        } else {
            law_reward_flag_inline(p, raw, at, flag, v, payload);
        }
    }
}

} // verus!
