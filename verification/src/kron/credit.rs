//! The `credit` command: a faucet grant on a stopped hub's files. It is no vertex
//! and mints nothing.

use vstd::prelude::*;
use vstd::utf8::encode_utf8;

use crate::dag::engine::KronDAG;
use crate::dag::model::amount_at;
use crate::dag::tx::{array_of, lemma_array_of};
use crate::economics::UNITS_PER_COIN;
use crate::kron::bech32::{decoded, without_fillers};
use crate::kron::cli::{parse_port, parsed_port};
use crate::kron::wallet::KronAddress;
use crate::kron_wallet::amount::{amount_text, fraction_units, lemma_padded, padded, ten_to, PLACES};
use crate::persist::{DagSnapshot, SnapshotView};
use crate::table::Table;
use crate::text::{all_digits, chars_of, decimal_text, decimal_value, digit, find_from, find_text,
    is_digit, lemma_decimal_round_trip, lemma_nothing_to_trim, owned, parse_number, parsed_number,
    push_text, same_text, sub_chars, text_views, trim, trimmed};
use crate::types::Address;

verus! {

/// Why a grant's amount is refused.
#[derive(Clone, Copy, Debug, PartialEq, Eq, Structural)]
pub enum GrantFault {
    Empty,
    Invalid,
    TooManyDecimals,
    Overflow,
}

impl GrantFault {
    pub open spec fn spec_message(&self) -> Seq<char> {
        match self {
            GrantFault::Empty => "amount is empty"@,
            GrantFault::Invalid => "invalid amount"@,
            GrantFault::TooManyDecimals => "amount has more than 6 decimals"@,
            GrantFault::Overflow => "amount overflow"@,
        }
    }

    /// The error as a line of text.
    pub fn message(&self) -> (r: &'static str)
        ensures
            r@ == self.spec_message(),
    {
        match self {
            GrantFault::Empty => "amount is empty",
            GrantFault::Invalid => "invalid amount",
            GrantFault::TooManyDecimals => "amount has more than 6 decimals",
            GrantFault::Overflow => "amount overflow",
        }
    }
}

/// What stands before the first point.
pub open spec fn before_point(s: Seq<char>) -> Seq<char> {
    s.take(find_from(s, seq!['.'], 0))
}

/// The digits behind the first point. Anything else there is passed over.
pub open spec fn digits_behind_point(s: Seq<char>) -> Seq<char> {
    let at = find_from(s, seq!['.'], 0);
    if at < s.len() {
        s.skip(at + 1).filter(|c: char| is_digit(c))
    } else {
        Seq::empty()
    }
}

/// The whole coins of a grant.
pub open spec fn whole_coins(s: Seq<char>) -> Option<nat> {
    if s.len() == 0 {
        Some(0)
    } else {
        parsed_number(s, u64::MAX as nat)
    }
}

/// The minor units of a grant.
pub open spec fn granted(input: Seq<char>) -> Result<u64, GrantFault> {
    let s = trimmed(input);
    let digits = digits_behind_point(s);
    if s.len() == 0 {
        Err(GrantFault::Empty)
    } else {
        match whole_coins(before_point(s)) {
            None => Err(GrantFault::Invalid),
            Some(w) => if digits.len() > PLACES {
                Err(GrantFault::TooManyDecimals)
            } else {
                let units = w * UNITS_PER_COIN as nat + decimal_value(digits) * ten_to(
                    (PLACES - digits.len()) as nat,
                );
                if units > u64::MAX {
                    Err(GrantFault::Overflow)
                } else {
                    Ok(units as u64)
                }
            },
        }
    }
}

fn keep_digits(s: &[char]) -> (r: Vec<char>)
    ensures
        r@ == s@.filter(|c: char| is_digit(c)),
        all_digits(r@),
{
    let ghost keep = |c: char| is_digit(c);
    let mut out: Vec<char> = Vec::new();
    let mut i: usize = 0;
    proof {
        reveal(Seq::filter);
    }
    while i < s.len()
        invariant
            i <= s@.len(),
            keep == (|c: char| is_digit(c)),
            out@ == s@.take(i as int).filter(keep),
            all_digits(out@),
        decreases s@.len() - i,
    {
        proof {
            reveal(Seq::filter);
            assert(s@.take(i + 1).drop_last() =~= s@.take(i as int));
        }
        if digit(s[i]) {
            out.push(s[i]);
        }
        i += 1;
    }
    assert(s@.take(i as int) =~= s@);
    out
}

/// Parses the amount of a grant, such as `1.5`, into minor units.
pub fn parse_grant(input: &str) -> (r: Result<u64, GrantFault>)
    ensures
        r == granted(input@),
{
    let s = trim(chars_of(input).as_slice());
    if s.len() == 0 {
        return Err(GrantFault::Empty);
    }
    let mut point: Vec<char> = Vec::new();
    point.push('.');
    assert(point@ =~= seq!['.']);
    let at: usize = find_text(s.as_slice(), point.as_slice(), 0);
    let whole = sub_chars(s.as_slice(), 0, at);
    assert(whole@ =~= before_point(s@));
    let digits = if at < s.len() {
        let tail = sub_chars(s.as_slice(), at + 1, s.len());
        assert(tail@ =~= s@.skip(at + 1));
        keep_digits(tail.as_slice())
    } else {
        Vec::new()
    };
    assert(digits@ == digits_behind_point(s@));
    let coins: u64 = if whole.len() == 0 {
        0
    } else {
        match parse_number(whole.as_slice(), u64::MAX) {
            Some(n) => n,
            None => {
                return Err(GrantFault::Invalid);
            },
        }
    };
    if digits.len() > PLACES {
        return Err(GrantFault::TooManyDecimals);
    }
    let small: u64 = fraction_units(digits.as_slice());
    match coins.checked_mul(UNITS_PER_COIN) {
        Some(big) => match big.checked_add(small) {
            Some(units) => Ok(units),
            None => Err(GrantFault::Overflow),
        },
        None => Err(GrantFault::Overflow),
    }
}

/// A parsed `credit` command.
#[derive(Debug)]
pub struct CreditOrder {
    pub to: KronAddress,
    /// The amount as it was typed.
    pub amount: String,
    pub port: u16,
    pub data_dir: Option<String>,
}

struct Ordered {
    to: Option<KronAddress>,
    amount: Option<String>,
    port: u16,
    data_dir: Option<String>,
}

/// Arguments of the command as mathematical data.
#[verifier::ext_equal]
pub struct OrderArgs {
    pub to: Option<Address>,
    pub amount: Option<Seq<char>>,
    pub port: u16,
    pub data_dir: Option<Seq<char>>,
}

/// A command as mathematical data.
#[verifier::ext_equal]
pub struct OrderView {
    pub to: Address,
    pub amount: Seq<char>,
    pub port: u16,
    pub data_dir: Option<Seq<char>>,
}

/// The text that may be there.
pub open spec fn optional_text(t: Option<String>) -> Option<Seq<char>> {
    match t {
        Some(s) => Some(s@),
        None => None,
    }
}

impl View for CreditOrder {
    type V = OrderView;

    open spec fn view(&self) -> OrderView {
        OrderView {
            to: self.to@,
            amount: self.amount@,
            port: self.port,
            data_dir: optional_text(self.data_dir),
        }
    }
}

impl View for Ordered {
    type V = OrderArgs;

    closed spec fn view(&self) -> OrderArgs {
        OrderArgs {
            to: match self.to {
                Some(a) => Some(a@),
                None => None,
            },
            amount: optional_text(self.amount),
            port: self.port,
            data_dir: optional_text(self.data_dir),
        }
    }
}

impl OrderArgs {
    /// No argument given.
    pub open spec fn none() -> OrderArgs {
        OrderArgs { to: None, amount: None, port: 8000, data_dir: None }
    }

    /// The flag `raw[i]` with its value `raw[i + 1]`. Only a node's command has a port.
    #[verifier::opaque]
    pub open spec fn with_argument(self, raw: Seq<Seq<char>>, i: int, node: bool) -> Result<
        OrderArgs,
        Seq<char>,
    > {
        let flag = raw[i];
        let more = i + 1 < raw.len();
        if flag == "--to"@ {
            if !more {
                Err("--to requires kron1..."@)
            } else {
                match decoded(encode_utf8(without_fillers(raw[i + 1]))) {
                    Ok(bytes) => Ok(OrderArgs { to: Some(array_of(bytes)), ..self }),
                    Err(e) => Err(e.spec_message()),
                }
            }
        } else if flag == "--amount"@ {
            if !more {
                Err("--amount requires a value"@)
            } else {
                Ok(OrderArgs { amount: Some(raw[i + 1]), ..self })
            }
        } else if flag == "--port"@ && node {
            if !more {
                Err("--port requires a value"@)
            } else {
                match parsed_port(raw[i + 1]) {
                    Some(p) => Ok(OrderArgs { port: p, ..self }),
                    None => Err("invalid --port"@),
                }
            }
        } else if flag == "--data-dir"@ {
            if !more {
                Err("--data-dir requires a path"@)
            } else {
                Ok(OrderArgs { data_dir: Some(raw[i + 1]), ..self })
            }
        } else {
            Err("unknown argument: "@ + flag)
        }
    }

    /// The arguments from `i` on, a flag and its value at a time.
    pub open spec fn with_arguments(self, raw: Seq<Seq<char>>, i: int, node: bool) -> Result<
        OrderView,
        Seq<char>,
    >
        decreases raw.len() + 2 - i,
    {
        if i >= raw.len() {
            self.finished()
        } else {
            match self.with_argument(raw, i, node) {
                Err(e) => Err(e),
                Ok(p) => p.with_arguments(raw, i + 2, node),
            }
        }
    }

    /// The command, once everything was read.
    pub open spec fn finished(self) -> Result<OrderView, Seq<char>> {
        match (self.to, self.amount) {
            (None, _) => Err("--to kron1... is required"@),
            (Some(_), None) => Err("--amount is required"@),
            (Some(to), Some(amount)) => Ok(
                OrderView { to, amount, port: self.port, data_dir: self.data_dir },
            ),
        }
    }
}

impl Ordered {
    spec fn wf(&self) -> bool {
        self.to matches Some(a) ==> a.wf()
    }

    fn take_argument(&mut self, raw: &[String], i: usize, node: bool) -> (r: Result<(), String>)
        requires
            old(self).wf(),
            i < raw.len(),
        ensures
            final(self).wf(),
            match r {
                Ok(()) => i + 1 < raw.len() && old(self)@.with_argument(
                    text_views(raw@),
                    i as int,
                    node,
                ) == Ok::<OrderArgs, Seq<char>>(final(self)@),
                Err(e) => old(self)@.with_argument(text_views(raw@), i as int, node) == Err::<
                    OrderArgs,
                    Seq<char>,
                >(e@),
            },
    {
        reveal(OrderArgs::with_argument);
        assert(text_views(raw@)[i as int] == raw@[i as int]@);
        let flag = raw[i].as_str();
        let to = same_text(flag, "--to");
        let amount = same_text(flag, "--amount");
        let port = same_text(flag, "--port") && node;
        let dir = same_text(flag, "--data-dir");
        if !to && !amount && !port && !dir {
            let mut out = owned("unknown argument: ");
            push_text(&mut out, flag);
            return Err(out);
        }
        if i + 1 >= raw.len() {
            return Err(
                owned(
                    if to {
                        "--to requires kron1..."
                    } else if amount {
                        "--amount requires a value"
                    } else if port {
                        "--port requires a value"
                    } else {
                        "--data-dir requires a path"
                    },
                ),
            );
        }
        assert(text_views(raw@)[i + 1] == raw@[i + 1]@);
        let value = raw[i + 1].as_str();
        if to {
            match KronAddress::parse(value) {
                Ok(a) => {
                    proof {
                        lemma_array_of(a@);
                    }
                    self.to = Some(a);
                },
                Err(e) => {
                    return Err(owned(e.message()));
                },
            }
        } else if amount {
            self.amount = Some(owned(value));
        } else if port {
            match parse_port(value) {
                Some(p) => {
                    self.port = p;
                },
                None => {
                    return Err(owned("invalid --port"));
                },
            }
        } else {
            self.data_dir = Some(owned(value));
        }
        Ok(())
    }
}

/// Parses the arguments behind `credit`. A phone's command has no port.
pub fn parse_money_cmd(raw: &[String], node: bool) -> (r: Result<CreditOrder, String>)
    ensures
        match r {
            Ok(order) => order.to.wf() && OrderArgs::none().with_arguments(
                text_views(raw@),
                0,
                node,
            ) == Ok::<OrderView, Seq<char>>(order@),
            Err(e) => OrderArgs::none().with_arguments(text_views(raw@), 0, node) == Err::<
                OrderView,
                Seq<char>,
            >(e@),
        },
{
    let mut given = Ordered { to: None, amount: None, port: 8000, data_dir: None };
    let mut i: usize = 0;
    while i < raw.len()
        invariant
            given.wf(),
            OrderArgs::none().with_arguments(text_views(raw@), 0, node) == given@.with_arguments(
                text_views(raw@),
                i as int,
                node,
            ),
        decreases raw.len() - i,
    {
        match given.take_argument(raw, i, node) {
            Ok(()) => {},
            Err(e) => {
                return Err(e);
            },
        }
        i += 2;
    }
    let to = match given.to {
        Some(a) => a,
        None => {
            return Err(owned("--to kron1... is required"));
        },
    };
    let amount = match given.amount {
        Some(a) => a,
        None => {
            return Err(owned("--amount is required"));
        },
    };
    Ok(CreditOrder { to, amount, port: given.port, data_dir: given.data_dir })
}

/// A faucet with `units` more for `address`.
pub open spec fn topped_up(faucet: Map<Address, u64>, address: Address, units: u64) -> Map<
    Address,
    u64,
> {
    let sum = amount_at(faucet, address) + units;
    faucet.insert(
        address,
        if sum > u64::MAX {
            u64::MAX
        } else {
            sum as u64
        },
    )
}

/// Grants `units` to `address` and gives the snapshot to write.
pub fn grant(dag: &mut KronDAG, faucet: Table<32, u64>, address: Address, units: u64) -> (r:
    DagSnapshot)
    requires
        old(dag).wf(),
        faucet.wf(),
    ensures
        final(dag).wf(),
        final(dag)@ == old(dag)@.funded(address, units),
        r.wf(),
        r@ == SnapshotView::of(final(dag)@, topped_up(faucet@, address, units)),
{
    dag.credit_account(address, units);
    let mut faucet = faucet;
    let given: u64 = faucet.get_or(&address, 0);
    faucet.insert(address, given.saturating_add(units));
    DagSnapshot::from_dag_with_faucet(dag, faucet)
}

/// A grant raises the balance by its units, up to the largest amount, and leaves the
/// graph, the supply and every other account alone.
pub proof fn law_grant_mints_nothing(
    d: crate::dag::model::DagView,
    address: Address,
    units: u64,
    other: Address,
)
    requires
        other != address,
    ensures
        d.funded(address, units).graph == d.graph,
        d.funded(address, units).ledger.supply == d.ledger.supply,
        d.funded(address, units).ledger.count == d.ledger.count,
        d.funded(address, units).ledger.balance(other) == d.ledger.balance(other),
        d.ledger.balance(address) + units <= u64::MAX ==> d.funded(address, units).ledger.balance(
            address,
        ) == d.ledger.balance(address) + units,
{
}

/// A grant takes an amount as it is shown, and a whole number as so many coins.
pub proof fn law_grant_reads_what_is_shown(units: u64, coins: u64)
    requires
        coins <= 18_446_744_073_709,
    ensures
        granted(amount_text(units)) == Ok::<u64, GrantFault>(units),
        granted(decimal_text(coins as nat)) == Ok::<u64, GrantFault>((coins * 1_000_000) as u64),
{
    let whole = (units / 1_000_000) as nat;
    let frac = (units % 1_000_000) as nat;
    reveal_strlit(".");
    assert("."@ =~= seq!['.']);
    lemma_decimal_round_trip(whole);
    reveal_with_fuel(ten_to, 7);
    assert(ten_to(6) == 1_000_000);
    lemma_padded(frac, 6);
    let a = decimal_text(whole);
    let b = padded(frac, 6);
    let t = amount_text(units);
    assert(t == a + "."@ + b);
    lemma_point_found(a, b, 0);
    assert(t =~= a + seq!['.'] + b);
    assert(before_point(t) =~= a);
    assert(t.skip(a.len() as int + 1) =~= b);
    lemma_digits_stay(b);
    assert(is_digit(a[0]));
    assert(is_digit(b[5]));
    assert(t[0] == a[0] && t.last() == b[5]);
    lemma_nothing_to_trim(t);
    assert(ten_to(0) == 1);
    assert(decimal_value(b) * ten_to(0) == frac) by (nonlinear_arith)
        requires
            ten_to(0) == 1,
            decimal_value(b) == frac,
    ;
    let c = decimal_text(coins as nat);
    lemma_decimal_round_trip(coins as nat);
    assert(is_digit(c[0]));
    assert(is_digit(c[c.len() - 1]));
    lemma_nothing_to_trim(c);
    lemma_no_point(c, 0);
    assert(before_point(c) =~= c);
    assert(decimal_value(Seq::<char>::empty()) == 0);
    assert(0 * ten_to(6) == 0);
}

proof fn lemma_point_found(a: Seq<char>, b: Seq<char>, i: int)
    requires
        all_digits(a),
        0 <= i <= a.len(),
    ensures
        find_from(a + seq!['.'] + b, seq!['.'], i) == a.len(),
    decreases a.len() - i,
{
    let s = a + seq!['.'] + b;
    if i < a.len() {
        assert(is_digit(a[i]));
        assert(s.subrange(i, i + 1)[0] == a[i]);
        lemma_point_found(a, b, i + 1);
    } else {
        assert(s.subrange(i, i + 1) =~= seq!['.']);
    }
}

proof fn lemma_no_point(a: Seq<char>, i: int)
    requires
        all_digits(a),
        0 <= i <= a.len(),
    ensures
        find_from(a, seq!['.'], i) == a.len(),
    decreases a.len() - i,
{
    if i < a.len() {
        assert(is_digit(a[i]));
        assert(a.subrange(i, i + 1)[0] == a[i]);
        lemma_no_point(a, i + 1);
    }
}

proof fn lemma_digits_stay(b: Seq<char>)
    requires
        all_digits(b),
    ensures
        b.filter(|c: char| is_digit(c)) == b,
    decreases b.len(),
{
    reveal(Seq::filter);
    if b.len() > 0 {
        let h = b.drop_last();
        assert forall|i: int| 0 <= i < h.len() implies is_digit(#[trigger] h[i]) by {
            assert(is_digit(b[i]));
        }
        lemma_digits_stay(h);
        assert(is_digit(b[b.len() - 1]));
        assert(h.push(b.last()) =~= b);
    }
}

} // verus!
