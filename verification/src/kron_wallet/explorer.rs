//! The wallet's view of the explorer API. Sending requests and reading JSON is the
//! caller's part.

use vstd::prelude::*;
use vstd::utf8::encode_utf8;

use crate::bytes::array32;
use crate::crypto::hash::{hex_decode, unhexed};
use crate::dag::tx::TxHash;
use crate::kron_wallet::amount::{amount_text, format_kron_amount};
use crate::text::{begins_with, chars_of, find_from, find_text, owned, push_text, starts_with,
    sub_chars, text_of, trim, trimmed};

verus! {

pub const DEFAULT_EXPLORER: &'static str = "127.0.0.1:8080";

/// Most rows of the history.
pub const HISTORY_ROWS: usize = 12;

/// What the wallet shows.
pub struct ExplorerView {
    pub online: bool,
    pub dag_tx_count: u64,
    pub circulating: String,
    pub balance_text: String,
    pub txs: Vec<HistoryRow>,
}

/// One transfer of the history.
pub struct HistoryRow {
    pub from: String,
    pub to: String,
    pub amount: String,
    pub dag_tx_index: u64,
}

/// A row as mathematical data.
#[verifier::ext_equal]
pub struct RowView {
    pub from: Seq<char>,
    pub to: Seq<char>,
    pub amount: Seq<char>,
    pub dag_tx_index: u64,
}

impl View for HistoryRow {
    type V = RowView;

    open spec fn view(&self) -> RowView {
        RowView {
            from: self.from@,
            to: self.to@,
            amount: self.amount@,
            dag_tx_index: self.dag_tx_index,
        }
    }
}

/// The reply to `/api/stats`.
pub struct StatsReply {
    pub dag_tx_count: Option<u64>,
    pub tx_count: Option<u64>,
    pub circulating_kron: Option<String>,
}

/// A transfer in the reply to `/api/wallet`.
pub struct TxReply {
    pub from: String,
    pub to: String,
    pub amount: u64,
    pub dag_tx_index: Option<u64>,
}

/// The reply to `/api/wallet`.
pub struct WalletReply {
    pub balance: u64,
    pub txs: Vec<TxReply>,
}

/// The reply to `/api/compose`.
pub struct ComposeReply {
    pub nonce: u64,
    pub balance: u64,
    pub parent_1: Option<String>,
    pub parent_2: Option<String>,
}

/// Parents and nonce for a transfer.
#[derive(Clone, Copy, Debug)]
pub struct ComposeHint {
    pub nonce: u64,
    pub parent_1: TxHash,
    pub parent_2: TxHash,
    pub balance: u64,
}

impl ExplorerView {
    /// Nothing known.
    pub open spec fn is_blank(&self) -> bool {
        &&& !self.online
        &&& self.dag_tx_count == 0
        &&& self.circulating@ == Seq::<char>::empty()
        &&& self.balance_text@ == amount_text(0)
        &&& self.txs@.len() == 0
    }
}

impl Default for ExplorerView {
    fn default() -> (r: Self)
        ensures
            r.is_blank(),
    {
        let r = ExplorerView {
            online: false,
            dag_tx_count: 0,
            circulating: String::new(),
            balance_text: format_kron_amount(0),
            txs: Vec::new(),
        };
        assert(r.circulating@ =~= Seq::<char>::empty());
        r
    }
}

/// The row of a transfer.
pub open spec fn row_of(t: TxReply) -> RowView {
    RowView {
        from: t.from@,
        to: t.to@,
        amount: amount_text(t.amount),
        dag_tx_index: match t.dag_tx_index {
            Some(i) => i,
            None => 0,
        },
    }
}

/// The newest transfers first, at most as many as the history shows.
pub open spec fn history_of(txs: Seq<TxReply>) -> Seq<RowView> {
    Seq::new(
        if txs.len() < HISTORY_ROWS {
            txs.len()
        } else {
            HISTORY_ROWS as nat
        },
        |i: int| row_of(txs[txs.len() - 1 - i]),
    )
}

pub open spec fn row_views(rows: Seq<HistoryRow>) -> Seq<RowView> {
    rows.map_values(|r: HistoryRow| r@)
}

fn history(txs: &Vec<TxReply>) -> (r: Vec<HistoryRow>)
    ensures
        row_views(r@) == history_of(txs@),
{
    let mut out: Vec<HistoryRow> = Vec::new();
    let n: usize = if txs.len() < HISTORY_ROWS { txs.len() } else { HISTORY_ROWS };
    let mut i: usize = 0;
    while i < n
        invariant
            i <= n,
            n <= txs.len(),
            out@.len() == i,
            forall|j: int| 0 <= j < i ==> (#[trigger] out@[j])@ == row_of(txs@[txs@.len() - 1 - j]),
        decreases n - i,
    {
        let t = &txs[txs.len() - 1 - i];
        let row = HistoryRow {
            from: owned(t.from.as_str()),
            to: owned(t.to.as_str()),
            amount: format_kron_amount(t.amount),
            dag_tx_index: match t.dag_tx_index {
                Some(k) => k,
                None => 0,
            },
        };
        assert(row@ =~= row_of(txs@[txs@.len() - 1 - i]));
        out.push(row);
        i += 1;
    }
    assert(row_views(out@) =~= history_of(txs@));
    out
}

/// What the wallet shows of the replies. Without statistics the explorer counts as
/// offline; without a wallet reply the balance is zero.
pub fn view_of(stats: Option<StatsReply>, wallet: Option<WalletReply>) -> (r: ExplorerView)
    ensures
        match stats {
            None => r.is_blank(),
            Some(s) => {
                &&& r.online
                &&& r.dag_tx_count == (match (s.dag_tx_count, s.tx_count) {
                    (Some(n), _) => n,
                    (None, Some(n)) => n,
                    (None, None) => 0,
                })
                &&& r.circulating@ == (match s.circulating_kron {
                    Some(c) => c@,
                    None => Seq::<char>::empty(),
                })
                &&& r.balance_text@ == amount_text(match wallet {
                    Some(w) => w.balance,
                    None => 0,
                })
                &&& row_views(r.txs@) == (match wallet {
                    Some(w) => history_of(w.txs@),
                    None => Seq::<RowView>::empty(),
                })
            },
        },
{
    let s = match stats {
        Some(s) => s,
        None => {
            return ExplorerView::default();
        },
    };
    let (balance, txs) = match wallet {
        Some(w) => (w.balance, history(&w.txs)),
        None => {
            let none: Vec<HistoryRow> = Vec::new();
            assert(row_views(none@) =~= Seq::<RowView>::empty());
            (0u64, none)
        },
    };
    let circulating = match s.circulating_kron {
        Some(c) => c,
        None => {
            let e = String::new();
            assert(e@ =~= Seq::<char>::empty());
            e
        },
    };
    ExplorerView {
        online: true,
        dag_tx_count: match (s.dag_tx_count, s.tx_count) {
            (Some(n), _) => n,
            (None, Some(n)) => n,
            (None, None) => 0,
        },
        circulating,
        balance_text: format_kron_amount(balance),
        txs,
    }
}

/// `s` without any number of leading `p`.
pub open spec fn without_prefix(s: Seq<char>, p: Seq<char>) -> Seq<char>
    decreases s.len(),
{
    if p.len() > 0 && begins_with(s, p) {
        without_prefix(s.skip(p.len() as int), p)
    } else {
        s
    }
}

/// `s` without trailing slashes.
pub open spec fn without_slashes(s: Seq<char>) -> Seq<char>
    decreases s.len(),
{
    if s.len() > 0 && s.last() == '/' {
        without_slashes(s.drop_last())
    } else {
        s
    }
}

/// The host that an explorer setting names.
pub open spec fn host_of(setting: Option<Seq<char>>) -> Seq<char> {
    match setting {
        None => DEFAULT_EXPLORER@,
        Some(s) => {
            let h = without_slashes(
                without_prefix(without_prefix(trimmed(s), "http://"@), "https://"@),
            );
            if h.len() == 0 {
                DEFAULT_EXPLORER@
            } else {
                h
            }
        },
    }
}

fn drop_prefix(s: Vec<char>, p: &str) -> (r: Vec<char>)
    ensures
        r@ == without_prefix(s@, p@),
{
    let prefix = chars_of(p);
    let mut cur = s;
    while prefix.len() > 0 && starts_with(cur.as_slice(), prefix.as_slice())
        invariant
            prefix@ == p@,
            without_prefix(cur@, p@) == without_prefix(s@, p@),
        decreases cur@.len(),
    {
        let n: usize = cur.len();
        let next = sub_chars(cur.as_slice(), prefix.len(), n);
        assert(next@ =~= cur@.skip(p@.len() as int));
        cur = next;
    }
    cur
}

fn drop_slashes(s: Vec<char>) -> (r: Vec<char>)
    ensures
        r@ == without_slashes(s@),
{
    let mut cur = s;
    while cur.len() > 0 && cur[cur.len() - 1] == '/'
        invariant
            without_slashes(cur@) == without_slashes(s@),
        decreases cur@.len(),
    {
        let ghost before = cur@;
        let _ = cur.pop();
        assert(cur@ =~= before.drop_last());
    }
    cur
}

/// The explorer host, from the setting of the environment.
pub fn explorer_host(setting: Option<&str>) -> (r: String)
    ensures
        r@ == host_of(match setting {
            Some(s) => Some(s@),
            None => None,
        }),
{
    if let Some(s) = setting {
        let a = drop_prefix(trim(chars_of(s).as_slice()), "http://");
        let b = drop_prefix(a, "https://");
        let h = drop_slashes(b);
        if h.len() > 0 {
            return text_of(h.as_slice());
        }
    }
    owned(DEFAULT_EXPLORER)
}

/// The hash that a text with or without `0x` spells.
pub open spec fn parsed_hash(s: Seq<char>) -> Option<Seq<u8>> {
    let body = if begins_with(s, "0x"@) {
        s.skip(2)
    } else {
        s
    };
    match unhexed(encode_utf8(body)) {
        Ok(b) => if b.len() == 32 {
            Some(b)
        } else {
            None
        },
        Err(_) => None,
    }
}

pub fn parse_hex32(s: &str) -> (r: Option<[u8; 32]>)
    ensures
        match r {
            Some(h) => parsed_hash(s@) == Some(h@),
            None => parsed_hash(s@) is None,
        },
{
    let chars = chars_of(s);
    let body = if starts_with(chars.as_slice(), chars_of("0x").as_slice()) {
        proof {
            reveal_strlit("0x");
        }
        let b = sub_chars(chars.as_slice(), 2, chars.len());
        assert(b@ =~= s@.skip(2));
        b
    } else {
        chars
    };
    match hex_decode(text_of(body.as_slice()).as_str().as_bytes()) {
        Ok(bytes) => {
            if bytes.len() != 32 {
                return None;
            }
            let h = array32(bytes.as_slice(), 0);
            assert(h@ =~= bytes@);
            Some(h)
        },
        Err(_) => None,
    }
}

/// The hash in an optional field.
pub open spec fn field_hash(s: Option<String>) -> Option<Seq<u8>> {
    match s {
        Some(t) => parsed_hash(t@),
        None => None,
    }
}

/// Parents and nonce of a compose reply; nothing where a parent is missing.
pub fn compose_hint(reply: &ComposeReply) -> (r: Option<ComposeHint>)
    ensures
        match r {
            Some(h) => {
                &&& field_hash(reply.parent_1) == Some(h.parent_1@)
                &&& field_hash(reply.parent_2) == Some(h.parent_2@)
                &&& h.nonce == reply.nonce
                &&& h.balance == reply.balance
            },
            None => field_hash(reply.parent_1) is None || field_hash(reply.parent_2) is None,
        },
{
    let p1 = match &reply.parent_1 {
        Some(t) => parse_hex32(t.as_str()),
        None => None,
    };
    let p2 = match &reply.parent_2 {
        Some(t) => parse_hex32(t.as_str()),
        None => None,
    };
    match (p1, p2) {
        (Some(a), Some(b)) => Some(
            ComposeHint {
                nonce: reply.nonce,
                parent_1: a,
                parent_2: b,
                balance: reply.balance,
            },
        ),
        _ => None,
    }
}

/// A byte that stands for itself in a path.
pub open spec fn is_plain_byte(b: u8) -> bool {
    ||| 0x41 <= b <= 0x5a
    ||| 0x61 <= b <= 0x7a
    ||| 0x30 <= b <= 0x39
    ||| b == 0x2d
    ||| b == 0x5f
    ||| b == 0x2e
}

/// An upper-case hexadecimal digit.
pub open spec fn upper_hex(d: int) -> char {
    if d < 10 {
        (('0' as int) + d) as char
    } else {
        (('A' as int) + (d - 10)) as char
    }
}

/// Percent-encoded bytes.
pub open spec fn percent_text(b: Seq<u8>) -> Seq<char>
    decreases b.len(),
{
    if b.len() == 0 {
        Seq::empty()
    } else {
        let head = percent_text(b.drop_last());
        let x = b.last();
        if is_plain_byte(x) {
            head.push(x as char)
        } else {
            head.push('%').push(upper_hex((x / 16) as int)).push(upper_hex((x % 16) as int))
        }
    }
}

fn upper_hex_digit(d: u8) -> (r: char)
    requires
        d < 16,
    ensures
        r == upper_hex(d as int),
{
    if d < 10 {
        (d + 48) as char
    } else {
        (d + 55) as char
    }
}

/// Percent-encodes a path segment.
pub fn encode_path(s: &str) -> (r: String)
    ensures
        r@ == percent_text(encode_utf8(s@)),
{
    let bytes = s.as_bytes();
    let mut out: Vec<char> = Vec::new();
    let mut i: usize = 0;
    assert(percent_text(bytes@.take(0)) =~= Seq::<char>::empty());
    while i < bytes.len()
        invariant
            bytes@ == encode_utf8(s@),
            i <= bytes@.len(),
            out@ == percent_text(bytes@.take(i as int)),
        decreases bytes@.len() - i,
    {
        let b: u8 = bytes[i];
        assert(bytes@.take(i + 1).drop_last() =~= bytes@.take(i as int));
        if (0x41 <= b && b <= 0x5a) || (0x61 <= b && b <= 0x7a) || (0x30 <= b && b <= 0x39) || b
            == 0x2d || b == 0x5f || b == 0x2e {
            out.push(b as char);
        } else {
            out.push('%');
            out.push(upper_hex_digit(b / 16));
            out.push(upper_hex_digit(b % 16));
        }
        i += 1;
    }
    assert(bytes@.take(i as int) =~= bytes@);
    text_of(out.as_slice())
}

/// The request for a path.
pub fn request_text(host: &str, path: &str) -> (r: String)
    ensures
        r@ == "GET "@ + path@ + " HTTP/1.1\r\nHost: "@ + host@ + "\r\nConnection: close\r\n\r\n"@,
{
    let mut out = String::new();
    push_text(&mut out, "GET ");
    push_text(&mut out, path);
    push_text(&mut out, " HTTP/1.1\r\nHost: ");
    push_text(&mut out, host);
    push_text(&mut out, "\r\nConnection: close\r\n\r\n");
    assert(out@ =~= "GET "@ + path@ + " HTTP/1.1\r\nHost: "@ + host@
        + "\r\nConnection: close\r\n\r\n"@);
    out
}

/// What stands between the first and the second `sep`; nothing without a `sep`.
pub open spec fn second_part(s: Seq<char>, sep: Seq<char>) -> Option<Seq<char>> {
    let a = find_from(s, sep, 0);
    if a >= s.len() {
        None
    } else {
        let b = a + sep.len();
        Some(s.subrange(b, find_from(s, sep, b)))
    }
}

fn after_separator(s: &[char], sep: &str) -> (r: Option<Vec<char>>)
    requires
        sep@.len() > 0,
    ensures
        match r {
            Some(v) => second_part(s@, sep@) == Some(v@),
            None => second_part(s@, sep@) is None,
        },
{
    let needle = chars_of(sep);
    let a: usize = find_text(s, needle.as_slice(), 0);
    if a >= s.len() {
        return None;
    }
    let b: usize = a + needle.len();
    let c: usize = find_text(s, needle.as_slice(), b);
    Some(sub_chars(s, b, c))
}

/// The body of a reply with status 200.
pub open spec fn body_of(text: Seq<char>) -> Option<Seq<char>> {
    if begins_with(text, "HTTP/1.1 200"@) || begins_with(text, "HTTP/1.0 200"@) {
        match second_part(text, "\r\n\r\n"@) {
            Some(b) => Some(b),
            None => match second_part(text, "\n\n"@) {
                Some(b) => Some(b),
                None => Some(Seq::empty()),
            },
        }
    } else {
        None
    }
}

/// The body of a reply; nothing unless its status is 200.
pub fn reply_body(text: &str) -> (r: Option<String>)
    ensures
        match r {
            Some(b) => body_of(text@) == Some(b@),
            None => body_of(text@) is None,
        },
{
    let chars = chars_of(text);
    let ok = starts_with(chars.as_slice(), chars_of("HTTP/1.1 200").as_slice()) || starts_with(
        chars.as_slice(),
        chars_of("HTTP/1.0 200").as_slice(),
    );
    if !ok {
        return None;
    }
    proof {
        reveal_strlit("\r\n\r\n");
        reveal_strlit("\n\n");
    }
    if let Some(b) = after_separator(chars.as_slice(), "\r\n\r\n") {
        return Some(text_of(b.as_slice()));
    }
    if let Some(b) = after_separator(chars.as_slice(), "\n\n") {
        return Some(text_of(b.as_slice()));
    }
    let e = String::new();
    assert(e@ =~= Seq::<char>::empty());
    Some(e)
}

} // verus!
