//! Answers of the explorer's HTTP/1.1 server. Sockets and the page itself are the
//! caller's part.

use vstd::prelude::*;
use vstd::utf8::{encode_utf8, is_ascii_chars, is_ascii_chars_encode_utf8};

use crate::bytes::{append, to_vec};
use crate::crypto::hash::{hex_encode, hex_text, hex_value, is_hex_digit};
use crate::dag::tx::{array_of, lemma_array_of, TxHash};
use crate::economics::HARD_CAP;
use crate::explorer::api::{get_kron_asset_metadata, ExplorerApi};
use crate::explorer::indexer::{
    latest, row_from, row_views, vertex_row, vertex_views, IndexView, IndexedTransaction,
    IndexedVertex, NetworkStats, RowView, VertexView, WalletSnapshot,
};
use crate::kron::{NETWORK_NAME, TICKER};
use crate::kron_wallet::amount::{amount_text, format_kron_amount};
use crate::kron_wallet::explorer::{is_plain_byte, parse_hex32, parsed_hash, percent_text, upper_hex};
use crate::text::{begins_with, chars_of, copy_chars, decimal, decimal_text, is_white,
    lemma_text_round_trip, owned, push_chars, push_text, same_chars, same_text, starts_with,
    sub_chars, text_from, text_from_bytes, text_of, text_views, trimmed_start, white};

verus! {

/// A character inside a JSON string: quotes, backslashes and line ends are escaped,
/// other control characters are dropped.
pub open spec fn escaped(c: char) -> Seq<char> {
    if c == '"' {
        seq!['\\', '"']
    } else if c == '\\' {
        seq!['\\', '\\']
    } else if c == '\n' {
        seq!['\\', 'n']
    } else if c == '\r' {
        seq!['\\', 'r']
    } else if (c as u32) < 32 {
        Seq::empty()
    } else {
        seq![c]
    }
}

/// The escaped characters of a text.
pub open spec fn escaped_all(s: Seq<char>) -> Seq<char>
    decreases s.len(),
{
    if s.len() == 0 {
        Seq::empty()
    } else {
        escaped_all(s.drop_last()) + escaped(s.last())
    }
}

/// A JSON string.
pub open spec fn quoted(s: Seq<char>) -> Seq<char> {
    seq!['"'] + escaped_all(s) + seq!['"']
}

/// A JSON string.
pub fn json_str(s: &str) -> (r: String)
    ensures
        r@ == quoted(s@),
{
    let chars = chars_of(s);
    let mut out = String::new();
    out.push('"');
    let ghost head = out@;
    let mut i: usize = 0;
    assert(head =~= seq!['"']);
    assert(head + escaped_all(chars@.take(0)) =~= head);
    while i < chars.len()
        invariant
            i <= chars@.len(),
            out@ == head + escaped_all(chars@.take(i as int)),
        decreases chars@.len() - i,
    {
        let c = chars[i];
        let ghost before = out@;
        if c == '"' {
            out.push('\\');
            out.push('"');
        } else if c == '\\' {
            out.push('\\');
            out.push('\\');
        } else if c == '\n' {
            out.push('\\');
            out.push('n');
        } else if c == '\r' {
            out.push('\\');
            out.push('r');
        } else if (c as u32) >= 32 {
            out.push(c);
        }
        proof {
            assert(chars@.take(i + 1).drop_last() =~= chars@.take(i as int));
            assert(out@ =~= before + escaped(c));
            assert(out@ =~= head + escaped_all(chars@.take(i + 1)));
        }
        i += 1;
    }
    assert(chars@.take(i as int) =~= chars@);
    out.push('"');
    assert(out@ =~= quoted(s@));
    out
}

fn push_quoted(out: &mut String, s: &str)
    ensures
        final(out)@ == old(out)@ + quoted(s@),
{
    push_text(out, json_str(s).as_str());
}

fn push_number(out: &mut String, n: u64)
    ensures
        final(out)@ == old(out)@ + decimal_text(n as nat),
{
    push_chars(out, decimal(n).as_slice());
}

/// A JSON string of an amount in coins.
fn push_coins(out: &mut String, units: u64)
    ensures
        final(out)@ == old(out)@ + quoted(amount_text(units)),
{
    push_quoted(out, format_kron_amount(units).as_str());
}

/// A JSON string of a hash in hexadecimal.
fn push_hash(out: &mut String, h: &TxHash)
    ensures
        final(out)@ == old(out)@ + quoted(hex_text(h@)),
{
    push_quoted(out, hex_encode(h.as_slice()).as_str());
}

pub open spec fn flag_text(b: bool) -> Seq<char> {
    if b {
        "true"@
    } else {
        "false"@
    }
}

fn push_flag(out: &mut String, b: bool)
    ensures
        final(out)@ == old(out)@ + flag_text(b),
{
    if b {
        push_text(out, "true");
    } else {
        push_text(out, "false");
    }
}

/// Texts with commas between them.
pub open spec fn comma(v: Seq<Seq<char>>) -> Seq<char>
    decreases v.len(),
{
    if v.len() == 0 {
        Seq::empty()
    } else if v.len() == 1 {
        v[0]
    } else {
        comma(v.drop_last()) + ","@ + v.last()
    }
}

/// `v` with one more text.
proof fn lemma_comma_push(v: Seq<Seq<char>>, t: Seq<char>)
    ensures
        comma(v.push(t)) == (if v.len() == 0 {
            t
        } else {
            comma(v) + ","@ + t
        }),
{
    assert(v.push(t).drop_last() =~= v);
}

/// Appends another text to a list of `i` texts.
fn push_item(out: &mut String, i: usize, item: &str, Ghost(head): Ghost<Seq<char>>, Ghost(v): Ghost<
    Seq<Seq<char>>,
>)
    requires
        i == v.len(),
        old(out)@ == head + comma(v),
    ensures
        final(out)@ == head + comma(v.push(item@)),
{
    proof {
        lemma_comma_push(v, item@);
    }
    if i > 0 {
        push_text(out, ",");
    }
    push_text(out, item);
    assert(out@ =~= head + comma(v.push(item@)));
}

/// The JSON strings of texts, with commas between them.
pub open spec fn quoted_list(v: Seq<Seq<char>>) -> Seq<char> {
    comma(v.map_values(|s: Seq<char>| quoted(s)))
}

fn text_list_json(v: &Vec<String>) -> (r: String)
    ensures
        r@ == quoted_list(text_views(v@)),
{
    let ghost texts = text_views(v@).map_values(|s: Seq<char>| quoted(s));
    let mut out = String::new();
    let mut i: usize = 0;
    assert(out@ =~= Seq::<char>::empty() + comma(texts.take(0)));
    while i < v.len()
        invariant
            i <= v@.len(),
            texts == text_views(v@).map_values(|s: Seq<char>| quoted(s)),
            out@ == Seq::<char>::empty() + comma(texts.take(i as int)),
        decreases v@.len() - i,
    {
        let item = json_str(v[i].as_str());
        proof {
            assert(texts[i as int] == item@);
            assert(texts.take(i + 1) =~= texts.take(i as int).push(item@));
        }
        push_item(
            &mut out,
            i,
            item.as_str(),
            Ghost(Seq::empty()),
            Ghost(texts.take(i as int)),
        );
        i += 1;
    }
    assert(texts.take(i as int) =~= texts);
    assert(out@ =~= comma(texts));
    out
}

fn hash_list_json(v: &Vec<TxHash>) -> (r: String)
    ensures
        r@ == quoted_list(v@.map_values(|h: TxHash| hex_text(h@))),
{
    let mut texts: Vec<String> = Vec::new();
    let mut i: usize = 0;
    while i < v.len()
        invariant
            i <= v@.len(),
            texts@.len() == i,
            forall|k: int| 0 <= k < i ==> (#[trigger] texts@[k])@ == hex_text(v@[k]@),
        decreases v@.len() - i,
    {
        texts.push(hex_encode(v[i].as_slice()));
        i += 1;
    }
    assert(text_views(texts@) =~= v@.map_values(|h: TxHash| hex_text(h@)));
    text_list_json(&texts)
}

/// A row as JSON.
#[verifier::opaque]
pub open spec fn row_text(r: RowView) -> Seq<char> {
    "{\"hash\":"@ + quoted(hex_text(r.hash@)) + ",\"from\":"@ + quoted(r.from) + ",\"to\":"@
        + quoted(r.to) + ",\"amount\":"@ + decimal_text(r.amount as nat) + ",\"amount_kron\":"@
        + quoted(amount_text(r.amount)) + ",\"fee\":"@ + decimal_text(r.fee as nat)
        + ",\"fee_kron\":"@ + quoted(amount_text(r.fee)) + ",\"parent_1\":"@ + quoted(
        hex_text(r.parent_1@),
    ) + ",\"parent_2\":"@ + quoted(hex_text(r.parent_2@)) + ",\"weight\":"@ + decimal_text(
        r.weight as nat,
    ) + ",\"is_tip\":"@ + flag_text(r.is_tip) + ",\"conflicted\":"@ + flag_text(r.conflicted)
        + ",\"dag_tx_index\":"@ + decimal_text(r.dag_tx_index as nat)
        + ",\"fee_split\":{\"miner_amount\":"@ + decimal_text(r.miner_amount as nat)
        + ",\"relay_amount\":"@ + decimal_text(r.relay_amount as nat) + ",\"miner_amount_kron\":"@
        + quoted(amount_text(r.miner_amount)) + ",\"relay_amount_kron\":"@ + quoted(
        amount_text(r.relay_amount),
    ) + ",\"miner_address\":"@ + quoted(r.miner_address) + ",\"relay_addresses\":["@ + quoted_list(
        r.relay_addresses,
    ) + "]}}"@
}

pub fn tx_json(tx: &IndexedTransaction) -> (r: String)
    ensures
        r@ == row_text(tx@),
{
    let mut out = owned("{\"hash\":");
    push_hash(&mut out, &tx.hash);
    push_text(&mut out, ",\"from\":");
    push_quoted(&mut out, tx.from.as_str());
    push_text(&mut out, ",\"to\":");
    push_quoted(&mut out, tx.to.as_str());
    push_text(&mut out, ",\"amount\":");
    push_number(&mut out, tx.amount);
    push_text(&mut out, ",\"amount_kron\":");
    push_coins(&mut out, tx.amount);
    push_text(&mut out, ",\"fee\":");
    push_number(&mut out, tx.fee);
    push_text(&mut out, ",\"fee_kron\":");
    push_coins(&mut out, tx.fee);
    push_text(&mut out, ",\"parent_1\":");
    push_hash(&mut out, &tx.parent_1);
    push_text(&mut out, ",\"parent_2\":");
    push_hash(&mut out, &tx.parent_2);
    push_text(&mut out, ",\"weight\":");
    push_number(&mut out, tx.weight);
    push_text(&mut out, ",\"is_tip\":");
    push_flag(&mut out, tx.is_tip);
    push_text(&mut out, ",\"conflicted\":");
    push_flag(&mut out, tx.conflicted);
    push_text(&mut out, ",\"dag_tx_index\":");
    push_number(&mut out, tx.dag_tx_index);
    push_text(&mut out, ",\"fee_split\":{\"miner_amount\":");
    push_number(&mut out, tx.fee_split.miner_amount);
    push_text(&mut out, ",\"relay_amount\":");
    push_number(&mut out, tx.fee_split.relay_amount);
    push_text(&mut out, ",\"miner_amount_kron\":");
    push_coins(&mut out, tx.fee_split.miner_amount);
    push_text(&mut out, ",\"relay_amount_kron\":");
    push_coins(&mut out, tx.fee_split.relay_amount);
    push_text(&mut out, ",\"miner_address\":");
    push_quoted(&mut out, tx.fee_split.miner_address.as_str());
    push_text(&mut out, ",\"relay_addresses\":[");
    push_text(&mut out, text_list_json(&tx.fee_split.relay_addresses).as_str());
    push_text(&mut out, "]}}");
    proof {
        reveal(row_text);
    }
    out
}

/// Rows as a JSON array.
pub open spec fn rows_text(rows: Seq<RowView>) -> Seq<char> {
    "["@ + comma(rows.map_values(|r: RowView| row_text(r))) + "]"@
}

pub fn txs_json(txs: &Vec<IndexedTransaction>) -> (r: String)
    ensures
        r@ == rows_text(row_views(txs@)),
{
    let ghost texts = row_views(txs@).map_values(|r: RowView| row_text(r));
    let mut out = owned("[");
    let mut i: usize = 0;
    assert(out@ =~= "["@ + comma(texts.take(0)));
    while i < txs.len()
        invariant
            i <= txs@.len(),
            texts == row_views(txs@).map_values(|r: RowView| row_text(r)),
            out@ == "["@ + comma(texts.take(i as int)),
        decreases txs@.len() - i,
    {
        let item = tx_json(&txs[i]);
        proof {
            assert(row_views(txs@)[i as int] == txs@[i as int]@);
            assert(texts[i as int] == item@);
            assert(texts.take(i + 1) =~= texts.take(i as int).push(item@));
        }
        push_item(&mut out, i, item.as_str(), Ghost("["@), Ghost(texts.take(i as int)));
        i += 1;
    }
    assert(texts.take(i as int) =~= texts);
    push_text(&mut out, "]");
    out
}

/// A vertex as JSON.
#[verifier::opaque]
pub open spec fn vertex_text(v: VertexView) -> Seq<char> {
    "{\"hash\":"@ + quoted(hex_text(v.hash@)) + ",\"tx_count\":"@ + decimal_text(v.tx_count as nat)
        + ",\"subsidy\":"@ + decimal_text(v.subsidy as nat) + ",\"subsidy_kron\":"@ + quoted(
        amount_text(v.subsidy),
    ) + ",\"total_fees\":"@ + decimal_text(v.total_fees as nat) + ",\"miner_share\":"@
        + decimal_text(v.miner_share as nat) + ",\"miner_share_kron\":"@ + quoted(
        amount_text(v.miner_share),
    ) + ",\"relay_share\":"@ + decimal_text(v.relay_share as nat) + ",\"relay_share_kron\":"@
        + quoted(amount_text(v.relay_share)) + ",\"miner\":"@ + quoted(v.miner) + ",\"txs\":"@
        + rows_text(v.txs) + "}"@
}

pub fn vertex_json(v: &IndexedVertex) -> (r: String)
    ensures
        r@ == vertex_text(v@),
{
    let mut out = owned("{\"hash\":");
    push_hash(&mut out, &v.hash);
    push_text(&mut out, ",\"tx_count\":");
    push_number(&mut out, v.tx_count);
    push_text(&mut out, ",\"subsidy\":");
    push_number(&mut out, v.subsidy);
    push_text(&mut out, ",\"subsidy_kron\":");
    push_coins(&mut out, v.subsidy);
    push_text(&mut out, ",\"total_fees\":");
    push_number(&mut out, v.total_fees);
    push_text(&mut out, ",\"miner_share\":");
    push_number(&mut out, v.miner_share);
    push_text(&mut out, ",\"miner_share_kron\":");
    push_coins(&mut out, v.miner_share);
    push_text(&mut out, ",\"relay_share\":");
    push_number(&mut out, v.relay_share);
    push_text(&mut out, ",\"relay_share_kron\":");
    push_coins(&mut out, v.relay_share);
    push_text(&mut out, ",\"miner\":");
    push_quoted(&mut out, v.miner.as_str());
    push_text(&mut out, ",\"txs\":");
    push_text(&mut out, txs_json(&v.txs).as_str());
    push_text(&mut out, "}");
    proof {
        reveal(vertex_text);
    }
    out
}

/// Vertices as a JSON array.
pub open spec fn vertices_text(v: Seq<VertexView>) -> Seq<char> {
    "["@ + comma(v.map_values(|x: VertexView| vertex_text(x))) + "]"@
}

fn vertices_json(verts: &Vec<IndexedVertex>) -> (r: String)
    ensures
        r@ == vertices_text(vertex_views(verts@)),
{
    let ghost texts = vertex_views(verts@).map_values(|x: VertexView| vertex_text(x));
    let mut out = owned("[");
    let mut i: usize = 0;
    assert(out@ =~= "["@ + comma(texts.take(0)));
    while i < verts.len()
        invariant
            i <= verts@.len(),
            texts == vertex_views(verts@).map_values(|x: VertexView| vertex_text(x)),
            out@ == "["@ + comma(texts.take(i as int)),
        decreases verts@.len() - i,
    {
        let item = vertex_json(&verts[i]);
        proof {
            assert(vertex_views(verts@)[i as int] == verts@[i as int]@);
            assert(texts[i as int] == item@);
            assert(texts.take(i + 1) =~= texts.take(i as int).push(item@));
        }
        push_item(&mut out, i, item.as_str(), Ghost("["@), Ghost(texts.take(i as int)));
        i += 1;
    }
    assert(texts.take(i as int) =~= texts);
    push_text(&mut out, "]");
    out
}

/// The stats as JSON.
pub open spec fn stats_text(s: NetworkStats) -> Seq<char> {
    "{\"vertex_count\":"@ + decimal_text(s.vertex_count as nat) + ",\"tip_count\":"@ + decimal_text(
        s.tip_count as nat,
    ) + ",\"dag_tx_count\":"@ + decimal_text(s.dag_tx_count as nat) + ",\"tx_count\":"@
        + decimal_text(s.dag_tx_count as nat) + ",\"circulating_supply\":"@ + decimal_text(
        s.circulating_supply as nat,
    ) + ",\"circulating_kron\":"@ + quoted(amount_text(s.circulating_supply)) + ",\"hard_cap\":"@
        + decimal_text(s.hard_cap as nat) + ",\"hard_cap_kron\":"@ + quoted(amount_text(HARD_CAP))
        + ",\"txs_remaining_until_halving\":"@ + decimal_text(
        s.txs_remaining_until_halving as nat,
    ) + "}"@
}

pub fn stats_json(s: &NetworkStats) -> (r: String)
    ensures
        r@ == stats_text(*s),
{
    let mut out = owned("{\"vertex_count\":");
    push_number(&mut out, s.vertex_count);
    push_text(&mut out, ",\"tip_count\":");
    push_number(&mut out, s.tip_count);
    push_text(&mut out, ",\"dag_tx_count\":");
    push_number(&mut out, s.dag_tx_count);
    push_text(&mut out, ",\"tx_count\":");
    push_number(&mut out, s.dag_tx_count);
    push_text(&mut out, ",\"circulating_supply\":");
    push_number(&mut out, s.circulating_supply);
    push_text(&mut out, ",\"circulating_kron\":");
    push_coins(&mut out, s.circulating_supply);
    push_text(&mut out, ",\"hard_cap\":");
    push_number(&mut out, s.hard_cap);
    push_text(&mut out, ",\"hard_cap_kron\":");
    push_coins(&mut out, HARD_CAP);
    push_text(&mut out, ",\"txs_remaining_until_halving\":");
    push_number(&mut out, s.txs_remaining_until_halving);
    push_text(&mut out, "}");
    out
}

/// The brand record as JSON.
pub open spec fn metadata_text() -> Seq<char> {
    "{\"name\":"@ + quoted(NETWORK_NAME@) + ",\"ticker\":"@ + quoted(TICKER@) + ",\"decimals\":"@
        + decimal_text(6) + "}"@
}

pub fn metadata_json() -> (r: String)
    ensures
        r@ == metadata_text(),
{
    let meta = get_kron_asset_metadata();
    let mut out = owned("{\"name\":");
    push_quoted(&mut out, meta.name);
    push_text(&mut out, ",\"ticker\":");
    push_quoted(&mut out, meta.ticker);
    push_text(&mut out, ",\"decimals\":");
    push_number(&mut out, meta.decimals as u64);
    push_text(&mut out, "}");
    out
}

/// A wallet as JSON.
pub open spec fn wallet_text(address: Seq<char>, balance: u64, nonce: u64, rows: Seq<RowView>) -> Seq<
    char,
> {
    "{\"address\":"@ + quoted(address) + ",\"balance\":"@ + decimal_text(balance as nat)
        + ",\"balance_kron\":"@ + quoted(amount_text(balance)) + ",\"nonce\":"@ + decimal_text(
        nonce as nat,
    ) + ",\"txs\":"@ + rows_text(rows) + "}"@
}

pub fn wallet_json(w: &WalletSnapshot) -> (r: String)
    ensures
        r@ == wallet_text(w.address@, w.balance, w.nonce, row_views(w.txs@)),
{
    let mut out = owned("{\"address\":");
    push_quoted(&mut out, w.address.as_str());
    push_text(&mut out, ",\"balance\":");
    push_number(&mut out, w.balance);
    push_text(&mut out, ",\"balance_kron\":");
    push_coins(&mut out, w.balance);
    push_text(&mut out, ",\"nonce\":");
    push_number(&mut out, w.nonce);
    push_text(&mut out, ",\"txs\":");
    push_text(&mut out, txs_json(&w.txs).as_str());
    push_text(&mut out, "}");
    out
}

/// What a wallet needs to compose, as JSON.
pub open spec fn compose_text(x: IndexView, address: Seq<char>) -> Seq<char> {
    "{\"nonce\":"@ + decimal_text(x.nonce(address) as nat) + ",\"balance\":"@ + decimal_text(
        x.balance(address) as nat,
    ) + ",\"parent_1\":"@ + quoted(hex_text(x.parents().0@)) + ",\"parent_2\":"@ + quoted(
        hex_text(x.parents().1@),
    ) + ",\"tips\":["@ + quoted_list(x.tips.map_values(|h: TxHash| hex_text(h@))) + "]}"@
}

fn compose_json(api: &ExplorerApi, address: &str) -> (r: String)
    requires
        api.wf(),
    ensures
        r@ == compose_text(api@, address@),
{
    let (nonce, p1, p2, balance) = api.compose_hint(address);
    let mut out = owned("{\"nonce\":");
    push_number(&mut out, nonce);
    push_text(&mut out, ",\"balance\":");
    push_number(&mut out, balance);
    push_text(&mut out, ",\"parent_1\":");
    push_hash(&mut out, &p1);
    push_text(&mut out, ",\"parent_2\":");
    push_hash(&mut out, &p2);
    push_text(&mut out, ",\"tips\":[");
    push_text(&mut out, hash_list_json(&api.tips()).as_str());
    push_text(&mut out, "]}");
    out
}

/// The error record.
pub open spec fn error_text(msg: Seq<char>) -> Seq<char> {
    "{\"error\":"@ + quoted(msg) + "}"@
}

/// The reason phrase of a status.
pub open spec fn reason(status: u16) -> Seq<char> {
    if status == 200 {
        "OK"@
    } else if status == 404 {
        "Not Found"@
    } else if status == 405 {
        "Method Not Allowed"@
    } else {
        "Error"@
    }
}

/// A response on the wire.
pub open spec fn response_bytes(status: u16, ctype: Seq<char>, body: Seq<u8>) -> Seq<u8> {
    encode_utf8(
        "HTTP/1.1 "@ + decimal_text(status as nat) + " "@ + reason(status) + "\r\nContent-Type: "@
            + ctype + "\r\nContent-Length: "@ + decimal_text(body.len())
            + "\r\nConnection: close\r\nAccess-Control-Allow-Origin: *\r\n\r\n"@,
    ) + body
}

/// A response on the wire.
pub fn write_response(status: u16, ctype: &str, body: &[u8]) -> (r: Vec<u8>)
    ensures
        r@ == response_bytes(status, ctype@, body@),
{
    let mut head = owned("HTTP/1.1 ");
    push_number(&mut head, status as u64);
    push_text(&mut head, " ");
    if status == 200 {
        push_text(&mut head, "OK");
    } else if status == 404 {
        push_text(&mut head, "Not Found");
    } else if status == 405 {
        push_text(&mut head, "Method Not Allowed");
    } else {
        push_text(&mut head, "Error");
    }
    push_text(&mut head, "\r\nContent-Type: ");
    push_text(&mut head, ctype);
    push_text(&mut head, "\r\nContent-Length: ");
    push_number(&mut head, body.len() as u64);
    push_text(&mut head, "\r\nConnection: close\r\nAccess-Control-Allow-Origin: *\r\n\r\n");
    let mut out = to_vec(head.as_str().as_bytes());
    append(&mut out, body);
    out
}

/// A JSON response.
pub open spec fn json_bytes(status: u16, body: Seq<char>) -> Seq<u8> {
    response_bytes(status, "application/json; charset=utf-8"@, encode_utf8(body))
}

fn json_response(status: u16, body: &str) -> (r: Vec<u8>)
    ensures
        r@ == json_bytes(status, body@),
{
    write_response(status, "application/json; charset=utf-8", body.as_bytes())
}

fn json_err(status: u16, msg: &str) -> (r: Vec<u8>)
    ensures
        r@ == json_bytes(status, error_text(msg@)),
{
    let mut out = owned("{\"error\":");
    push_quoted(&mut out, msg);
    push_text(&mut out, "}");
    json_response(status, out.as_str())
}

/// Whether two bytes alone are UTF-8.
pub open spec fn is_text_pair(a: u8, b: u8) -> bool {
    ||| a < 0x80 && b < 0x80
    ||| 0xc2 <= a <= 0xdf && 0x80 <= b <= 0xbf
}

/// The byte that two characters behind a percent sign stand for: two hexadecimal
/// digits, or a plus sign and one. Two bytes that are no text stand for zero.
pub open spec fn escape_value(a: u8, b: u8) -> Option<u8> {
    if is_hex_digit(a) && is_hex_digit(b) {
        Some((16 * hex_value(a) + hex_value(b)) as u8)
    } else if a == 0x2b && is_hex_digit(b) {
        Some(hex_value(b) as u8)
    } else if !is_text_pair(a, b) {
        Some(0)
    } else {
        None
    }
}

/// Percent-decoded bytes from `i` on. A percent sign with fewer than two bytes behind it
/// stands for itself.
pub open spec fn unescaped(b: Seq<u8>, i: int) -> Seq<u8>
    decreases b.len() - i,
{
    if !(0 <= i < b.len()) {
        Seq::empty()
    } else if b[i] == 0x25 && i + 2 < b.len() && escape_value(b[i + 1], b[i + 2]) is Some {
        seq![escape_value(b[i + 1], b[i + 2]).unwrap()] + unescaped(b, i + 3)
    } else {
        seq![b[i]] + unescaped(b, i + 1)
    }
}

fn hex_digit_value(b: u8) -> (r: Option<u8>)
    ensures
        match r {
            Some(v) => is_hex_digit(b) && v == hex_value(b) && v < 16,
            None => !is_hex_digit(b),
        },
{
    if 0x30 <= b && b <= 0x39 {
        Some(b - 0x30)
    } else if 0x61 <= b && b <= 0x66 {
        Some(b - 0x57)
    } else if 0x41 <= b && b <= 0x46 {
        Some(b - 0x37)
    } else {
        None
    }
}

fn escape(a: u8, b: u8) -> (r: Option<u8>)
    ensures
        r == escape_value(a, b),
{
    if let Some(lo) = hex_digit_value(b) {
        if let Some(hi) = hex_digit_value(a) {
            return Some(16 * hi + lo);
        }
        if a == 0x2b {
            return Some(lo);
        }
    }
    if !((a < 0x80 && b < 0x80) || (0xc2 <= a && a <= 0xdf && 0x80 <= b && b <= 0xbf)) {
        return Some(0);
    }
    None
}

/// The text behind a percent-encoded one.
pub open spec fn percent_decoded(s: Seq<char>) -> Seq<char> {
    text_from(unescaped(encode_utf8(s), 0))
}

pub fn percent_decode(s: &str) -> (r: String)
    ensures
        r@ == percent_decoded(s@),
{
    let bytes = s.as_bytes();
    let mut out: Vec<u8> = Vec::new();
    let mut i: usize = 0;
    assert(out@ + unescaped(bytes@, 0) =~= unescaped(bytes@, 0));
    while i < bytes.len()
        invariant
            i <= bytes@.len(),
            out@ + unescaped(bytes@, i as int) == unescaped(bytes@, 0),
        decreases bytes@.len() - i,
    {
        let ghost before = out@;
        let mut step: usize = 1;
        let mut value: u8 = bytes[i];
        if bytes[i] == 0x25 && bytes.len() - i > 2 {
            if let Some(v) = escape(bytes[i + 1], bytes[i + 2]) {
                value = v;
                step = 3;
            }
        }
        out.push(value);
        proof {
            assert(unescaped(bytes@, i as int) == seq![value] + unescaped(bytes@, i + step));
            assert(before + (seq![value] + unescaped(bytes@, i + step)) =~= out@ + unescaped(
                bytes@,
                i + step,
            ));
        }
        i = i + step;
    }
    assert(out@ + Seq::<u8>::empty() =~= out@);
    text_from_bytes(out.as_slice())
}

/// The answer to a GET.
pub open spec fn answer(x: IndexView, page: Seq<char>, path: Seq<char>) -> Seq<u8> {
    if path == "/"@ || path == "/index.html"@ {
        response_bytes(200, "text/html; charset=utf-8"@, encode_utf8(page))
    } else if path == "/api/stats"@ {
        json_bytes(200, stats_text(x.stats()))
    } else if path == "/api/metadata"@ {
        json_bytes(200, metadata_text())
    } else if path == "/api/vertices"@ || path == "/api/tips"@ {
        json_bytes(
            200,
            vertices_text(latest(x.rows, 32).map_values(|t: RowView| vertex_row(t))),
        )
    } else if path == "/api/txs"@ {
        json_bytes(200, rows_text(latest(x.rows, 64)))
    } else if begins_with(path, "/api/tx/"@) {
        match parsed_hash(percent_decoded(path.skip("/api/tx/"@.len() as int))) {
            Some(h) => match row_from(x.rows, array_of(h), 0) {
                Some(row) => json_bytes(200, row_text(row)),
                None => json_bytes(404, error_text("transaction not found"@)),
            },
            None => json_bytes(404, error_text("transaction not found"@)),
        }
    } else if begins_with(path, "/api/wallet/"@) {
        let a = percent_decoded(path.skip("/api/wallet/"@.len() as int));
        json_bytes(200, wallet_text(x.shown(a), x.balance(a), x.nonce(a), x.history(a)))
    } else if begins_with(path, "/api/compose/"@) {
        json_bytes(
            200,
            compose_text(x, percent_decoded(path.skip("/api/compose/"@.len() as int))),
        )
    } else {
        json_bytes(404, error_text("not found"@))
    }
}

/// The rest of a path behind a prefix.
fn rest_of(path: &[char], prefix: &str) -> (r: Option<String>)
    ensures
        match r {
            Some(t) => begins_with(path@, prefix@) && t@ == path@.skip(prefix@.len() as int),
            None => !begins_with(path@, prefix@),
        },
{
    let p = chars_of(prefix);
    if starts_with(path, p.as_slice()) {
        let rest = sub_chars(path, p.len(), path.len());
        assert(rest@ =~= path@.skip(prefix@.len() as int));
        Some(text_of(rest.as_slice()))
    } else {
        None
    }
}

/// The answer to a GET of `path`, with `page` as the start page.
pub fn dispatch(api: &ExplorerApi, page: &str, path: &[char]) -> (r: Vec<u8>)
    requires
        api.wf(),
    ensures
        r@ == answer(api@, page@, path@),
{
    let text = text_of(path);
    let p = text.as_str();
    if same_text(p, "/") || same_text(p, "/index.html") {
        return write_response(200, "text/html; charset=utf-8", page.as_bytes());
    }
    if same_text(p, "/api/stats") {
        return json_response(200, stats_json(&api.get_network_stats()).as_str());
    }
    if same_text(p, "/api/metadata") {
        return json_response(200, metadata_json().as_str());
    }
    if same_text(p, "/api/vertices") || same_text(p, "/api/tips") {
        return json_response(200, vertices_json(&api.recent_vertices(32)).as_str());
    }
    if same_text(p, "/api/txs") {
        return json_response(200, txs_json(&api.recent_transactions(64)).as_str());
    }
    if let Some(rest) = rest_of(path, "/api/tx/") {
        let hash = percent_decode(rest.as_str());
        if let Some(h) = parse_hex32(hash.as_str()) {
            proof {
                lemma_array_of(h);
            }
            if let Some(tx) = api.get_transaction_by_hash(h) {
                return json_response(200, tx_json(&tx).as_str());
            }
        }
        return json_err(404, "transaction not found");
    }
    if let Some(rest) = rest_of(path, "/api/wallet/") {
        let addr = percent_decode(rest.as_str());
        let snap = api.get_wallet_snapshot(addr.as_str());
        return json_response(200, wallet_json(&snap).as_str());
    }
    if let Some(rest) = rest_of(path, "/api/compose/") {
        let addr = percent_decode(rest.as_str());
        return json_response(200, compose_json(api, addr.as_str()).as_str());
    }
    json_err(404, "not found")
}

/// The leading characters up to the first that satisfies `f`.
pub open spec fn until(s: Seq<char>, f: spec_fn(char) -> bool) -> Seq<char>
    decreases s.len(),
{
    if s.len() == 0 || f(s[0]) {
        Seq::empty()
    } else {
        seq![s[0]] + until(s.drop_first(), f)
    }
}

/// The first word of a text.
pub open spec fn first_word(s: Seq<char>) -> Seq<char> {
    until(trimmed_start(s), |c: char| is_white(c))
}

/// What follows the first word.
pub open spec fn after_word(s: Seq<char>) -> Seq<char> {
    trimmed_start(s).skip(first_word(s).len() as int)
}

/// The path that a request asks for, without its query; nothing where it is no GET.
pub open spec fn asked_path(request: Seq<char>) -> Option<Seq<char>> {
    let line = until(request, |c: char| c == '\n');
    let path = first_word(after_word(line));
    if first_word(line) != "GET"@ {
        None
    } else if path.len() == 0 {
        Some("/"@)
    } else {
        Some(until(path, |c: char| c == '?'))
    }
}

/// How many leading characters come before the first `stop`.
fn count_until(s: &[char], stop: char) -> (r: usize)
    ensures
        r <= s@.len(),
        s@.take(r as int) == until(s@, |c: char| c == stop),
{
    let ghost f = |c: char| c == stop;
    let mut n: usize = 0;
    assert(s@.skip(0) =~= s@);
    assert(s@.take(0) + until(s@.skip(0), f) =~= until(s@, f));
    while n < s.len() && s[n] != stop
        invariant
            n <= s@.len(),
            f == (|c: char| c == stop),
            s@.take(n as int) + until(s@.skip(n as int), f) == until(s@, f),
        decreases s@.len() - n,
    {
        proof {
            lemma_until_step(s@, f, n as int);
        }
        n += 1;
    }
    proof {
        if n < s@.len() {
            assert(s@.skip(n as int)[0] == s@[n as int]);
        }
        assert(until(s@.skip(n as int), f) =~= Seq::<char>::empty());
        assert(s@.take(n as int) + Seq::<char>::empty() =~= s@.take(n as int));
    }
    n
}

proof fn lemma_until_step(s: Seq<char>, f: spec_fn(char) -> bool, n: int)
    requires
        0 <= n < s.len(),
        !f(s[n]),
    ensures
        s.take(n) + until(s.skip(n), f) == s.take(n + 1) + until(s.skip(n + 1), f),
{
    let t = s.skip(n);
    assert(t[0] == s[n]);
    assert(t.drop_first() =~= s.skip(n + 1));
    assert(s.take(n) + (seq![t[0]] + until(s.skip(n + 1), f)) =~= s.take(n + 1) + until(
        s.skip(n + 1),
        f,
    ));
}

/// The first word, and what follows it.
fn split_word(s: &[char]) -> (r: (Vec<char>, Vec<char>))
    ensures
        r.0@ == first_word(s@),
        r.1@ == after_word(s@),
{
    let ghost f = |c: char| is_white(c);
    let mut lo: usize = 0;
    assert(s@.skip(0) =~= s@);
    while lo < s.len() && white(s[lo])
        invariant
            lo <= s@.len(),
            trimmed_start(s@) == trimmed_start(s@.skip(lo as int)),
        decreases s@.len() - lo,
    {
        assert(s@.skip(lo as int).drop_first() =~= s@.skip(lo + 1));
        lo += 1;
    }
    let ghost t = s@.skip(lo as int);
    assert(trimmed_start(s@) == t) by {
        if lo < s@.len() {
            assert(t[0] == s@[lo as int]);
        }
    }
    let mut hi: usize = lo;
    assert(t.skip(0) =~= t);
    assert(t.take(0) + until(t.skip(0), f) =~= until(t, f));
    while hi < s.len() && !white(s[hi])
        invariant
            lo <= hi <= s@.len(),
            t == s@.skip(lo as int),
            f == (|c: char| is_white(c)),
            t.take(hi - lo) + until(t.skip(hi - lo), f) == until(t, f),
        decreases s@.len() - hi,
    {
        proof {
            assert(t[hi - lo] == s@[hi as int]);
            lemma_until_step(t, f, hi - lo);
        }
        hi += 1;
    }
    proof {
        if hi < s@.len() {
            assert(t.skip(hi - lo)[0] == s@[hi as int]);
        }
        assert(until(t.skip(hi - lo), f) =~= Seq::<char>::empty());
        assert(t.take(hi - lo) + Seq::<char>::empty() =~= t.take(hi - lo));
        assert(s@.subrange(lo as int, hi as int) =~= t.take(hi - lo));
        assert(s@.subrange(hi as int, s@.len() as int) =~= t.skip(hi - lo));
    }
    (
        copy_chars(vstd::slice::slice_subrange(s, lo, hi)),
        copy_chars(vstd::slice::slice_subrange(s, hi, s.len())),
    )
}

/// The path that a request asks for, without its query; nothing where it is no GET.
pub fn request_path(request: &str) -> (r: Option<Vec<char>>)
    ensures
        match r {
            Some(p) => asked_path(request@) == Some(p@),
            None => asked_path(request@) is None,
        },
{
    let chars = chars_of(request);
    let n: usize = count_until(chars.as_slice(), '\n');
    let line = sub_chars(chars.as_slice(), 0, n);
    assert(line@ =~= chars@.take(n as int));
    let (method, rest) = split_word(line.as_slice());
    if !same_chars(method.as_slice(), chars_of("GET").as_slice()) {
        return None;
    }
    let (path, _) = split_word(rest.as_slice());
    if path.len() == 0 {
        return Some(chars_of("/"));
    }
    let m: usize = count_until(path.as_slice(), '?');
    let out = sub_chars(path.as_slice(), 0, m);
    assert(out@ =~= path@.take(m as int));
    Some(out)
}

/// The response to a request.
pub open spec fn served(x: IndexView, page: Seq<char>, request: Seq<u8>) -> Seq<u8> {
    match asked_path(text_from(request)) {
        Some(path) => answer(x, page, path),
        None => response_bytes(
            405,
            "text/plain; charset=utf-8"@,
            encode_utf8("method not allowed"@),
        ),
    }
}

/// The response to the bytes of a request.
pub fn handle_client(api: &ExplorerApi, page: &str, request: &[u8]) -> (r: Vec<u8>)
    requires
        api.wf(),
    ensures
        r@ == served(api@, page@, request@),
{
    let text = text_from_bytes(request);
    match request_path(text.as_str()) {
        Some(path) => dispatch(api, page, path.as_slice()),
        None => write_response(
            405,
            "text/plain; charset=utf-8",
            "method not allowed".as_bytes(),
        ),
    }
}

/// What a wallet writes for one byte of a path.
spec fn path_piece(x: u8) -> Seq<u8> {
    if is_plain_byte(x) {
        seq![x]
    } else {
        seq![0x25u8, upper_hex((x / 16) as int) as u8, upper_hex((x % 16) as int) as u8]
    }
}

spec fn path_bytes(b: Seq<u8>) -> Seq<u8>
    decreases b.len(),
{
    if b.len() == 0 {
        Seq::empty()
    } else {
        path_piece(b[0]) + path_bytes(b.drop_first())
    }
}

proof fn lemma_path_bytes_grow(b: Seq<u8>)
    requires
        b.len() > 0,
    ensures
        path_bytes(b) == path_bytes(b.drop_last()) + path_piece(b.last()),
    decreases b.len(),
{
    if b.len() == 1 {
        assert(b.drop_first() =~= Seq::<u8>::empty());
        assert(b.drop_last() =~= Seq::<u8>::empty());
        let none = Seq::<u8>::empty();
        assert(path_bytes(none) == none);
        assert(path_bytes(b) == path_piece(b[0]) + none);
        assert(path_piece(b[0]) + none =~= none + path_piece(b.last()));
    } else {
        let t = b.drop_first();
        lemma_path_bytes_grow(t);
        assert(t.drop_last() =~= b.drop_last().drop_first());
        assert(t.last() == b.last());
        assert(path_piece(b[0]) + (path_bytes(t.drop_last()) + path_piece(t.last())) =~= (
        path_piece(b[0]) + path_bytes(t.drop_last())) + path_piece(t.last()));
    }
}

proof fn lemma_path_text(b: Seq<u8>)
    ensures
        percent_text(b).len() == path_bytes(b).len(),
        is_ascii_chars(percent_text(b)),
        forall|i: int|
            0 <= i < percent_text(b).len() ==> #[trigger] percent_text(b)[i] as u8
                == path_bytes(b)[i],
    decreases b.len(),
{
    if b.len() > 0 {
        lemma_path_text(b.drop_last());
        lemma_path_bytes_grow(b);
        let x = b.last();
        let head = percent_text(b.drop_last());
        let all = percent_text(b);
        assert forall|i: int| 0 <= i < all.len() implies #[trigger] all[i] as u8 == path_bytes(b)[i]
            && (all[i] as u32) < 0x80 by {
            if i < head.len() {
                assert(all[i] == head[i]);
            }
        }
    }
}

proof fn lemma_piece_is_undone(x: u8)
    requires
        !is_plain_byte(x),
    ensures
        escape_value(
            upper_hex((x / 16) as int) as u8,
            upper_hex((x % 16) as int) as u8,
        ) == Some(x),
{
    let hi = (x / 16) as int;
    let lo = (x % 16) as int;
    assert(hi < 16 && lo < 16 && x == 16 * hi + lo);
    let a = upper_hex(hi) as u8;
    let b = upper_hex(lo) as u8;
    assert(is_hex_digit(a) && hex_value(a) == hi);
    assert(is_hex_digit(b) && hex_value(b) == lo);
}

proof fn lemma_path_is_undone(pre: Seq<u8>, b: Seq<u8>)
    ensures
        unescaped(pre + path_bytes(b), pre.len() as int) == b,
    decreases b.len(),
{
    let all = pre + path_bytes(b);
    if b.len() == 0 {
        assert(b =~= Seq::<u8>::empty());
    } else {
        let x = b[0];
        let p = path_piece(x);
        let t = b.drop_first();
        lemma_path_is_undone(pre + p, t);
        assert((pre + p) + path_bytes(t) =~= all);
        let n = pre.len() as int;
        assert(all[n] == p[0]);
        assert(seq![x] + t =~= b);
        if is_plain_byte(x) {
            assert(unescaped(all, n) == seq![x] + unescaped(all, n + 1));
        } else {
            lemma_piece_is_undone(x);
            assert(all[n + 1] == p[1] && all[n + 2] == p[2]);
            assert(unescaped(all, n) == seq![x] + unescaped(all, n + 3));
        }
    }
}

/// A path segment that a wallet encodes is the one that the explorer reads.
pub proof fn law_path_round_trip(s: Seq<char>)
    ensures
        percent_decoded(percent_text(encode_utf8(s))) == s,
{
    let b = encode_utf8(s);
    let text = percent_text(b);
    lemma_path_text(b);
    is_ascii_chars_encode_utf8(text);
    assert(encode_utf8(text) =~= path_bytes(b));
    lemma_path_is_undone(Seq::empty(), b);
    assert(Seq::<u8>::empty() + path_bytes(b) =~= path_bytes(b));
    lemma_text_round_trip(s);
}

} // verus!
