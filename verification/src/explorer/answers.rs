//! What the explorer's answers say of the index, and that a wallet reads them back.

use vstd::prelude::*;
use vstd::utf8::encode_utf8;

use crate::crypto::hash::{hex_text, law_hex_round_trip};
use crate::dag::model::amount_at;
use crate::dag::tx::{lemma_array_of, TxHash};
use crate::explorer::http::{after_word, answer, asked_path, compose_text, error_text, escaped,
    escaped_all, first_word, json_bytes, law_path_round_trip, metadata_text, quoted, reason,
    response_bytes, row_text, rows_text, served, stats_text, until, vertices_text, wallet_text};
use crate::explorer::indexer::{latest, law_text_names_its_address, row_from, vertex_row, IndexView,
    RowView};
use crate::kron::bech32::kron_text;
use crate::kron_wallet::explorer::{body_of, parsed_hash, percent_text};
use crate::text::{begins_with, decimal_text, find_from, found_at, is_white,
    lemma_text_round_trip, trimmed_start};
use crate::types::Address;

verus! {

/// The figures of the network: those of the index, the cap of 24 million coins, and as many
/// transfers until the next halving as bring the count to a multiple of the interval.
pub proof fn law_network_figures(x: IndexView)
    requires
        x.tips.len() <= u64::MAX,
    ensures
        ({
            let s = x.stats();
            &&& s.vertex_count == x.vertex_count
            &&& s.tip_count == x.tips.len()
            &&& s.dag_tx_count == x.dag_tx_count
            &&& s.circulating_supply == x.circulating_supply
            &&& s.hard_cap == 24_000_000 * 1_000_000
            &&& 0 < s.txs_remaining_until_halving <= 126_144_000
            &&& (s.dag_tx_count + s.txs_remaining_until_halving) % 126_144_000 == 0
        }),
{
    let c = x.dag_tx_count as int;
    let n = 126_144_000int;
    assert(c == n * (c / n) + c % n && 0 <= c % n < n) by {
        vstd::arithmetic::div_mod::lemma_fundamental_div_mod(c, n);
    }
    assert((c + (n - c % n)) % n == 0) by {
        assert(c + (n - c % n) == n * (c / n + 1)) by (nonlinear_arith)
            requires
                c == n * (c / n) + c % n,
        ;
        vstd::arithmetic::div_mod::lemma_mod_multiples_basic(c / n + 1, n);
        vstd::arithmetic::mul::lemma_mul_is_commutative(n, c / n + 1);
    }
}

/// The vertex of a row pays out what it mints and what its fee brings in, and it holds the row.
pub proof fn law_vertex_pays_out_its_pool(r: RowView)
    requires
        r.miner_amount + r.relay_amount <= u64::MAX,
        r.fee <= r.miner_amount + r.relay_amount,
    ensures
        ({
            let v = vertex_row(r);
            &&& v.subsidy + v.total_fees == v.miner_share + v.relay_share
            &&& v.total_fees == r.fee
            &&& v.miner_share == r.miner_amount
            &&& v.relay_share == r.relay_amount
            &&& v.hash == r.hash
            &&& v.miner == r.from
            &&& v.tx_count == 1
            &&& v.txs == seq![r]
        }),
{
}

/// The paths of the server by how they begin.
proof fn lemma_paths(prefix: Seq<char>, tail: Seq<char>)
    requires
        prefix == "/api/tx/"@ || prefix == "/api/wallet/"@ || prefix == "/api/compose/"@,
    ensures
        ({
            let p = prefix + tail;
            &&& p != "/"@
            &&& p != "/index.html"@
            &&& p != "/api/stats"@
            &&& p != "/api/metadata"@
            &&& p != "/api/vertices"@
            &&& p != "/api/tips"@
            &&& p != "/api/txs"@
            &&& begins_with(p, "/api/tx/"@) == (prefix == "/api/tx/"@)
            &&& begins_with(p, "/api/wallet/"@) == (prefix == "/api/wallet/"@)
            &&& begins_with(p, "/api/compose/"@) == (prefix == "/api/compose/"@)
            &&& p.skip(prefix.len() as int) == tail
        }),
{
    let p = prefix + tail;
    reveal_strlit("/");
    reveal_strlit("/index.html");
    reveal_strlit("/api/stats");
    reveal_strlit("/api/metadata");
    reveal_strlit("/api/vertices");
    reveal_strlit("/api/tips");
    reveal_strlit("/api/txs");
    reveal_strlit("/api/tx/");
    reveal_strlit("/api/wallet/");
    reveal_strlit("/api/compose/");
    assert(p.skip(prefix.len() as int) =~= tail);
    assert(p.take(prefix.len() as int) =~= prefix);
    assert(p[5] == prefix[5] && p[1] == prefix[1] && p[7] == prefix[7]);
    if begins_with(p, "/api/tx/"@) {
        assert(p.take(8)[5] == "/api/tx/"@[5]);
    }
    if begins_with(p, "/api/wallet/"@) {
        assert(p.take(12)[5] == "/api/wallet/"@[5]);
    }
    if begins_with(p, "/api/compose/"@) {
        assert(p.take(13)[5] == "/api/compose/"@[5]);
    }
}

/// A wallet that asks for its own address is shown its balance, its nonce and its transfers.
pub proof fn law_wallet_page_is_its_own(x: IndexView, page: Seq<char>, a: Address)
    ensures
        answer(x, page, "/api/wallet/"@ + percent_text(encode_utf8(kron_text(a@)))) == json_bytes(
            200,
            wallet_text(
                kron_text(a@),
                amount_at(x.balances, a),
                amount_at(x.nonces, a),
                x.history(kron_text(a@)),
            ),
        ),
        answer(x, page, "/api/compose/"@ + percent_text(encode_utf8(kron_text(a@)))) == json_bytes(
            200,
            compose_text(x, kron_text(a@)),
        ),
{
    let k = kron_text(a@);
    let t = percent_text(encode_utf8(k));
    law_path_round_trip(k);
    law_text_names_its_address(a);
    lemma_paths("/api/wallet/"@, t);
    lemma_paths("/api/compose/"@, t);
    reveal_strlit("/api/tx/");
    reveal_strlit("/api/wallet/");
    reveal_strlit("/api/compose/");
    assert("/api/tx/"@.len() == 8 && "/api/wallet/"@.len() == 12 && "/api/compose/"@.len() == 13);
}

/// The digits of a hash name the hash.
proof fn lemma_hash_text(h: TxHash)
    ensures
        parsed_hash(hex_text(h@)) == Some(h@),
{
    let t = hex_text(h@);
    law_hex_round_trip(h@);
    reveal_strlit("0x");
    assert(!begins_with(t, "0x"@)) by {
        if begins_with(t, "0x"@) {
            assert(t.take(2)[1] == 'x');
            assert(t[1] != 'x');
        }
    }
}

/// A transfer is shown by its hash: the row that has it, or that there is none.
pub proof fn law_transfer_is_shown_by_its_hash(x: IndexView, page: Seq<char>, h: TxHash)
    ensures
        ({
            let shown = answer(x, page, "/api/tx/"@ + percent_text(encode_utf8(hex_text(h@))));
            &&& forall|i: int|
                0 <= i < x.rows.len() && (#[trigger] x.rows[i]).hash == h && (forall|j: int|
                    0 <= j < i ==> (#[trigger] x.rows[j]).hash != h) ==> shown == json_bytes(
                    200,
                    row_text(x.rows[i]),
                )
            &&& (forall|i: int| 0 <= i < x.rows.len() ==> (#[trigger] x.rows[i]).hash != h)
                ==> shown == json_bytes(404, error_text("transaction not found"@))
        }),
{
    let t = hex_text(h@);
    law_path_round_trip(t);
    lemma_hash_text(h);
    lemma_array_of(h);
    lemma_paths("/api/tx/"@, percent_text(encode_utf8(t)));
    reveal_strlit("/api/tx/");
    assert forall|i: int|
        0 <= i < x.rows.len() && (#[trigger] x.rows[i]).hash == h && (forall|j: int|
            0 <= j < i ==> (#[trigger] x.rows[j]).hash != h) implies row_from(x.rows, h, 0) == Some(
        x.rows[i],
    ) by {
        lemma_row_found(x.rows, h, 0, i);
    }
    if forall|i: int| 0 <= i < x.rows.len() ==> (#[trigger] x.rows[i]).hash != h {
        lemma_row_missing(x.rows, h, 0);
    }
}

proof fn lemma_row_found(rows: Seq<RowView>, h: TxHash, from: int, at: int)
    requires
        0 <= from <= at < rows.len(),
        rows[at].hash == h,
        forall|j: int| 0 <= j < at ==> (#[trigger] rows[j]).hash != h,
    ensures
        row_from(rows, h, from) == Some(rows[at]),
    decreases at - from,
{
    if from < at {
        lemma_row_found(rows, h, from + 1, at);
    }
}

proof fn lemma_row_missing(rows: Seq<RowView>, h: TxHash, from: int)
    requires
        0 <= from <= rows.len(),
        forall|j: int| 0 <= j < rows.len() ==> (#[trigger] rows[j]).hash != h,
    ensures
        row_from(rows, h, from) is None,
    decreases rows.len() - from,
{
    if from < rows.len() {
        lemma_row_missing(rows, h, from + 1);
    }
}

/// A text without quotes, backslashes and control characters is quoted as it stands.
pub proof fn law_plain_text_is_quoted_as_it_is(s: Seq<char>)
    requires
        forall|i: int|
            0 <= i < s.len() ==> (#[trigger] s[i]) != '"' && s[i] != '\\' && (s[i] as u32) >= 32,
    ensures
        quoted(s) == seq!['"'] + s + seq!['"'],
    decreases s.len(),
{
    lemma_plain_escape(s);
}

proof fn lemma_plain_escape(s: Seq<char>)
    requires
        forall|i: int|
            0 <= i < s.len() ==> (#[trigger] s[i]) != '"' && s[i] != '\\' && (s[i] as u32) >= 32,
    ensures
        escaped_all(s) == s,
    decreases s.len(),
{
    if s.len() == 0 {
        assert(escaped_all(s) =~= s);
    } else {
        assert forall|i: int| 0 <= i < s.len() - 1 implies (#[trigger] s.drop_last()[i]) != '"'
            && s.drop_last()[i] != '\\' && (s.drop_last()[i] as u32) >= 32 by {
            assert(s[i] != '"');
        }
        lemma_plain_escape(s.drop_last());
        assert(s[s.len() - 1] != '"');
        assert(escaped(s.last()) == seq![s.last()]);
        assert(escaped_all(s) =~= s);
    }
}

/// Inside a quoted text every quote stands behind a backslash, and nothing is a control
/// character, so the text ends where its last quote stands.
pub proof fn law_quotes_are_escaped(s: Seq<char>, i: int)
    requires
        0 <= i < escaped_all(s).len(),
    ensures
        (escaped_all(s)[i] as u32) >= 32,
        escaped_all(s)[i] == '"' ==> i > 0 && escaped_all(s)[i - 1] == '\\',
    decreases s.len(),
{
    if s.len() > 0 {
        let head = escaped_all(s.drop_last());
        let piece = escaped(s.last());
        let all = escaped_all(s);
        assert(all == head + piece);
        if i < head.len() {
            law_quotes_are_escaped(s.drop_last(), i);
            if i > 0 {
                assert(all[i - 1] == head[i - 1]);
            }
        } else {
            assert(all[i] == piece[i - head.len()]);
            if i > head.len() {
                assert(all[i - 1] == piece[i - 1 - head.len()]);
            }
        }
    }
}

/// What stands in front of the first character that ends it.
proof fn lemma_until(a: Seq<char>, b: Seq<char>, f: spec_fn(char) -> bool)
    requires
        forall|i: int| 0 <= i < a.len() ==> !f(#[trigger] a[i]),
        b.len() > 0 ==> f(b[0]),
    ensures
        until(a + b, f) == a,
    decreases a.len(),
{
    if a.len() == 0 {
        assert(a + b =~= b);
        assert(until(a + b, f) =~= a);
    } else {
        let t = a.drop_first();
        assert forall|i: int| 0 <= i < t.len() implies !f(#[trigger] t[i]) by {
            assert(!f(a[i + 1]));
        }
        lemma_until(t, b, f);
        assert((a + b).drop_first() =~= t + b);
        assert((a + b)[0] == a[0]);
        assert(!f(a[0]));
        assert(seq![a[0]] + t =~= a);
    }
}

/// The path of a GET is the word behind the method, up to its query.
pub proof fn law_get_asks_for_its_path(path: Seq<char>, query: Seq<char>, rest: Seq<char>)
    requires
        path.len() > 0,
        forall|i: int| 0 <= i < path.len() ==> !is_white(#[trigger] path[i]) && path[i] != '?',
        query.len() > 0 ==> query[0] == '?',
        forall|i: int| 0 <= i < query.len() ==> !is_white(#[trigger] query[i]),
    ensures
        asked_path("GET "@ + path + query + " HTTP/1.1\r\n"@ + rest) == Some(path),
{
    reveal_strlit("GET");
    reveal_strlit("GET ");
    reveal_strlit(" HTTP/1.1\r\n");
    let w = path + query;
    let tail = " HTTP/1.1\r"@;
    reveal_strlit(" HTTP/1.1\r");
    let line = "GET "@ + path + query + tail;
    let all = "GET "@ + path + query + " HTTP/1.1\r\n"@ + rest;
    let ends = |c: char| c == '\n';
    let blank = |c: char| is_white(c);
    assert forall|i: int| 0 <= i < w.len() implies !is_white(#[trigger] w[i]) by {
        if i < path.len() {
            assert(w[i] == path[i]);
        } else {
            assert(w[i] == query[i - path.len()]);
        }
    }
    assert(line =~= "GET "@ + w + tail);
    assert forall|i: int| 0 <= i < line.len() implies !ends(#[trigger] line[i]) by {
        if 4 <= i < 4 + w.len() {
            assert(line[i] == w[i - 4]);
        } else if i >= 4 + w.len() {
            assert(line[i] == tail[i - 4 - w.len()]);
        } else {
            assert(line[i] == "GET "@[i]);
        }
    }
    assert(all =~= line + (seq!['\n'] + rest));
    lemma_until(line, seq!['\n'] + rest, ends);
    assert(until(all, |c: char| c == '\n') == line);
    assert(trimmed_start(line) == line) by {
        assert(line[0] == 'G');
    }
    let behind = seq![' '] + w + tail;
    assert(line =~= "GET"@ + behind);
    assert forall|i: int| 0 <= i < 3 implies !blank(#[trigger] "GET"@[i]) by {
    }
    lemma_until("GET"@, behind, blank);
    assert(first_word(line) == "GET"@);
    assert(after_word(line) =~= behind);
    assert(trimmed_start(behind) == w + tail) by {
        assert(behind.drop_first() =~= w + tail);
        assert((w + tail)[0] == w[0]);
        assert(!is_white(w[0]));
        reveal_with_fuel(trimmed_start, 2);
    }
    lemma_until(w, tail, blank);
    assert(first_word(behind) == w);
    let asks = |c: char| c == '?';
    assert forall|i: int| 0 <= i < path.len() implies !asks(#[trigger] path[i]) by {
    }
    lemma_until(path, query, asks);
}

/// A text is found where it first stands.
proof fn lemma_found(s: Seq<char>, needle: Seq<char>, from: int, at: int)
    requires
        0 <= from <= at < s.len(),
        found_at(s, needle, at),
        forall|j: int| from <= j < at ==> !(#[trigger] found_at(s, needle, j)),
    ensures
        find_from(s, needle, from) == at,
    decreases at - from,
{
    if from < at {
        assert(!found_at(s, needle, from));
        lemma_found(s, needle, from + 1, at);
    }
}

proof fn lemma_not_found(s: Seq<char>, needle: Seq<char>, from: int)
    requires
        0 <= from <= s.len(),
        forall|j: int| from <= j < s.len() ==> !(#[trigger] found_at(s, needle, j)),
    ensures
        find_from(s, needle, from) == s.len(),
    decreases s.len() - from,
{
    if from < s.len() {
        assert(!found_at(s, needle, from));
        lemma_not_found(s, needle, from + 1);
    }
}

/// A wallet reads the body of a good reply as the server wrote it, whatever the head says in
/// lines of its own.
pub proof fn law_reply_body_is_read(head: Seq<char>, body: Seq<char>)
    requires
        begins_with(head, "HTTP/1.1 200"@) || begins_with(head, "HTTP/1.0 200"@),
        head.len() > 0,
        head.last() != '\r' && head.last() != '\n',
        forall|i: int| 0 <= i < head.len() - 2 && #[trigger] head[i] == '\n' ==> head[i + 1] != '\r',
        forall|i: int| 0 <= i < body.len() ==> #[trigger] body[i] != '\r',
    ensures
        body_of(head + "\r\n\r\n"@ + body) == Some(body),
{
    let sep = "\r\n\r\n"@;
    reveal_strlit("\r\n\r\n");
    reveal_strlit("HTTP/1.1 200");
    reveal_strlit("HTTP/1.0 200");
    let s = head + sep + body;
    let n = head.len() as int;
    assert(s.take(12) =~= head.take(12));
    assert(s.subrange(n, n + 4) =~= sep);
    assert forall|j: int| 0 <= j < n implies !(#[trigger] found_at(s, sep, j)) by {
        if found_at(s, sep, j) {
            let t = s.subrange(j, j + 4);
            assert(t[0] == '\r' && t[1] == '\n' && t[2] == '\r' && t[3] == '\n');
            assert(s[j] == '\r' && s[j + 1] == '\n' && s[j + 2] == '\r');
            assert(s[j] == head[j]);
            if j + 1 < n {
                assert(s[j + 1] == head[j + 1]);
                if j + 2 < n {
                    assert(s[j + 2] == head[j + 2]);
                }
            }
        }
    }
    lemma_found(s, sep, 0, n);
    assert forall|j: int| n + 4 <= j < s.len() implies !(#[trigger] found_at(s, sep, j)) by {
        if found_at(s, sep, j) {
            assert(s.subrange(j, j + 4)[0] == '\r');
            assert(s[j] == body[j - n - 4]);
        }
    }
    lemma_not_found(s, sep, n + 4);
    assert(s.subrange(n + 4, s.len() as int) =~= body);
}

/// Each fixed path has its own answer, and an unknown one has none.
pub proof fn law_what_each_path_shows(x: IndexView, page: Seq<char>)
    ensures
        answer(x, page, "/"@) == response_bytes(200, "text/html; charset=utf-8"@, encode_utf8(page)),
        answer(x, page, "/index.html"@) == answer(x, page, "/"@),
        answer(x, page, "/api/stats"@) == json_bytes(200, stats_text(x.stats())),
        answer(x, page, "/api/metadata"@) == json_bytes(200, metadata_text()),
        answer(x, page, "/api/txs"@) == json_bytes(200, rows_text(latest(x.rows, 64))),
        answer(x, page, "/api/tips"@) == answer(x, page, "/api/vertices"@),
        answer(x, page, "/api/vertices"@) == json_bytes(
            200,
            vertices_text(latest(x.rows, 32).map_values(|t: RowView| vertex_row(t))),
        ),
        answer(x, page, "/favicon.ico"@) == json_bytes(404, error_text("not found"@)),
{
    reveal_strlit("/");
    reveal_strlit("/index.html");
    reveal_strlit("/api/stats");
    reveal_strlit("/api/metadata");
    reveal_strlit("/api/vertices");
    reveal_strlit("/api/tips");
    reveal_strlit("/api/txs");
    reveal_strlit("/api/tx/");
    reveal_strlit("/api/wallet/");
    reveal_strlit("/api/compose/");
    reveal_strlit("/favicon.ico");
    assert("/"@.len() == 1 && "/index.html"@.len() == 11 && "/api/stats"@.len() == 10
        && "/api/metadata"@.len() == 13 && "/api/vertices"@.len() == 13 && "/api/tips"@.len() == 9
        && "/api/txs"@.len() == 8 && "/favicon.ico"@.len() == 12);
    assert("/api/metadata"@[5] == 'm' && "/api/vertices"@[5] == 'v');
    let f = "/favicon.ico"@;
    assert(f[1] == 'f');
    assert(!begins_with(f, "/api/tx/"@)) by {
        if begins_with(f, "/api/tx/"@) {
            assert(f.take(8)[1] == "/api/tx/"@[1]);
        }
    }
    assert(!begins_with(f, "/api/wallet/"@)) by {
        if begins_with(f, "/api/wallet/"@) {
            assert(f.take(12)[1] == "/api/wallet/"@[1]);
        }
    }
    assert(!begins_with(f, "/api/compose/"@)) by {
        assert("/api/compose/"@.len() == 13);
    }
}

/// A GET is answered by its path, and another method is refused.
pub proof fn law_requests_are_answered_by_path(
    x: IndexView,
    page: Seq<char>,
    path: Seq<char>,
    query: Seq<char>,
    rest: Seq<char>,
)
    requires
        path.len() > 0,
        forall|i: int| 0 <= i < path.len() ==> !is_white(#[trigger] path[i]) && path[i] != '?',
        query.len() > 0 ==> query[0] == '?',
        forall|i: int| 0 <= i < query.len() ==> !is_white(#[trigger] query[i]),
    ensures
        served(
            x,
            page,
            encode_utf8("GET "@ + path + query + " HTTP/1.1\r\n"@ + rest),
        ) == answer(x, page, path),
        first_word(until(path, |c: char| c == '\n')) != "GET"@ ==> served(x, page, encode_utf8(path))
            == response_bytes(
            405,
            "text/plain; charset=utf-8"@,
            encode_utf8("method not allowed"@),
        ),
{
    law_get_asks_for_its_path(path, query, rest);
    lemma_text_round_trip("GET "@ + path + query + " HTTP/1.1\r\n"@ + rest);
    lemma_text_round_trip(path);
}

/// A response says how long its body is, and ends with it.
pub proof fn law_response_holds_its_body(status: u16, ctype: Seq<char>, body: Seq<u8>)
    ensures
        ({
            let r = response_bytes(status, ctype, body);
            let head = "HTTP/1.1 "@ + decimal_text(status as nat) + " "@ + reason(status)
                + "\r\nContent-Type: "@ + ctype + "\r\nContent-Length: "@ + decimal_text(body.len())
                + "\r\nConnection: close\r\nAccess-Control-Allow-Origin: *\r\n\r\n"@;
            &&& r.len() == encode_utf8(head).len() + body.len()
            &&& r.skip(encode_utf8(head).len() as int) == body
            &&& r.take(encode_utf8(head).len() as int) == encode_utf8(head)
        }),
        reason(200) == "OK"@,
        reason(404) == "Not Found"@,
        reason(405) == "Method Not Allowed"@,
{
    let head = "HTTP/1.1 "@ + decimal_text(status as nat) + " "@ + reason(status)
        + "\r\nContent-Type: "@ + ctype + "\r\nContent-Length: "@ + decimal_text(body.len())
        + "\r\nConnection: close\r\nAccess-Control-Allow-Origin: *\r\n\r\n"@;
    let h = encode_utf8(head);
    assert((h + body).skip(h.len() as int) =~= body);
    assert((h + body).take(h.len() as int) =~= h);
}

} // verus!
