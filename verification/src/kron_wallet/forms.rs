//! What the desktop wallet's forms, settings and questions mean.

use vstd::prelude::*;

use crate::crypto::lattice::address_of;
use crate::dag::tx::{lemma_array_of, DagTransaction, TxHash};
use crate::kron::bech32::{kron1_prefix, kron_text, law_kron_round_trip, lemma_kron_text_has_no_filler,
    lemma_kron_text_is_plain, KRON1_LEN};
use crate::kron::bootstrap::TargetView;
use crate::kron::flags::{law_peer_text_round_trip, lemma_socket_chars};
use crate::kron::wallet::KronKeypair;
use crate::kron_wallet::amount::{amount_text, law_amount_round_trip, parsed_amount, ParseAmountError};
use crate::kron_wallet::explorer::{history_of, host_of, without_prefix, without_slashes, ComposeHint,
    TxReply};
use crate::kron_wallet::flow::{FlowView, Screen};
use crate::kron_wallet::mnemonic::drawn_places;
use crate::kron_wallet::send::{form_fields, quiz_passed, send_outcome, SendFault};
use crate::p2p::mesh::{gateway, unprefixed, unslashed};
use crate::text::{begins_with, decimal_text, is_digit, is_white, lemma_decimal_round_trip,
    lemma_nothing_to_trim, trimmed};
use crate::types::Address;

verus! {

/// The form takes an address and an amount as the wallet shows them. Nothing is no amount.
pub proof fn law_form_reads_what_is_shown(a: Address, n: u64)
    ensures
        n > 0 ==> form_fields(kron_text(a@), amount_text(n)) == Ok::<(Address, u64), SendFault>((a, n)),
        form_fields(kron_text(a@), amount_text(0)) == Err::<(Address, u64), SendFault>(
            SendFault::NotPositive,
        ),
{
    let k = kron_text(a@);
    law_kron_round_trip(a@);
    lemma_kron_text_has_no_filler(a@);
    lemma_kron_text_is_plain(a@, KRON1_LEN - 1);
    assert(k.take(5)[0] == kron1_prefix()[0]);
    lemma_nothing_to_trim(k);
    law_amount_round_trip(n);
    law_amount_round_trip(0);
    lemma_array_of(a);
}

/// What is sent says what the form says: to the address, over the amount, at the fixed fee,
/// from the wallet, upon the parents and with the nonce of the explorer's hint, or upon genesis
/// and with the wallet's own nonce without one. It is signed.
pub proof fn law_sent_is_what_the_form_says(
    wallet: &KronKeypair,
    a: Address,
    n: u64,
    hint: Option<ComposeHint>,
    genesis: TxHash,
    own_nonce: u64,
    tx: DagTransaction,
)
    requires
        send_outcome(
            wallet,
            kron_text(a@),
            amount_text(n),
            hint,
            genesis,
            own_nonce,
            Ok(tx),
        ),
    ensures
        n > 0,
        tx@.recipient == a,
        tx@.recipient_kron1 == kron_text(a@),
        tx@.amount == n,
        tx@.fee == 1_000,
        tx@.sender == address_of(wallet.public_bytes()),
        tx@.public_key == wallet.public_bytes(),
        hint matches Some(h) ==> tx@.parent_1 == h.parent_1 && tx@.parent_2 == h.parent_2
            && tx@.nonce == h.nonce,
        hint is None ==> tx@.parent_1 == genesis && tx@.parent_2 == genesis && tx@.nonce
            == own_nonce,
        tx@.signature_holds(),
{
    law_form_reads_what_is_shown(a, n);
}

/// The history shows the newest transfers first, twelve at most, each with its two addresses
/// and with an amount that reads as what was sent.
pub proof fn law_history_shows_the_newest(txs: Seq<TxReply>, i: int)
    requires
        0 <= i < history_of(txs).len(),
    ensures
        txs.len() <= 12 ==> history_of(txs).len() == txs.len(),
        txs.len() > 12 ==> history_of(txs).len() == 12,
        ({
            let t = txs[txs.len() - 1 - i];
            let r = history_of(txs)[i];
            &&& r.from == t.from@
            &&& r.to == t.to@
            &&& parsed_amount(r.amount) == Ok::<u64, ParseAmountError>(t.amount)
            &&& t.dag_tx_index matches Some(k) ==> r.dag_tx_index == k
        }),
{
    law_amount_round_trip(txs[txs.len() - 1 - i].amount);
}

/// The wallet opens with the phrase to be saved until it was backed up, and with its home after.
/// Nothing is shown or confirmed yet.
pub proof fn law_first_screen(needs_onboarding: bool, nonce: u64)
    ensures
        ({
            let f = FlowView::opening(needs_onboarding, nonce);
            &&& f.screen == Screen::SavePhrase <==> needs_onboarding
            &&& f.screen == Screen::Wallet <==> !needs_onboarding
            &&& f.backed_up <==> !needs_onboarding
            &&& !f.wrote_it_down && !f.quiz_failed && !f.phrase_shown()
            &&& f.nonce == nonce
        }),
{
}

/// The phrase is shown at home alone, and only once the warning was read and the box opened.
pub proof fn law_when_the_phrase_is_shown(f: FlowView)
    ensures
        f.phrase_shown() <==> f.screen == Screen::Wallet && f.reveal_ack && f.reveal_open,
{
}

/// The draws name places of a phrase of 24 words, each once and four at most. While there are
/// fewer than four, every draw so far has its place among them.
pub proof fn law_draws_name_places(draws: Seq<u8>, n: nat)
    requires
        n <= draws.len(),
    ensures
        ({
            let p = drawn_places(draws, n);
            &&& p.no_duplicates()
            &&& p.len() <= 4
            &&& forall|i: int| 0 <= i < p.len() ==> 0 <= #[trigger] p[i] < 24
            &&& p.len() < 4 ==> forall|k: int|
                0 <= k < n ==> p.contains(#[trigger] draws[k] as int % 24)
        }),
    decreases n,
{
    if n > 0 {
        law_draws_name_places(draws, (n - 1) as nat);
        let head = drawn_places(draws, (n - 1) as nat);
        let place = draws[n - 1] as int % 24;
        let p = drawn_places(draws, n);
        if p.len() < 4 {
            assert forall|k: int| 0 <= k < n implies p.contains(#[trigger] draws[k] as int % 24) by {
                if k < n - 1 {
                    let q = draws[k] as int % 24;
                    assert(head.contains(q));
                    let at = choose|at: int| 0 <= at < head.len() && head[at] == q;
                    assert(p[at] == q);
                } else if !head.contains(place) {
                    assert(p[p.len() - 1] == place);
                }
            }
        }
    }
}

/// Who types the words at their places passes, and who types another word anywhere does not.
pub proof fn law_quiz_asks_for_the_words(
    words: Seq<Seq<char>>,
    places: Seq<usize>,
    typed: Seq<Seq<char>>,
)
    requires
        typed.len() == places.len(),
        forall|i: int|
            0 <= i < places.len() ==> trimmed(#[trigger] words[places[i] as int])
                == words[places[i] as int],
    ensures
        (forall|i: int| 0 <= i < places.len() ==> typed[i] == words[#[trigger] places[i] as int])
            ==> quiz_passed(words, places, typed),
        forall|i: int|
            0 <= i < places.len() && crate::text::lowered(trimmed(#[trigger] typed[i]))
                != crate::text::lowered(words[places[i] as int]) ==> !quiz_passed(
                words,
                places,
                typed,
            ),
{
    if forall|i: int| 0 <= i < places.len() ==> typed[i] == words[#[trigger] places[i] as int] {
        assert forall|i: int|
            #![trigger places[i]]
            0 <= i < places.len() && i < typed.len() implies crate::text::lowered(
            words[places[i] as int],
        ) == crate::text::lowered(trimmed(typed[i])) by {
            assert(typed[i] == words[places[i] as int]);
            assert(trimmed(words[places[i] as int]) == words[places[i] as int]);
        }
    }
    assert forall|i: int|
        0 <= i < places.len() && crate::text::lowered(trimmed(#[trigger] typed[i]))
            != crate::text::lowered(words[places[i] as int]) implies !quiz_passed(
        words,
        places,
        typed,
    ) by {
        let w = places[i];
    }
}

/// The explorer's host is what was set, without a scheme in front and slashes behind; without a
/// setting it is this host.
pub proof fn law_explorer_host(h: Seq<char>)
    requires
        h.len() > 0,
        !is_white(h[0]),
        !is_white(h.last()),
        h.last() != '/',
        h[0] != 'h',
    ensures
        host_of(None) == "127.0.0.1:8080"@,
        host_of(Some(h)) == h,
        host_of(Some("http://"@ + h)) == h,
        host_of(Some("https://"@ + h)) == h,
        host_of(Some("http://"@ + h + "/"@)) == h,
{
    reveal_strlit("http://");
    reveal_strlit("https://");
    reveal_strlit("/");
    lemma_no_scheme(h);
    lemma_nothing_to_trim(h);
    assert(without_slashes(h) == h);
    let a = "http://"@ + h;
    lemma_nothing_to_trim(a);
    assert(a.take(7) =~= "http://"@);
    assert(a.skip(7) =~= h);
    assert(without_prefix(a, "http://"@) == without_prefix(h, "http://"@));
    let b = "https://"@ + h;
    lemma_nothing_to_trim(b);
    assert(b.take(8) =~= "https://"@);
    assert(b.skip(8) =~= h);
    assert(!begins_with(b, "http://"@)) by {
        assert(b.take(7)[4] == 's');
    }
    assert(without_prefix(b, "https://"@) == without_prefix(h, "https://"@));
    let c = h + "/"@;
    let d = "http://"@ + h + "/"@;
    assert(d =~= "http://"@ + c);
    assert(c[0] == h[0]);
    lemma_no_scheme(c);
    lemma_nothing_to_trim(d);
    assert(d.take(7) =~= "http://"@);
    assert(d.skip(7) =~= c);
    assert(without_prefix(d, "http://"@) == without_prefix(c, "http://"@));
    assert(c.drop_last() =~= h);
    assert(without_slashes(c) == without_slashes(h));
}

/// A text that does not begin with the letter of a scheme has none.
proof fn lemma_no_scheme(h: Seq<char>)
    requires
        h.len() > 0,
        h[0] != 'h',
    ensures
        without_prefix(h, "http://"@) == h,
        without_prefix(h, "https://"@) == h,
        unprefixed(h, "http://"@) == h,
        unprefixed(h, "https://"@) == h,
{
    reveal_strlit("http://");
    reveal_strlit("https://");
    assert(!begins_with(h, "http://"@)) by {
        if begins_with(h, "http://"@) {
            assert(h.take(7)[0] == 'h');
        }
    }
    assert(!begins_with(h, "https://"@)) by {
        if begins_with(h, "https://"@) {
            assert(h.take(8)[0] == 'h');
        }
    }
}

/// The gateway is the socket address that was set, with or without a scheme; without a setting
/// it is port 8000 of this host.
pub proof fn law_gateway_is_what_was_set(ip: [u8; 4], port: u16)
    ensures
        gateway(None) == (TargetView::V4 { ip: crate::p2p::mesh::home_ip(), port: 8000 }),
        gateway(Some((TargetView::V4 { ip, port }).text())) == (TargetView::V4 { ip, port }),
        gateway(Some("http://"@ + (TargetView::V4 { ip, port }).text())) == (TargetView::V4 {
            ip,
            port,
        }),
{
    let s = (TargetView::V4 { ip, port }).text();
    let n = decimal_text(port as nat);
    law_peer_text_round_trip(ip, port);
    lemma_socket_chars(ip, port);
    lemma_decimal_round_trip(port as nat);
    assert(s.last() == n.last());
    assert(is_digit(n[n.len() - 1]));
    reveal_strlit("http://");
    reveal_strlit("https://");
    lemma_no_scheme(s);
    lemma_nothing_to_trim(s);
    assert(unslashed(s) == s);
    crate::kron::bootstrap::lemma_four(ip);
    let a = "http://"@ + s;
    lemma_nothing_to_trim(a);
    assert(a.take(7) =~= "http://"@);
    assert(a.skip(7) =~= s);
    assert(unprefixed(a, "http://"@) == unprefixed(s, "http://"@));
}

} // verus!
