use kron_mesh::crypto::hash::{hex_hash, HexFault};
use kron_mesh::crypto::lattice::LatticeKeyPair;
use kron_mesh::kron::bech32::Bech32Error;
use kron_mesh::kron::{generate_kron_wallet, KronKeypair};
use kron_mesh::kron_wallet::amount::{format_kron_amount, parse_kron_amount, ParseAmountError};
use kron_mesh::kron_wallet::explorer::{
    compose_hint, encode_path, explorer_host, parse_hex32, reply_body, request_text, view_of,
    ComposeHint, ComposeReply, StatsReply, TxReply, WalletReply, DEFAULT_EXPLORER, HISTORY_ROWS,
};
use kron_mesh::kron_wallet::flow::{polled_address, Screen, WalletFlow};
use kron_mesh::kron_wallet::mnemonic::{
    quiz_from, quiz_indices, words_match, PhraseError, RecoveryPhrase, QUIZ_LEN, WORD_COUNT,
};
use kron_mesh::kron_wallet::persist::{
    looks_like_legacy, new_wallet, open_file, plan_load, wallet_file, FileFault, LoadPlan,
    WalletFile, WALLET_VERSION,
};
use kron_mesh::kron_wallet::send::{
    confirm_quiz, prepare_send, receipt, unsent_receipt, SendFault,
};

#[test]
fn parse_one_and_a_half_kron() {
    assert_eq!(parse_kron_amount("1.5").unwrap(), 1_500_000);
    assert_eq!(parse_kron_amount("1,5").unwrap(), 1_500_000);
    assert_eq!(parse_kron_amount(" 1.500000 ").unwrap(), 1_500_000);
}

#[test]
fn parse_whole_and_fractional_edges() {
    assert_eq!(parse_kron_amount("1").unwrap(), 1_000_000);
    assert_eq!(parse_kron_amount("0.001").unwrap(), 1_000);
    assert_eq!(parse_kron_amount(".5").unwrap(), 500_000);
    assert_eq!(parse_kron_amount("0.000001").unwrap(), 1);
    assert_eq!(format_kron_amount(1_500_000), "1.500000");
    assert_eq!(format_kron_amount(1_000), "0.001000");
}

#[test]
fn parse_rejects_bad_input() {
    assert!(parse_kron_amount("").is_err());
    assert!(parse_kron_amount("1.2.3").is_err());
    assert!(parse_kron_amount("1.1234567").is_err());
    assert!(parse_kron_amount("abc").is_err());
    assert!(parse_kron_amount("1.5e2").is_err());
    assert_eq!(ParseAmountError::Empty.message(), "amount is empty");
    assert_eq!(ParseAmountError::TooManyDecimals.message(), "maximum 6 decimal places");
}

#[test]
fn each_amount_fault_has_its_input() {
    assert_eq!(parse_kron_amount("  "), Err(ParseAmountError::Empty));
    assert_eq!(parse_kron_amount("1.2.3"), Err(ParseAmountError::TooManySeparators));
    assert_eq!(parse_kron_amount("1.1234567"), Err(ParseAmountError::TooManyDecimals));
    assert_eq!(parse_kron_amount("abc"), Err(ParseAmountError::InvalidChars));
    assert_eq!(parse_kron_amount("99999999999999999999"), Err(ParseAmountError::Overflow));
    assert_eq!(parse_kron_amount("18446744073709.551615"), Ok(u64::MAX));
    assert_eq!(parse_kron_amount("18446744073709.551616"), Err(ParseAmountError::Overflow));
    for n in [0u64, 1, 999_999, 1_000_000, 123_456_789, u64::MAX] {
        assert_eq!(parse_kron_amount(&format_kron_amount(n)), Ok(n));
    }
}

#[test]
fn generates_twenty_four_english_words() {
    let phrase = RecoveryPhrase::generate();
    let words = phrase.words();
    assert_eq!(words.len(), WORD_COUNT);
    assert!(words.iter().all(|w| w.chars().all(|c| c.is_ascii_lowercase())));
    let again = RecoveryPhrase::from_entropy(phrase.entropy()).ok().unwrap();
    assert_eq!(phrase.phrase(), again.phrase());
    assert_eq!(
        RecoveryPhrase::from_phrase(&phrase.phrase()).ok().unwrap().entropy(),
        phrase.entropy()
    );
}

#[test]
fn entropy_restores_the_same_lattice_keypair() {
    let phrase = RecoveryPhrase::generate();
    let a = LatticeKeyPair::from_seed(phrase.entropy());
    let b = phrase.keypair();
    assert_eq!(a.public, *b.public_key());
    assert!(a.secret == b.lattice().secret);
    let restored = RecoveryPhrase::from_phrase(&phrase.phrase()).ok().unwrap();
    assert_eq!(LatticeKeyPair::from_seed(restored.entropy()).public, a.public);
}

#[test]
fn quiz_picks_unique_sorted_indices() {
    for _ in 0..32 {
        let idx = quiz_indices();
        assert_eq!(idx.len(), QUIZ_LEN);
        for i in 1..idx.len() {
            assert!(idx[i] > idx[i - 1]);
            assert!(idx[i] < WORD_COUNT);
        }
    }
}

#[test]
fn word_match_is_case_insensitive() {
    assert!(words_match("abandon", " Abandon "));
    assert!(!words_match("abandon", "ability"));
}

#[test]
fn quiz_draws_are_reduced_and_sorted() {
    assert_eq!(quiz_from(&[30, 6, 1, 0, 23]), Some(vec![0, 1, 6, 23]));
    assert_eq!(quiz_from(&[1, 2, 3]), None);
    let words: Vec<String> = (0..WORD_COUNT).map(|i| format!("w{i}")).collect();
    let typed = vec![String::from(" W0"), String::from("w5 ")];
    assert!(confirm_quiz(&words, &vec![0, 5], &typed));
    assert!(!confirm_quiz(&words, &vec![0, 6], &typed));
}

#[test]
fn known_phrase_has_the_published_entropy() {
    let zero = RecoveryPhrase::from_entropy([0u8; 32]).ok().unwrap();
    let words = zero.words();
    assert!(words[..23].iter().all(|w| w == "abandon"));
    assert_eq!(words[23], "art");
    let upper = zero.phrase().to_uppercase();
    match RecoveryPhrase::from_phrase("abandon abandon") {
        Err(e) => assert_eq!(e, PhraseError::InvalidMnemonic),
        Ok(_) => panic!("two words are no phrase"),
    }
    assert!(!PhraseError::InvalidEntropy.message().is_empty());
    assert_eq!(upper.split_whitespace().count(), WORD_COUNT);
}

#[test]
fn new_wallet_has_entropy_and_roundtrips() {
    let loaded = new_wallet();
    assert!(!loaded.backed_up);
    let phrase = RecoveryPhrase::from_entropy(loaded.entropy).ok().unwrap();
    assert_eq!(phrase.words().len(), 24);
    assert_eq!(
        phrase.keypair().public_key().to_bytes(),
        loaded.keypair.public_key().to_bytes()
    );

    let file = wallet_file(&loaded.keypair, 7, &loaded.entropy, true);
    let again = match plan_load(&file) {
        LoadPlan::Open(w) => w,
        _ => panic!("a saved wallet opens"),
    };
    assert!(again.backed_up);
    assert_eq!(again.nonce, 7);
    assert_eq!(again.entropy, loaded.entropy);
    assert_eq!(LatticeKeyPair::from_seed(again.entropy).public, *again.keypair.public_key());
}

#[test]
fn legacy_file_is_planned_for_replacement() {
    let old = generate_kron_wallet();
    let v1 = WalletFile {
        version: 1,
        entropy_hex: None,
        public_hex: hex::encode(old.public_key().to_bytes()),
        secret_hex: hex::encode(old.lattice().secret.to_bytes()),
        nonce: 3,
        mnemonic_backed_up: false,
    };
    assert!(looks_like_legacy(&v1));
    assert!(matches!(plan_load(&v1), LoadPlan::Replace));
    let fresh = new_wallet();
    assert_ne!(fresh.keypair.public_key().to_bytes(), old.public_key().to_bytes());
}

#[test]
fn wallet_files_name_their_faults() {
    let w = new_wallet();
    let mut file = wallet_file(&w.keypair, 0, &w.entropy, false);
    assert_eq!(file.version, WALLET_VERSION);
    file.version = 9;
    match open_file(&file) {
        Err(e) => assert_eq!(e, FileFault::UnsupportedVersion(9)),
        Ok(_) => panic!("no such version"),
    }
    let mut bad = wallet_file(&w.keypair, 0, &w.entropy, false);
    bad.entropy_hex = Some(String::from("zz"));
    match open_file(&bad) {
        Err(e) => assert_eq!(e, FileFault::Hex(HexFault::InvalidCharacter { c: 'z', index: 0 })),
        Ok(_) => panic!("not hex"),
    }
    bad.entropy_hex = Some(String::from("abc"));
    match open_file(&bad) {
        Err(e) => assert_eq!(e, FileFault::Hex(HexFault::OddLength)),
        Ok(_) => panic!("odd length"),
    }
    bad.entropy_hex = None;
    match open_file(&bad) {
        Err(e) => assert_eq!(e, FileFault::MissingEntropy),
        Ok(_) => panic!("no entropy"),
    }
}

fn seeded(n: u8) -> KronKeypair {
    KronKeypair::from_lattice(LatticeKeyPair::from_seed([n; 32]))
}

#[test]
fn sending_checks_address_and_amount() {
    let me = seeded(1);
    let you = seeded(2).address().into_string();
    let g = [9u8; 32];
    assert_eq!(
        prepare_send(&me, "kron1nope", "1", None, g, 0).err(),
        Some(SendFault::Address(Bech32Error::InvalidHrp))
    );
    assert_eq!(
        prepare_send(&me, &you, "x", None, g, 0).err(),
        Some(SendFault::Amount(ParseAmountError::InvalidChars))
    );
    assert_eq!(prepare_send(&me, &you, "0", None, g, 0).err(), Some(SendFault::NotPositive));
    let tx = prepare_send(&me, &you, "1.5", None, g, 4).unwrap();
    assert_eq!(tx.amount, 1_500_000);
    assert_eq!(tx.nonce, 4);
    assert_eq!((tx.parent_1, tx.parent_2), (g, g));
    assert!(tx.verify_signature());
    let hint = ComposeHint { nonce: 8, parent_1: [1; 32], parent_2: [2; 32], balance: 0 };
    let hinted = prepare_send(&me, &you, "1", Some(hint), g, 4).unwrap();
    assert_eq!(hinted.nonce, 8);
    assert_eq!((hinted.parent_1, hinted.parent_2), ([1; 32], [2; 32]));
}

#[test]
fn replies_become_a_view() {
    let empty = view_of(None, None);
    assert!(!empty.online);
    let txs = (0..20u64)
        .map(|i| TxReply {
            from: String::from("a"),
            to: String::from("b"),
            amount: i,
            dag_tx_index: if i == 3 { None } else { Some(i) },
        })
        .collect();
    let view = view_of(
        Some(StatsReply {
            dag_tx_count: None,
            tx_count: Some(5),
            circulating_kron: Some(String::from("1.0")),
        }),
        Some(WalletReply { balance: 1_500_000, txs }),
    );
    assert!(view.online);
    assert_eq!(view.dag_tx_count, 5);
    assert_eq!(view.circulating, "1.0");
    assert_eq!(view.balance_text, "1.500000");
    assert_eq!(view.txs.len(), HISTORY_ROWS);
    assert_eq!(view.txs[1].amount, format_kron_amount(18));
    assert_eq!(view.txs[1].dag_tx_index, 18);
}

#[test]
fn explorer_requests_and_replies() {
    assert_eq!(explorer_host(None), DEFAULT_EXPLORER);
    assert_eq!(explorer_host(Some("10.0.0.5:9000")), "10.0.0.5:9000");
    assert_eq!(encode_path("a b/ö"), "a%20b%2F%C3%B6");
    let text = request_text("h:1", "/api/stats");
    assert!(text.starts_with("GET /api/stats HTTP/1.1\r\n"));
    assert!(text.ends_with("\r\n\r\n"));
    assert_eq!(
        reply_body("HTTP/1.1 200 OK\r\nA: b\r\n\r\n{}"),
        Some(String::from("{}"))
    );
    assert_eq!(reply_body("nothing"), None);
    let h = hex_hash(&[0xAB; 32]);
    assert_eq!(parse_hex32(&h), Some([0xAB; 32]));
    assert_eq!(parse_hex32("ab"), None);
    let hint = compose_hint(&ComposeReply {
        nonce: 2,
        balance: 9,
        parent_1: Some(h.clone()),
        parent_2: Some(h),
    })
    .unwrap();
    assert_eq!((hint.nonce, hint.balance, hint.parent_1), (2, 9, [0xAB; 32]));
    assert!(compose_hint(&ComposeReply { nonce: 0, balance: 0, parent_1: None, parent_2: None })
        .is_none());
}

#[test]
fn send_faults_are_plain_text() {
    assert!(SendFault::Address(Bech32Error::InvalidHrp).message().starts_with("Invalid address: "));
    assert_eq!(
        SendFault::Amount(ParseAmountError::Empty).message(),
        ParseAmountError::Empty.message()
    );
    assert_eq!(SendFault::NotPositive.message(), "Amount must be positive");
    assert_eq!(SendFault::BadSignature.message(), "Signature verification failed");
}

#[test]
fn receipts_tell_the_whole_transfer() {
    let me = seeded(1);
    let you = seeded(2).address().into_string();
    let tx = prepare_send(&me, &you, "1.5", None, [9; 32], 4).unwrap();
    let hex_tx: String = tx.canonical_bytes().iter().map(|b| format!("{b:02x}")).collect();
    assert_eq!(
        receipt("127.0.0.1:8000", &tx),
        format!(
            "Broadcast to 127.0.0.1:8000 (kron-mesh/1).\nRecipient: {you}\nAmount: 1.500000 KRON\n\
             Native fee: 0.001000 KRON\nNonce: 4\nDigest: {}\nHex: {hex_tx}",
            hex_hash(&tx.id)
        )
    );
    assert_eq!(
        unsent_receipt("g", "timed out", &tx),
        format!(
            "Signed but broadcast to g failed: timed out\n\
             Start kron-node on port 8000 (or set KRON_GATEWAY).\nDigest: {}\nHex: {hex_tx}",
            hex_hash(&tx.id)
        )
    );
}

#[test]
fn the_wallet_opens_after_the_backup_quiz() {
    let words: Vec<String> = ["one", "two", "three"].iter().map(|w| w.to_string()).collect();
    let places = vec![0usize, 2];
    let typed = |a: &str, b: &str| vec![a.to_string(), b.to_string()];
    let mut flow = WalletFlow::new(true, 7);
    assert_eq!(flow.screen(), Screen::SavePhrase);
    flow.on_continue();
    assert_eq!(flow.screen(), Screen::SavePhrase);
    flow.set_wrote_it_down(true);
    assert!(flow.wrote_it_down());
    flow.on_continue();
    assert_eq!(flow.screen(), Screen::ConfirmPhrase);
    assert!(!flow.on_answers(&words, &places, &typed("one", "two")));
    assert!(flow.quiz_failed() && !flow.backed_up());
    flow.on_back();
    assert_eq!(flow.screen(), Screen::SavePhrase);
    assert!(!flow.quiz_failed());
    flow.on_continue();
    assert!(flow.on_answers(&words, &places, &typed(" ONE ", "three")));
    assert_eq!(flow.screen(), Screen::Wallet);
    assert!(flow.backed_up());
    assert!(!flow.on_answers(&words, &places, &typed("one", "three")));

    flow.on_reveal();
    assert!(!flow.reveal_open() && !flow.phrase_shown());
    flow.set_reveal_ack(true);
    flow.on_reveal();
    assert!(flow.phrase_shown() && flow.reveal_open());
    flow.set_reveal_ack(false);
    assert!(!flow.phrase_shown() && !flow.reveal_ack());

    assert_eq!(flow.nonce(), 7);
    flow.on_hint(9);
    assert_eq!(flow.nonce(), 9);
    flow.on_broadcast(9);
    assert_eq!(flow.nonce(), 10);
    flow.on_broadcast(u64::MAX);
    assert_eq!(flow.nonce(), u64::MAX);
    assert_eq!(WalletFlow::new(false, 0).screen(), Screen::Wallet);
}

#[test]
fn the_watched_address_is_polled_first() {
    assert_eq!(polled_address("  ", "kron1me"), "kron1me");
    assert_eq!(polled_address(" kron1you\n", "kron1me"), "kron1you");
}

#[test]
fn a_hint_counts_once_the_form_is_read() {
    let me = seeded(3);
    let you = seeded(4).address().into_string();
    let g = [9u8; 32];
    let hint = || Some(ComposeHint { nonce: 8, parent_1: [1; 32], parent_2: [2; 32], balance: 0 });
    let mut flow = WalletFlow::new(false, 5);
    assert!(flow.on_send(&me, "kron1nope", "1", hint(), g).is_err());
    assert!(flow.on_send(&me, &you, "x", hint(), g).is_err());
    assert_eq!(flow.on_send(&me, &you, "0", hint(), g).err(), Some(SendFault::NotPositive));
    assert_eq!(flow.nonce(), 5);
    assert_eq!(flow.on_send(&me, &you, "1", None, g).unwrap().nonce, 5);
    assert_eq!(flow.nonce(), 5);
    assert_eq!(flow.on_send(&me, &you, "1", hint(), g).unwrap().nonce, 8);
    assert_eq!(flow.nonce(), 8);
}
