//! Recovery phrase and seed file of a phone wallet.
//!
//! The 32-byte entropy is the ML-DSA-44 seed. The phrase is shown once and never
//! stored. With a passphrase the stored seed is masked. Reading and writing the
//! files is the caller's part.

use vstd::prelude::*;
use vstd::utf8::encode_utf8;

use crate::bytes::append;
use crate::crypto::hash::{hex_decode, hex_encode, hex_text, law_hex_round_trip, sha256, sha256_of,
    unhexed, HexFault};
use crate::crypto::lattice::{mldsa_keypair, LatticeKeyPair};
use crate::kron::wallet::{os_random_seed, KronKeypair};
use crate::kron_wallet::mnemonic::{bip39_words, joined_words, RecoveryPhrase};
use crate::text::{chars_of, is_white, lemma_nothing_to_trim, owned, piece_views, pieces, push_text, split_any, text_of,
    trim, trimmed};

verus! {

/// Environment variable with the passphrase that masks the stored seed.
pub const KRON_WALLET_PASS_ENV: &'static str = "KRON_WALLET_PASS";

/// First line of a masked seed file.
pub const MASKED_HEADER: &'static str =
    "# KRON phone wallet ML-DSA-44 seed (XOR-obscured; KRON_WALLET_PASS)\n";

/// First line of a plain seed file.
pub const PLAIN_HEADER: &'static str = "# KRON phone wallet ML-DSA-44 seed (keep private)\n";

/// A fresh wallet, its 24-word phrase, and the entropy of both.
pub fn generate_recovery_wallet() -> (r: (KronKeypair, String, [u8; 32]))
    ensures
        (r.0.public_bytes(), r.0.secret_bytes()) == mldsa_keypair(r.2@),
        r.0.matched(),
        r.1@ == joined_words(bip39_words(r.2@)),
        bip39_words(r.2@).len() == 24,
{
    let phrase = RecoveryPhrase::generate();
    (phrase.keypair(), phrase.phrase(), phrase.entropy())
}

/// The mask of a passphrase.
pub open spec fn mask_of(pass: Seq<char>) -> [u8; 32] {
    sha256_of(encode_utf8("kron-wallet-xor-v1"@) + encode_utf8(pass))
}

/// `s` combined with the mask of a passphrase.
pub open spec fn masked(s: Seq<u8>, pass: Seq<char>) -> Seq<u8> {
    Seq::new(32, |i: int| s[i] ^ mask_of(pass)@[i])
}

/// The passphrase in force: an empty one counts as none.
pub open spec fn passphrase(pass: Option<&str>) -> Option<Seq<char>> {
    match pass {
        Some(p) => if p@.len() > 0 {
            Some(p@)
        } else {
            None
        },
        None => None,
    }
}

/// What stands in the seed file for `seed`, and the seed for what stands there.
pub open spec fn through_mask(s: Seq<u8>, pass: Option<Seq<char>>) -> Seq<u8> {
    match pass {
        Some(p) => masked(s, p),
        None => s,
    }
}

fn xor_seed(entropy: &[u8; 32], pass: &str) -> (r: [u8; 32])
    ensures
        r@ == masked(entropy@, pass@),
{
    let mut buf: Vec<u8> = Vec::new();
    append(&mut buf, "kron-wallet-xor-v1".as_bytes());
    append(&mut buf, pass.as_bytes());
    assert(buf@ =~= encode_utf8("kron-wallet-xor-v1"@) + encode_utf8(pass@));
    let key = sha256(buf.as_slice());
    let mut out = [0u8; 32];
    let mut i: usize = 0;
    while i < 32
        invariant
            i <= 32,
            key == mask_of(pass@),
            forall|j: int| 0 <= j < i ==> out@[j] == entropy@[j] ^ key@[j],
        decreases 32 - i,
    {
        out[i] = entropy[i] ^ key[i];
        i += 1;
    }
    assert(out@ =~= masked(entropy@, pass@));
    out
}

fn apply_mask(seed: &[u8; 32], pass: Option<&str>) -> (r: [u8; 32])
    ensures
        r@ == through_mask(seed@, passphrase(pass)),
{
    match pass {
        Some(p) => {
            if chars_of(p).len() > 0 {
                xor_seed(seed, p)
            } else {
                *seed
            }
        },
        None => *seed,
    }
}

/// The text of a seed file.
pub open spec fn seed_text(seed: Seq<u8>, pass: Option<Seq<char>>) -> Seq<char> {
    (if pass is Some {
        MASKED_HEADER@
    } else {
        PLAIN_HEADER@
    }) + hex_text(through_mask(seed, pass)) + "\n"@
}

/// What is written to `wallet.seed`. The phrase is never stored.
pub fn seed_file_text(entropy: &[u8; 32], pass: Option<&str>) -> (r: String)
    ensures
        r@ == seed_text(entropy@, passphrase(pass)),
{
    let stored = apply_mask(entropy, pass);
    let protected = match pass {
        Some(p) => chars_of(p).len() > 0,
        None => false,
    };
    let mut out = String::new();
    push_text(&mut out, if protected { MASKED_HEADER } else { PLAIN_HEADER });
    push_text(&mut out, hex_encode(stored.as_slice()).as_str());
    push_text(&mut out, "\n");
    assert(out@ =~= seed_text(entropy@, passphrase(pass)));
    out
}

/// What is written to `address.txt`.
pub fn address_file_text(address: &str) -> (r: String)
    ensures
        r@ == address@ + "\n"@,
{
    let mut out = owned(address);
    push_text(&mut out, "\n");
    out
}

/// The first of the lines from `i` on that holds something; with `comments` a line
/// that begins with `#` is passed over too.
pub open spec fn first_line(lines: Seq<Seq<char>>, i: int, comments: bool) -> Option<Seq<char>>
    decreases lines.len() - i,
{
    if i < 0 || i >= lines.len() {
        None
    } else {
        let t = trimmed(lines[i]);
        if t.len() == 0 || (comments && t[0] == '#') {
            first_line(lines, i + 1, comments)
        } else {
            Some(t)
        }
    }
}

/// The lines of a text.
pub open spec fn lines_of(text: Seq<char>) -> Seq<Seq<char>> {
    pieces(text, seq!['\n'])
}

fn find_line(text: &str, comments: bool) -> (r: Option<Vec<char>>)
    ensures
        match r {
            Some(t) => first_line(lines_of(text@), 0, comments) == Some(t@),
            None => first_line(lines_of(text@), 0, comments) is None,
        },
{
    let sep: [char; 1] = ['\n'];
    assert(sep@ =~= seq!['\n']);
    let parts = split_any(chars_of(text).as_slice(), sep.as_slice());
    let ghost lines = lines_of(text@);
    let mut i: usize = 0;
    while i < parts.len()
        invariant
            i <= parts@.len(),
            lines == piece_views(parts@),
            lines == lines_of(text@),
            first_line(lines, 0, comments) == first_line(lines, i as int, comments),
        decreases parts@.len() - i,
    {
        let t = trim(parts[i].as_slice());
        assert(lines[i as int] == parts@[i as int]@);
        if !(t.len() == 0 || (comments && t[0] == '#')) {
            return Some(t);
        }
        i += 1;
    }
    None
}

/// Why a seed file holds no seed.
#[derive(Clone, Copy, Debug, PartialEq, Eq, Structural)]
pub enum SeedFault {
    Hex(HexFault),
    Length,
}

/// The seed that a seed file holds.
pub open spec fn parsed_seed(text: Seq<char>, pass: Option<Seq<char>>) -> Result<Seq<u8>, SeedFault> {
    let line = match first_line(lines_of(text), 0, true) {
        Some(t) => t,
        None => Seq::empty(),
    };
    match unhexed(encode_utf8(line)) {
        Err(e) => Err(SeedFault::Hex(e)),
        Ok(b) => if b.len() != 32 {
            Err(SeedFault::Length)
        } else {
            Ok(through_mask(b, pass))
        },
    }
}

/// Reads the seed out of a seed file.
pub fn seed_from_text(raw: &str, pass: Option<&str>) -> (r: Result<[u8; 32], SeedFault>)
    ensures
        match r {
            Ok(s) => parsed_seed(raw@, passphrase(pass)) == Ok::<Seq<u8>, SeedFault>(s@),
            Err(e) => parsed_seed(raw@, passphrase(pass)) == Err::<Seq<u8>, SeedFault>(e),
        },
{
    let line = match find_line(raw, true) {
        Some(t) => t,
        None => Vec::new(),
    };
    let text = text_of(line.as_slice());
    assert(text@ == (match first_line(lines_of(raw@), 0, true) {
        Some(t) => t,
        None => Seq::<char>::empty(),
    }));
    match hex_decode(text.as_str().as_bytes()) {
        Err(e) => Err(SeedFault::Hex(e)),
        Ok(bytes) => {
            if bytes.len() != 32 {
                return Err(SeedFault::Length);
            }
            let seed = crate::bytes::array32(bytes.as_slice(), 0);
            assert(seed@ =~= bytes@);
            Ok(apply_mask(&seed, pass))
        },
    }
}

/// The wallet that a seed file holds.
pub fn wallet_from_text(raw: &str, pass: Option<&str>) -> (r: Result<KronKeypair, SeedFault>)
    ensures
        match r {
            Ok(w) => parsed_seed(raw@, passphrase(pass)) matches Ok(s) && (
                w.public_bytes(),
                w.secret_bytes(),
            ) == mldsa_keypair(s) && w.matched(),
            Err(e) => parsed_seed(raw@, passphrase(pass)) == Err::<Seq<u8>, SeedFault>(e),
        },
{
    match seed_from_text(raw, pass) {
        Ok(seed) => Ok(KronKeypair::from_lattice(LatticeKeyPair::from_seed(seed))),
        Err(e) => Err(e),
    }
}

/// The address in `address.txt`: its first line that holds something.
pub fn saved_address(raw: &str) -> (r: Option<String>)
    ensures
        match r {
            Some(a) => first_line(lines_of(raw@), 0, false) == Some(a@),
            None => first_line(lines_of(raw@), 0, false) is None,
        },
{
    match find_line(raw, false) {
        Some(t) => Some(text_of(t.as_slice())),
        None => None,
    }
}

/// The phrase in an old `wallet.mnemonic` file.
pub fn saved_mnemonic(raw: &str) -> (r: String)
    ensures
        r@ == trimmed(raw@),
{
    text_of(trim(chars_of(raw).as_slice()).as_slice())
}

/// Masking twice with one passphrase changes nothing.
pub proof fn law_mask_is_an_involution(s: Seq<u8>, pass: Option<Seq<char>>)
    requires
        s.len() == 32,
    ensures
        through_mask(s, pass).len() == 32,
        through_mask(through_mask(s, pass), pass) == s,
{
    if let Some(p) = pass {
        let m = mask_of(p)@;
        let once = masked(s, p);
        assert forall|i: int| 0 <= i < 32 implies masked(once, p)[i] == s[i] by {
            let a = s[i];
            let b = m[i];
            assert((a ^ b) ^ b == a) by (bit_vector);
        }
        assert(masked(once, p) =~= s);
    }
}

proof fn lemma_no_break(s: Seq<char>)
    requires
        forall|i: int| 0 <= i < s.len() ==> #[trigger] s[i] != '\n',
    ensures
        pieces(s, seq!['\n']) == seq![s],
    decreases s.len(),
{
    let seps = seq!['\n'];
    if s.len() == 0 {
        assert(s =~= Seq::<char>::empty());
    } else {
        let h = s.drop_last();
        assert forall|i: int| 0 <= i < h.len() implies #[trigger] h[i] != '\n' by {
            assert(h[i] == s[i]);
        }
        lemma_no_break(h);
        assert(s.last() == s[s.len() - 1]);
        assert(!seps.contains(s.last()));
        assert(h.push(s.last()) =~= s);
        assert(seq![h].drop_last().push(h.push(s.last())) =~= seq![s]);
    }
}

/// A text with a line break cut there.
proof fn lemma_cut(a: Seq<char>, b: Seq<char>)
    requires
        forall|i: int| 0 <= i < b.len() ==> #[trigger] b[i] != '\n',
    ensures
        pieces(a + "\n"@ + b, seq!['\n']) == pieces(a, seq!['\n']).push(b),
    decreases b.len(),
{
    reveal_strlit("\n");
    let seps = seq!['\n'];
    let t = a + "\n"@ + b;
    if b.len() == 0 {
        assert(t =~= a.push('\n'));
        assert(t.drop_last() =~= a);
        assert(seps[0] == '\n');
        assert(seps.contains(t.last()));
        assert(b =~= Seq::<char>::empty());
    } else {
        let h = b.drop_last();
        assert forall|i: int| 0 <= i < h.len() implies #[trigger] h[i] != '\n' by {
            assert(h[i] == b[i]);
        }
        lemma_cut(a, h);
        assert(t.drop_last() =~= a + "\n"@ + h);
        assert(t.last() == b[b.len() - 1]);
        assert(!seps.contains(t.last()));
        let p = pieces(a, seps);
        assert(p.push(h).drop_last() =~= p);
        assert(h.push(t.last()) =~= b);
    }
}

/// Reading a seed file gives back the seed that was written, with the passphrase
/// that it was written with.
pub proof fn law_seed_file_round_trip(seed: Seq<u8>, pass: Option<Seq<char>>)
    requires
        seed.len() == 32,
    ensures
        parsed_seed(seed_text(seed, pass), pass) == Ok::<Seq<u8>, SeedFault>(seed),
{
    law_mask_is_an_involution(seed, pass);
    let stored = through_mask(seed, pass);
    let hex = hex_text(stored);
    law_hex_round_trip(stored);
    reveal_strlit("\n");
    reveal_strlit("# KRON phone wallet ML-DSA-44 seed (XOR-obscured; KRON_WALLET_PASS)\n");
    reveal_strlit("# KRON phone wallet ML-DSA-44 seed (keep private)\n");
    let header = if pass is Some {
        MASKED_HEADER@
    } else {
        PLAIN_HEADER@
    };
    let head = header.drop_last();
    assert(header =~= head + "\n"@);
    assert forall|i: int| 0 <= i < head.len() implies #[trigger] head[i] != '\n' by {}
    assert(seed_text(seed, pass) =~= head + "\n"@ + hex + "\n"@);
    lemma_seed_line(head, stored);
}

/// A comment line, and the digits of a seed below it: the digits are what is found.
proof fn lemma_seed_line(head: Seq<char>, stored: Seq<u8>)
    requires
        stored.len() > 0,
        head.len() > 0,
        head[0] == '#',
        !is_white(head.last()),
        forall|i: int| 0 <= i < head.len() ==> #[trigger] head[i] != '\n',
    ensures
        first_line(lines_of(head + "\n"@ + hex_text(stored) + "\n"@), 0, true) == Some(
            hex_text(stored),
        ),
{
    let hex = hex_text(stored);
    assert forall|i: int| 0 <= i < hex.len() implies #[trigger] hex[i] != '\n' && !is_white(
        hex[i],
    ) by {}
    let text = head + "\n"@ + hex + "\n"@;
    reveal_strlit("\n");
    assert(text =~= (head + "\n"@ + hex) + "\n"@ + Seq::<char>::empty());
    lemma_no_break(head);
    lemma_cut(head, hex);
    lemma_cut(head + "\n"@ + hex, Seq::empty());
    let lines = lines_of(text);
    assert(lines =~= seq![head, hex, Seq::<char>::empty()]);
    lemma_nothing_to_trim(head);
    lemma_nothing_to_trim(hex);
    reveal_with_fuel(first_line, 3);
}

/// The text of a node's `identity.seed`.
pub open spec fn identity_text(owner: Seq<char>, seed: Seq<u8>) -> Seq<char> {
    "# KRON "@ + owner + " ML-DSA-44 seed (keep private)\n"@ + hex_text(seed) + "\n"@
}

/// What a node writes to `identity.seed`.
pub fn identity_file_text(owner: &str, seed: &[u8; 32]) -> (r: String)
    ensures
        r@ == identity_text(owner@, seed@),
{
    let mut out = owned("# KRON ");
    push_text(&mut out, owner);
    push_text(&mut out, " ML-DSA-44 seed (keep private)\n");
    push_text(&mut out, hex_encode(seed.as_slice()).as_str());
    push_text(&mut out, "\n");
    out
}

/// A fresh signing identity with the text of its file. Which seed is drawn rests on the
/// random source.
pub fn fresh_identity(owner: &str) -> (r: (KronKeypair, String))
    ensures
        r.0.matched(),
        exists|seed: [u8; 32]|
            (r.0.public_bytes(), r.0.secret_bytes()) == #[trigger] mldsa_keypair(seed@) && r.1@
                == identity_text(owner@, seed@),
{
    let seed = os_random_seed();
    let wallet = KronKeypair::from_lattice(LatticeKeyPair::from_seed(seed));
    let text = identity_file_text(owner, &seed);
    assert((wallet.public_bytes(), wallet.secret_bytes()) == mldsa_keypair(seed@));
    (wallet, text)
}

/// Reading an identity file gives back the seed that was written.
pub proof fn law_identity_file_round_trip(owner: Seq<char>, seed: Seq<u8>)
    requires
        seed.len() == 32,
        forall|i: int| 0 <= i < owner.len() ==> #[trigger] owner[i] != '\n',
    ensures
        parsed_seed(identity_text(owner, seed), None) == Ok::<Seq<u8>, SeedFault>(seed),
{
    law_hex_round_trip(seed);
    reveal_strlit("\n");
    reveal_strlit("# KRON ");
    reveal_strlit(" ML-DSA-44 seed (keep private)\n");
    let head = "# KRON "@ + owner + " ML-DSA-44 seed (keep private)\n"@.drop_last();
    assert(identity_text(owner, seed) =~= head + "\n"@ + hex_text(seed) + "\n"@);
    assert forall|i: int| 0 <= i < head.len() implies #[trigger] head[i] != '\n' by {
        if 7 <= i < 7 + owner.len() {
            assert(head[i] == owner[i - 7]);
        }
    }
    lemma_seed_line(head, seed);
}

/// A passphrase masks a seed with the digest of its domain and itself; without one the seed
/// stands in the file as it is.
pub proof fn law_mask_is_the_digest(seed: Seq<u8>, pass: Seq<char>, i: int)
    requires
        seed.len() == 32,
        0 <= i < 32,
    ensures
        through_mask(seed, None) == seed,
        through_mask(seed, Some(pass)).len() == 32,
        through_mask(seed, Some(pass))[i] == seed[i] ^ sha256_of(
            encode_utf8("kron-wallet-xor-v1"@) + encode_utf8(pass),
        )@[i],
{
}

} // verus!
