//! BIP39 recovery phrases (24 words) over key seeds.
//!
//! The 32-byte BIP39 entropy is the seed of key generation, so one phrase always
//! restores one key pair.

use bip39::Mnemonic;
use vstd::prelude::*;

use crate::bytes::array32;
use crate::crypto::lattice::{mldsa_keypair, LatticeKeyPair};
use crate::kron::wallet::{os_random_seed, KronKeypair};
use crate::text::{chars_of, is_white, lowercase, lowered, owned, push_text, same_chars, text_of,
    text_views, trim, trimmed, trimmed_end, trimmed_start};

verus! {

/// Number of words of a new wallet.
pub const WORD_COUNT: usize = 24;

/// Prompts on the confirmation screen.
pub const QUIZ_LEN: usize = 4;

/// Most random draws for a quiz.
pub const QUIZ_DRAWS: usize = 1_024;

/// The words of the English BIP39 mnemonic of an entropy.
pub uninterp spec fn bip39_words(entropy: Seq<u8>) -> Seq<Seq<char>>;

/// The entropy of a BIP39 phrase, where the phrase is valid.
pub uninterp spec fn bip39_entropy(phrase: Seq<char>) -> Option<Seq<u8>>;

/// The words with blanks between them.
pub open spec fn joined_words(words: Seq<Seq<char>>) -> Seq<char>
    decreases words.len(),
{
    if words.len() == 0 {
        Seq::empty()
    } else if words.len() == 1 {
        words[0]
    } else {
        joined_words(words.drop_last()) + " "@ + words.last()
    }
}

/// A word of the English list: at least one small letter, and nothing else.
pub open spec fn is_plain_word(w: Seq<char>) -> bool {
    w.len() > 0 && forall|i: int| 0 <= i < w.len() ==> 'a' <= #[trigger] w[i] && w[i] <= 'z'
}

/// `bip39::Mnemonic::from_entropy` and the words of the mnemonic. Thirty-two bytes
/// make twenty-four words of the English list, which are written in small letters.
/// Which words they are is named, not spelled out. The phrase of the words is valid
/// and its entropy is the one it was made from.
#[verifier::external_body]
fn mnemonic_words(entropy: &[u8; 32]) -> (r: Vec<String>)
    ensures
        text_views(r@) == bip39_words(entropy@),
        r@.len() == WORD_COUNT,
        forall|i: int| 0 <= i < r@.len() ==> is_plain_word((#[trigger] r@[i])@),
        bip39_entropy(joined_words(text_views(r@))) == Some(entropy@),
{
    let mnemonic = Mnemonic::from_entropy(entropy).expect("32 bytes are a BIP39 entropy");
    mnemonic.words().map(str::to_string).collect()
}

/// `bip39::Mnemonic::parse_normalized` and the entropy of the mnemonic; nothing for
/// a phrase that is not valid. Which entropy it is, and which phrases are valid, is
/// named, not spelled out.
#[verifier::external_body]
fn mnemonic_entropy(phrase: &str) -> (r: Option<Vec<u8>>)
    ensures
        match r {
            Some(e) => bip39_entropy(phrase@) == Some(e@),
            None => bip39_entropy(phrase@) is None,
        },
{
    Mnemonic::parse_normalized(phrase).ok().map(|m| m.to_entropy())
}

/// `rand::random` for one byte. Nothing is known of it.
#[verifier::external_body]
fn random_byte() -> u8 {
    rand::random::<u8>()
}

#[derive(Clone, Copy, Debug, PartialEq, Eq, Structural)]
pub enum PhraseError {
    InvalidEntropy,
    InvalidMnemonic,
}

impl PhraseError {
    /// The error as a line of text.
    pub fn message(&self) -> (r: &'static str)
        ensures
            r@ == (match self {
                PhraseError::InvalidEntropy => "recovery entropy must be 32 bytes (24 words)"@,
                PhraseError::InvalidMnemonic => "invalid recovery phrase"@,
            }),
    {
        match self {
            PhraseError::InvalidEntropy => "recovery entropy must be 32 bytes (24 words)",
            PhraseError::InvalidMnemonic => "invalid recovery phrase",
        }
    }
}

/// A recovery phrase and its entropy.
pub struct RecoveryPhrase {
    words: Vec<String>,
    entropy: [u8; 32],
}

impl RecoveryPhrase {
    pub closed spec fn spec_words(&self) -> Seq<Seq<char>> {
        text_views(self.words@)
    }

    pub closed spec fn spec_entropy(&self) -> [u8; 32] {
        self.entropy
    }

    /// The text of the phrase.
    pub open spec fn text(&self) -> Seq<char> {
        joined_words(self.spec_words())
    }

    /// Words and entropy belong together.
    pub open spec fn wf(&self) -> bool {
        &&& self.spec_words() == bip39_words(self.spec_entropy()@)
        &&& self.spec_words().len() == WORD_COUNT
        &&& forall|i: int|
            0 <= i < self.spec_words().len() ==> is_plain_word(#[trigger] self.spec_words()[i])
        &&& bip39_entropy(self.text()) == Some(self.spec_entropy()@)
    }

    /// A fresh phrase from the system's random source.
    pub fn generate() -> (r: Self)
        ensures
            r.wf(),
    {
        Self::of_entropy(os_random_seed())
    }

    fn of_entropy(entropy: [u8; 32]) -> (r: Self)
        ensures
            r.wf(),
            r.spec_entropy() == entropy,
    {
        let words = mnemonic_words(&entropy);
        assert forall|i: int| 0 <= i < words@.len() implies is_plain_word(
            #[trigger] text_views(words@)[i],
        ) by {
            assert(is_plain_word(words@[i]@));
        }
        RecoveryPhrase { words, entropy }
    }

    /// The phrase of an entropy. Thirty-two bytes always have one.
    pub fn from_entropy(entropy: [u8; 32]) -> (r: Result<Self, PhraseError>)
        ensures
            r matches Ok(p) && p.wf() && p.spec_entropy() == entropy,
    {
        Ok(Self::of_entropy(entropy))
    }

    /// Restores a phrase from its text.
    pub fn from_phrase(phrase: &str) -> (r: Result<Self, PhraseError>)
        ensures
            match r {
                Ok(p) => p.wf() && phrase_entropy(phrase@) == Ok::<Seq<u8>, PhraseError>(
                    p.spec_entropy()@,
                ),
                Err(e) => phrase_entropy(phrase@) == Err::<Seq<u8>, PhraseError>(e),
            },
    {
        let text = text_of(trim(chars_of(phrase).as_slice()).as_slice());
        match mnemonic_entropy(text.as_str()) {
            None => Err(PhraseError::InvalidMnemonic),
            Some(raw) => {
                if raw.len() != 32 {
                    return Err(PhraseError::InvalidMnemonic);
                }
                let entropy = array32(raw.as_slice(), 0);
                assert(entropy@ =~= raw@);
                Ok(Self::of_entropy(entropy))
            },
        }
    }

    pub fn entropy(&self) -> (r: [u8; 32])
        ensures
            r == self.spec_entropy(),
    {
        self.entropy
    }

    pub fn words(&self) -> (r: Vec<String>)
        ensures
            text_views(r@) == self.spec_words(),
    {
        let mut out: Vec<String> = Vec::new();
        let mut i: usize = 0;
        assert(text_views(out@) =~= self.spec_words().take(0));
        while i < self.words.len()
            invariant
                i <= self.words@.len(),
                text_views(out@) == self.spec_words().take(i as int),
            decreases self.words@.len() - i,
        {
            let ghost before = out@;
            let w = owned(self.words[i].as_str());
            out.push(w);
            assert(text_views(out@) =~= text_views(before).push(w@));
            assert(self.spec_words().take(i + 1) =~= self.spec_words().take(i as int).push(
                self.words@[i as int]@,
            ));
            i += 1;
        }
        assert(self.spec_words().take(i as int) =~= self.spec_words());
        out
    }

    /// The words with blanks between them.
    pub fn phrase(&self) -> (r: String)
        ensures
            r@ == self.text(),
    {
        let ghost all = self.spec_words();
        let mut out = String::new();
        let mut i: usize = 0;
        assert(joined_words(all.take(0)) =~= Seq::<char>::empty());
        while i < self.words.len()
            invariant
                all == self.spec_words(),
                i <= self.words@.len(),
                out@ == joined_words(all.take(i as int)),
            decreases self.words@.len() - i,
        {
            let ghost before = out@;
            proof {
                assert(all.take(i + 1).drop_last() =~= all.take(i as int));
                assert(all[i as int] == self.words@[i as int]@);
            }
            if i > 0 {
                push_text(&mut out, " ");
            }
            push_text(&mut out, self.words[i].as_str());
            proof {
                if i == 0 {
                    assert(out@ =~= all[0]);
                } else {
                    assert(out@ =~= before + " "@ + all[i as int]);
                }
            }
            i += 1;
        }
        assert(all.take(i as int) =~= all);
        out
    }

    /// The key pair of the phrase.
    pub fn keypair(&self) -> (r: KronKeypair)
        ensures
            (r.public_bytes(), r.secret_bytes()) == mldsa_keypair(self.spec_entropy()@),
            r.matched(),
    {
        KronKeypair::from_lattice(LatticeKeyPair::from_seed(self.entropy))
    }
}

/// The entropy that a typed phrase restores.
pub open spec fn phrase_entropy(phrase: Seq<char>) -> Result<Seq<u8>, PhraseError> {
    match bip39_entropy(trimmed(phrase)) {
        None => Err(PhraseError::InvalidMnemonic),
        Some(e) => if e.len() == 32 {
            Ok(e)
        } else {
            Err(PhraseError::InvalidMnemonic)
        },
    }
}

proof fn lemma_joined_ends(words: Seq<Seq<char>>)
    requires
        words.len() > 0,
        forall|i: int| 0 <= i < words.len() ==> is_plain_word(#[trigger] words[i]),
    ensures
        joined_words(words).len() > 0,
        !is_white(joined_words(words)[0]),
        !is_white(joined_words(words).last()),
    decreases words.len(),
{
    if words.len() > 1 {
        let h = words.drop_last();
        assert forall|i: int| 0 <= i < h.len() implies is_plain_word(#[trigger] h[i]) by {
            assert(h[i] == words[i]);
        }
        lemma_joined_ends(h);
        let j = joined_words(words);
        assert(is_plain_word(words[words.len() - 1]));
        let w = words.last();
        assert(w == words[words.len() - 1]);
        assert('a' <= w[w.len() - 1] && w[w.len() - 1] <= 'z');
        assert(j.last() == w[w.len() - 1]);
        assert(j[0] == joined_words(h)[0]);
    } else {
        let w = words[0];
        assert(is_plain_word(words[0]));
        assert('a' <= w[0] && w[0] <= 'z');
        assert('a' <= w[w.len() - 1] && w[w.len() - 1] <= 'z');
    }
}

/// Typing the phrase in again restores the entropy, and with it the key pair.
pub proof fn law_phrase_restores_the_wallet(p: RecoveryPhrase)
    requires
        p.wf(),
    ensures
        phrase_entropy(p.text()) == Ok::<Seq<u8>, PhraseError>(p.spec_entropy()@),
{
    lemma_joined_ends(p.spec_words());
    assert(trimmed_start(p.text()) == p.text());
    assert(trimmed_end(p.text()) == p.text());
}

/// The places that the draws name, in the order of first appearance.
pub open spec fn drawn_places(draws: Seq<u8>, n: nat) -> Seq<int>
    decreases n,
{
    if n == 0 {
        Seq::empty()
    } else {
        let head = drawn_places(draws, (n - 1) as nat);
        let place = draws[n - 1] as int % WORD_COUNT as int;
        if head.contains(place) || head.len() == QUIZ_LEN {
            head
        } else {
            head.push(place)
        }
    }
}

/// Places in ascending order, each once, all of them of a phrase.
pub open spec fn is_quiz(places: Seq<usize>) -> bool {
    &&& places.len() == QUIZ_LEN
    &&& forall|i: int| 0 <= i < places.len() ==> #[trigger] places[i] < WORD_COUNT
    &&& forall|i: int, j: int| 0 <= i < j < places.len() ==> places[i] < places[j]
}

/// The places of `list`, as numbers.
pub open spec fn as_places(list: Seq<usize>) -> Seq<int> {
    list.map_values(|p: usize| p as int)
}

fn has_place(list: &Vec<usize>, p: usize) -> (r: bool)
    ensures
        r == as_places(list@).contains(p as int),
        r == list@.contains(p),
{
    let mut i: usize = 0;
    while i < list.len()
        invariant
            i <= list@.len(),
            forall|j: int| 0 <= j < i ==> list@[j] != p,
        decreases list@.len() - i,
    {
        if list[i] == p {
            assert(as_places(list@)[i as int] == p as int);
            assert(list@[i as int] == p);
            return true;
        }
        i += 1;
    }
    assert forall|j: int| 0 <= j < list@.len() implies as_places(list@)[j] != p as int by {}
    false
}

/// The quiz of a series of draws: the first four different places that they name,
/// in ascending order. Nothing where they name fewer.
pub fn quiz_from(draws: &[u8]) -> (r: Option<Vec<usize>>)
    ensures
        match r {
            Some(q) => {
                &&& is_quiz(q@)
                &&& drawn_places(draws@, draws@.len()).len() == QUIZ_LEN
                &&& as_places(q@).to_multiset() == drawn_places(
                    draws@,
                    draws@.len(),
                ).to_multiset()
            },
            None => drawn_places(draws@, draws@.len()).len() < QUIZ_LEN,
        },
{
    let mut chosen: Vec<usize> = Vec::new();
    let mut i: usize = 0;
    assert(as_places(chosen@) =~= drawn_places(draws@, 0));
    while i < draws.len()
        invariant
            i <= draws@.len(),
            as_places(chosen@) == drawn_places(draws@, i as nat),
            chosen@.len() <= QUIZ_LEN,
            chosen@.no_duplicates(),
            forall|j: int| 0 <= j < chosen@.len() ==> #[trigger] chosen@[j] < WORD_COUNT,
        decreases draws@.len() - i,
    {
        let ghost before = chosen@;
        let place: usize = (draws[i] as usize) % WORD_COUNT;
        if chosen.len() < QUIZ_LEN && !has_place(&chosen, place) {
            chosen.push(place);
            assert(as_places(chosen@) =~= as_places(before).push(place as int));
        }
        i += 1;
    }
    if chosen.len() < QUIZ_LEN {
        return None;
    }
    Some(sorted_places(chosen))
}

/// The places in ascending order.
fn sorted_places(list: Vec<usize>) -> (r: Vec<usize>)
    requires
        list@.len() == QUIZ_LEN,
        list@.no_duplicates(),
        forall|j: int| 0 <= j < list@.len() ==> #[trigger] list@[j] < WORD_COUNT,
    ensures
        is_quiz(r@),
        as_places(r@).to_multiset() == as_places(list@).to_multiset(),
{
    let mut out: Vec<usize> = Vec::new();
    let mut i: usize = 0;
    proof {
        assert(as_places(list@).take(0) =~= Seq::<int>::empty());
        assert(as_places(out@) =~= Seq::<int>::empty());
    }
    while i < list.len()
        invariant
            i <= list@.len(),
            list@.len() == QUIZ_LEN,
            list@.no_duplicates(),
            forall|j: int| 0 <= j < list@.len() ==> #[trigger] list@[j] < WORD_COUNT,
            out@.len() == i,
            forall|j: int| 0 <= j < out@.len() ==> list@.take(i as int).contains(#[trigger] out@[j]),
            forall|x: int, y: int| 0 <= x < y < out@.len() ==> out@[x] < out@[y],
            as_places(out@).to_multiset() == as_places(list@).take(i as int).to_multiset(),
        decreases list@.len() - i,
    {
        let p: usize = list[i];
        let mut at: usize = out.len();
        while at > 0 && out[at - 1] > p
            invariant
                at <= out@.len(),
                forall|k: int| at <= k < out@.len() ==> out@[k] > p,
            decreases at,
        {
            at -= 1;
        }
        let ghost before = out@;
        proof {
            assert forall|k: int| 0 <= k < before.len() implies before[k] != p by {
                assert(list@.take(i as int).contains(before[k]));
                let m = choose|m: int| 0 <= m < i && list@.take(i as int)[m] == before[k];
                assert(list@[m] == before[k]);
            }
        }
        out.insert(at, p);
        proof {
            assert(list@.take(i + 1) =~= list@.take(i as int).push(p));
            assert forall|j: int| 0 <= j < out@.len() implies list@.take(i + 1).contains(
                #[trigger] out@[j],
            ) by {
                if j == at {
                    assert(list@.take(i + 1)[i as int] == p);
                } else {
                    let k = if j < at { j } else { j - 1 };
                    assert(out@[j] == before[k]);
                    let m = choose|m: int| 0 <= m < i && list@.take(i as int)[m] == before[k];
                    assert(list@.take(i + 1)[m] == before[k]);
                }
            }
            assert forall|x: int, y: int| 0 <= x < y < out@.len() implies out@[x] < out@[y] by {
                if y == at {
                    assert(out@[x] == before[x]);
                    assert(before[x] <= before[at - 1]);
                } else if x == at {
                    assert(out@[y] == before[y - 1]);
                } else {
                    let a = if x < at { x } else { x - 1 };
                    let b = if y < at { y } else { y - 1 };
                    assert(out@[x] == before[a] && out@[y] == before[b]);
                }
            }
            assert(as_places(out@) =~= as_places(before).insert(at as int, p as int));
            vstd::seq_lib::to_multiset_insert(as_places(before), at as int, p as int);
            assert(as_places(list@).take(i + 1) =~= as_places(list@).take(i as int).push(p as int));
            vstd::seq_lib::to_multiset_build(as_places(list@).take(i as int), p as int);
        }
        i += 1;
    }
    proof {
        assert(as_places(list@).take(i as int) =~= as_places(list@));
        assert forall|j: int| 0 <= j < out@.len() implies #[trigger] out@[j] < WORD_COUNT by {
            assert(list@.take(i as int).contains(out@[j]));
            let m = choose|m: int| 0 <= m < i && list@.take(i as int)[m] == out@[j];
            assert(list@[m] < WORD_COUNT);
        }
    }
    out
}

/// Four different places of a phrase, in ascending order. Should the random source
/// keep naming the same places, the first four are taken.
pub fn quiz_indices() -> (r: Vec<usize>)
    ensures
        is_quiz(r@),
{
    let mut draws: Vec<u8> = Vec::new();
    let mut i: usize = 0;
    while i < QUIZ_DRAWS
        invariant
            i <= QUIZ_DRAWS,
        decreases QUIZ_DRAWS - i,
    {
        draws.push(random_byte());
        i += 1;
    }
    match quiz_from(draws.as_slice()) {
        Some(q) => q,
        None => vec![0, 1, 2, 3],
    }
}

/// Whether a typed word is the expected one, in any case and with blanks around it.
pub fn words_match(expected: &str, typed: &str) -> (r: bool)
    ensures
        r == (lowered(expected@) == lowered(trimmed(typed@))),
{
    let a = lowercase(chars_of(expected).as_slice());
    let b = lowercase(trim(chars_of(typed).as_slice()).as_slice());
    same_chars(a.as_slice(), b.as_slice())
}

} // verus!
