//! DAG vertex: a phone-signed transfer that approves two parents.

use vstd::prelude::*;
use vstd::utf8::encode_utf8;

use crate::bytes::{append, array32, get_u32, get_u64, le_bytes, le_value, lemma_le_bytes_len,
    lemma_le_value_of_bytes, lemma_pow256_values, put_le, put_u64, same};
use crate::crypto::hash::{sha256, sha256_of};
use crate::crypto::lattice::{address_of, blob, blob_length, keys_match, law_envelope_round_trip,
    lemma_blob_reads_back, secret_usable, signature_accepted, CryptoError, LatticePublicKey,
    LatticeSecretKey, LatticeSignature, PK_LEN, SCHEME_MLDSA44, SIG_LEN};
use crate::dag::error::DagError;
use crate::economics::FIXED_TRANSACTION_FEE;
use crate::kron::bech32::kron_text;
use crate::kron::wallet::{derive_kron_address, KronAddress, KronKeypair};
use crate::text::same_text;
use crate::types::Address;

verus! {

/// SHA-256 identifier of a DAG vertex (the unsigned payload hash).
pub type TxHash = [u8; 32];

/// Carrier identity stored on the vertex sidecar, outside the signed body.
pub type RelayNodeId = Address;

/// Dummy parent used only by the genesis vertex.
pub const NULL_PARENT: TxHash = [
    0, 0, 0, 0, 0, 0, 0, 0, 0, 0, 0, 0, 0, 0, 0, 0, 0, 0, 0, 0, 0, 0, 0, 0, 0, 0, 0, 0, 0, 0, 0, 0,
];

/// Deterministic seed for the protocol genesis key (not a user wallet).
pub const GENESIS_SEED: [u8; 32] = [
    0x4B, 0x52, 0x4F, 0x4E, 0x2D, 0x4D, 0x4F, 0x42, 0x49, 0x4C, 0x45, 0x2D, 0x4D, 0x45, 0x53, 0x48,
    0x2D, 0x44, 0x41, 0x47, 0x2D, 0x47, 0x45, 0x4E, 0x45, 0x53, 0x49, 0x53, 0, 0, 0, 0,
];

/// ML-DSA-44 proof that a phone carried a vertex.
#[derive(Debug, PartialEq, Eq)]
pub struct RelayProof {
    pub node: Address,
    pub public_key: LatticePublicKey,
    pub sig: LatticeSignature,
}

/// A carrier proof as mathematical data.
#[verifier::ext_equal]
pub struct ProofView {
    pub node: Address,
    pub public_key: Seq<u8>,
    pub sig: Seq<u8>,
}

impl View for RelayProof {
    type V = ProofView;

    open spec fn view(&self) -> ProofView {
        ProofView { node: self.node, public_key: self.public_key@, sig: self.sig@ }
    }
}

impl Clone for RelayProof {
    fn clone(&self) -> (r: Self)
        ensures
            r@ == self@,
    {
        RelayProof {
            node: self.node,
            public_key: self.public_key.clone(),
            sig: self.sig.clone(),
        }
    }
}

/// What a carrier signs: `H("kron-relay-v1" ‖ tx id ‖ relay key)`.
pub open spec fn relay_message(tx_id: TxHash, relay_pk: Seq<u8>) -> [u8; 32] {
    sha256_of(encode_utf8("kron-relay-v1"@) + tx_id@ + blob(SCHEME_MLDSA44, relay_pk))
}

/// Domain-separated preimage of a relay carrier proof.
pub fn relay_proof_message(tx_id: &TxHash, relay_pk: &LatticePublicKey) -> (r: [u8; 32])
    ensures
        r == relay_message(*tx_id, relay_pk@),
{
    let mut buf: Vec<u8> = Vec::new();
    append(&mut buf, "kron-relay-v1".as_bytes());
    append(&mut buf, tx_id.as_slice());
    append(&mut buf, relay_pk.to_bytes().as_slice());
    assert(buf@ =~= encode_utf8("kron-relay-v1"@) + tx_id@ + blob(SCHEME_MLDSA44, relay_pk@));
    sha256(buf.as_slice())
}

/// A mesh transfer. Its id is the SHA-256 of the unsigned bytes.
#[derive(Debug, PartialEq, Eq)]
pub struct DagTransaction {
    pub id: TxHash,
    pub parent_1: TxHash,
    pub parent_2: TxHash,
    /// `kron1…` text of the sender.
    pub sender_kron1: String,
    pub sender: Address,
    /// `kron1…` text of the recipient.
    pub recipient_kron1: String,
    pub recipient: Address,
    /// Minor units.
    pub amount: u64,
    /// The fixed fee for user transfers; 0 on genesis.
    pub fee: u64,
    /// Account-model nonce.
    pub nonce: u64,
    pub public_key: LatticePublicKey,
    pub signature: LatticeSignature,
    /// Phones that carried this vertex. Outside the signed bytes.
    pub relay_nodes: Vec<RelayNodeId>,
    /// Matching carrier proofs.
    pub relay_proofs: Vec<RelayProof>,
}

/// A transfer as mathematical data.
#[verifier::ext_equal]
pub struct TxView {
    pub id: TxHash,
    pub parent_1: TxHash,
    pub parent_2: TxHash,
    pub sender_kron1: Seq<char>,
    pub sender: Address,
    pub recipient_kron1: Seq<char>,
    pub recipient: Address,
    pub amount: u64,
    pub fee: u64,
    pub nonce: u64,
    pub public_key: Seq<u8>,
    pub signature: Seq<u8>,
    pub relay_nodes: Seq<Address>,
    pub relay_proofs: Seq<ProofView>,
}

/// The views of a vector of proofs.
pub open spec fn proof_views(s: Seq<RelayProof>) -> Seq<ProofView> {
    s.map_values(|p: RelayProof| p@)
}

impl View for DagTransaction {
    type V = TxView;

    open spec fn view(&self) -> TxView {
        TxView {
            id: self.id,
            parent_1: self.parent_1,
            parent_2: self.parent_2,
            sender_kron1: self.sender_kron1@,
            sender: self.sender,
            recipient_kron1: self.recipient_kron1@,
            recipient: self.recipient,
            amount: self.amount,
            fee: self.fee,
            nonce: self.nonce,
            public_key: self.public_key@,
            signature: self.signature@,
            relay_nodes: self.relay_nodes@,
            relay_proofs: proof_views(self.relay_proofs@),
        }
    }
}

fn copy_proofs(s: &Vec<RelayProof>) -> (r: Vec<RelayProof>)
    ensures
        proof_views(r@) == proof_views(s@),
{
    let mut out: Vec<RelayProof> = Vec::new();
    let mut i: usize = 0;
    while i < s.len()
        invariant
            i <= s@.len(),
            proof_views(out@) == proof_views(s@.take(i as int)),
        decreases s@.len() - i,
    {
        let ghost before = out@;
        let p = s[i].clone();
        out.push(p);
        assert(proof_views(out@) =~= proof_views(before).push(p@));
        assert(proof_views(s@.take(i + 1)) =~= proof_views(s@.take(i as int)).push(s@[i as int]@));
        i += 1;
    }
    assert(s@.take(i as int) =~= s@);
    out
}

impl Clone for DagTransaction {
    fn clone(&self) -> (r: Self)
        ensures
            r@ == self@,
    {
        DagTransaction {
            id: self.id,
            parent_1: self.parent_1,
            parent_2: self.parent_2,
            sender_kron1: self.sender_kron1.clone(),
            sender: self.sender,
            recipient_kron1: self.recipient_kron1.clone(),
            recipient: self.recipient,
            amount: self.amount,
            fee: self.fee,
            nonce: self.nonce,
            public_key: self.public_key.clone(),
            signature: self.signature.clone(),
            relay_nodes: crate::table::copy_keys(&self.relay_nodes),
            relay_proofs: copy_proofs(&self.relay_proofs),
        }
    }
}

impl TxView {
    /// The bytes that are hashed and signed.
    pub open spec fn unsigned(self) -> Seq<u8> {
        self.parent_1@ + self.parent_2@ + self.sender@ + self.recipient@ + le_bytes(
            self.amount as nat,
            8,
        ) + le_bytes(self.fee as nat, 8) + le_bytes(self.nonce as nat, 8) + blob(
            SCHEME_MLDSA44,
            self.public_key,
        )
    }

    pub open spec fn is_genesis(self) -> bool {
        self.parent_1 == NULL_PARENT && self.parent_2 == NULL_PARENT
    }

    /// The id that belongs to the unsigned bytes.
    pub open spec fn proper_id(self) -> TxHash {
        sha256_of(self.unsigned())
    }

    /// Whether proof `i` was signed by the carrier that it names.
    pub open spec fn proof_holds(self, i: int) -> bool {
        let p = self.relay_proofs[i];
        &&& address_of(p.public_key) == p.node
        &&& self.relay_nodes.contains(p.node)
        &&& signature_accepted(p.public_key, relay_message(self.id, p.public_key)@, p.sig)
    }

    /// Whether a proof names `node`.
    pub open spec fn has_proof(self, node: Address) -> bool {
        exists|j: int|
            0 <= j < self.relay_proofs.len() && (#[trigger] self.relay_proofs[j]).node == node
    }

    /// Every listed carrier has a proof, and every proof is valid and listed.
    pub open spec fn relays_proven(self) -> bool {
        &&& self.relay_nodes.len() == 0 ==> self.relay_proofs.len() == 0
        &&& forall|i: int|
            0 <= i < self.relay_nodes.len() ==> self.has_proof(#[trigger] self.relay_nodes[i])
        &&& forall|j: int| 0 <= j < self.relay_proofs.len() ==> #[trigger] self.proof_holds(j)
    }

    /// Sender, display texts, and signature all belong to the public key.
    pub open spec fn signature_holds(self) -> bool {
        &&& address_of(self.public_key) == self.sender
        &&& self.sender_kron1 == kron_text(self.sender@)
        &&& self.recipient_kron1 == kron_text(self.recipient@)
        &&& signature_accepted(self.public_key, self.unsigned(), self.signature)
    }

    /// The carriers on the proofs, each once, in order of first appearance.
    pub open spec fn carriers(self) -> Seq<Address> {
        distinct(self.relay_proofs.map_values(|p: ProofView| p.node))
    }
}

/// The elements of `s`, each once, in order of first appearance.
pub open spec fn distinct(s: Seq<Address>) -> Seq<Address>
    decreases s.len(),
{
    if s.len() == 0 {
        Seq::empty()
    } else {
        let head = distinct(s.drop_last());
        if head.contains(s.last()) {
            head
        } else {
            head.push(s.last())
        }
    }
}

/// Whether `a` is in `s`.
pub fn holds_address(s: &Vec<Address>, a: &Address) -> (r: bool)
    ensures
        r == s@.contains(*a),
{
    let mut i: usize = 0;
    while i < s.len()
        invariant
            i <= s@.len(),
            forall|j: int| 0 <= j < i ==> #[trigger] s@[j] != *a,
        decreases s@.len() - i,
    {
        if same(&s[i], a) {
            assert(s@[i as int] == *a);
            return true;
        }
        i += 1;
    }
    false
}

impl DagTransaction {
    /// Bytes that are hashed and signed. Display strings are not part of them.
    pub fn unsigned_bytes(&self) -> (r: Vec<u8>)
        ensures
            r@ == self@.unsigned(),
    {
        let mut out: Vec<u8> = Vec::new();
        append(&mut out, self.parent_1.as_slice());
        append(&mut out, self.parent_2.as_slice());
        append(&mut out, self.sender.as_slice());
        append(&mut out, self.recipient.as_slice());
        put_u64(&mut out, self.amount);
        put_u64(&mut out, self.fee);
        put_u64(&mut out, self.nonce);
        append(&mut out, self.public_key.to_bytes().as_slice());
        assert(out@ =~= self@.unsigned());
        out
    }

    pub fn compute_id(unsigned: &[u8]) -> (r: TxHash)
        ensures
            r == sha256_of(unsigned@),
    {
        sha256(unsigned)
    }

    pub fn is_genesis(&self) -> (r: bool)
        ensures
            r == self@.is_genesis(),
    {
        same(&self.parent_1, &NULL_PARENT) && same(&self.parent_2, &NULL_PARENT)
    }

    /// Sets the id to the hash of the unsigned bytes.
    pub fn refresh_id(&mut self)
        ensures
            final(self)@ == (TxView { id: old(self)@.proper_id(), ..old(self)@ }),
    {
        let id = Self::compute_id(self.unsigned_bytes().as_slice());
        self.id = id;
    }

    /// Carriers with a valid proof: the payout set.
    pub fn proven_relay_nodes(&self) -> (r: Vec<RelayNodeId>)
        ensures
            r@ == (if self@.relays_proven() {
                self@.carriers()
            } else {
                Seq::empty()
            }),
    {
        if !self.verify_relay_proofs() {
            return Vec::new();
        }
        let ghost nodes = self@.relay_proofs.map_values(|p: ProofView| p.node);
        let mut out: Vec<RelayNodeId> = Vec::new();
        let mut i: usize = 0;
        while i < self.relay_proofs.len()
            invariant
                i <= self.relay_proofs@.len(),
                nodes == self@.relay_proofs.map_values(|p: ProofView| p.node),
                out@ == distinct(nodes.take(i as int)),
            decreases self.relay_proofs@.len() - i,
        {
            let node = self.relay_proofs[i].node;
            proof {
                assert(nodes[i as int] == node);
                assert(nodes.take(i + 1).drop_last() =~= nodes.take(i as int));
            }
            if !holds_address(&out, &node) {
                out.push(node);
            }
            i += 1;
        }
        assert(nodes.take(i as int) =~= nodes);
        out
    }

    fn has_proof_for(&self, node: &Address) -> (r: bool)
        ensures
            r == self@.has_proof(*node),
    {
        let mut j: usize = 0;
        while j < self.relay_proofs.len()
            invariant
                j <= self.relay_proofs@.len(),
                forall|k: int| 0 <= k < j ==> (#[trigger] self@.relay_proofs[k]).node != *node,
            decreases self.relay_proofs@.len() - j,
        {
            assert(self@.relay_proofs[j as int] == self.relay_proofs@[j as int]@);
            if same(&self.relay_proofs[j].node, node) {
                return true;
            }
            j += 1;
        }
        false
    }

    /// Verifies every carrier proof. No nodes and no proofs is valid; a node
    /// without a proof is not.
    pub fn verify_relay_proofs(&self) -> (r: bool)
        ensures
            r == self@.relays_proven(),
    {
        if self.relay_nodes.len() == 0 {
            return self.relay_proofs.len() == 0;
        }
        let mut i: usize = 0;
        while i < self.relay_nodes.len()
            invariant
                i <= self.relay_nodes@.len(),
                forall|k: int| 0 <= k < i ==> self@.has_proof(#[trigger] self@.relay_nodes[k]),
            decreases self.relay_nodes@.len() - i,
        {
            if !self.has_proof_for(&self.relay_nodes[i]) {
                assert(self@.relay_nodes[i as int] == self.relay_nodes@[i as int]);
                return false;
            }
            i += 1;
        }
        let mut j: usize = 0;
        while j < self.relay_proofs.len()
            invariant
                j <= self.relay_proofs@.len(),
                forall|k: int| 0 <= k < j ==> #[trigger] self@.proof_holds(k),
            decreases self.relay_proofs@.len() - j,
        {
            let p = &self.relay_proofs[j];
            assert(self@.relay_proofs[j as int] == p@);
            let msg = relay_proof_message(&self.id, &p.public_key);
            if !same(&p.public_key.address(), &p.node) || !holds_address(&self.relay_nodes, &p.node)
                || !p.public_key.verify(msg.as_slice(), &p.sig) {
                assert(!self@.proof_holds(j as int));
                return false;
            }
            assert(self@.proof_holds(j as int));
            j += 1;
        }
        true
    }

    /// Whether sender, display texts, and signature belong to the public key.
    pub fn verify_signature(&self) -> (r: bool)
        ensures
            r == self@.signature_holds(),
    {
        if !same(&self.public_key.address(), &self.sender) {
            return false;
        }
        if !same_text(derive_kron_address(&self.public_key).as_str(), self.sender_kron1.as_str()) {
            return false;
        }
        if !same_text(
            KronAddress::from_hash(self.recipient).as_str(),
            self.recipient_kron1.as_str(),
        ) {
            return false;
        }
        self.public_key.verify(self.unsigned_bytes().as_slice(), &self.signature)
    }
}

/// The 32-byte array with the given contents.
pub open spec fn array_of(s: Seq<u8>) -> [u8; 32] {
    choose|a: [u8; 32]| a@ == s
}

pub proof fn lemma_array_of(a: [u8; 32])
    ensures
        array_of(a@) == a,
{
    let c = array_of(a@);
    assert(c@ == a@);
    crate::bytes::lemma_array_view_eq(c, a);
}

/// The addresses one after the other.
pub open spec fn join_addresses(s: Seq<Address>) -> Seq<u8>
    decreases s.len(),
{
    if s.len() == 0 {
        Seq::empty()
    } else {
        join_addresses(s.drop_last()) + s.last()@
    }
}

impl ProofView {
    /// Wire form of one proof: node, key with length, signature with length.
    pub open spec fn wire(self) -> Seq<u8> {
        let pk = blob(SCHEME_MLDSA44, self.public_key);
        let sb = blob(SCHEME_MLDSA44, self.sig);
        self.node@ + le_bytes(pk.len(), 4) + pk + le_bytes(sb.len(), 4) + sb
    }
}

/// The wire forms of the proofs one after the other.
pub open spec fn join_proofs(s: Seq<ProofView>) -> Seq<u8>
    decreases s.len(),
{
    if s.len() == 0 {
        Seq::empty()
    } else {
        join_proofs(s.drop_last()) + s.last().wire()
    }
}

impl TxView {
    /// Wire encoding: unsigned bytes, signature, carriers, proofs, each list
    /// behind its length modulo 2^32.
    pub open spec fn canonical(self) -> Seq<u8> {
        let sig = blob(SCHEME_MLDSA44, self.signature);
        self.unsigned() + le_bytes(sig.len(), 4) + sig + le_bytes(self.relay_nodes.len(), 4)
            + join_addresses(self.relay_nodes) + le_bytes(self.relay_proofs.len(), 4) + join_proofs(
            self.relay_proofs,
        )
    }
}

/// The error of a malformed encoding.
pub open spec fn malformed<T>() -> Result<T, DagError> {
    Err(DagError::Sign(CryptoError::InvalidEncoding))
}

/// One carrier proof at `off`, and where it ends. The length before the key is the
/// length of the key's envelope.
pub open spec fn parsed_proof(b: Seq<u8>, off: int) -> Result<(ProofView, int), DagError> {
    let at = off + 36;
    let end = at + 5 + PK_LEN;
    if b.len() < at {
        malformed()
    } else {
        match blob_length(b, at, PK_LEN as int) {
            Err(e) => Err(DagError::Sign(e)),
            Ok(n) => if le_value(b.subrange(off + 32, at)) != n || b.len() < end + 4 {
                malformed()
            } else {
                let slen = le_value(b.subrange(end, end + 4)) as int;
                if b.len() < end + 4 + slen {
                    malformed()
                } else {
                    match blob_length(b.subrange(end + 4, end + 4 + slen), 0, SIG_LEN as int) {
                        Err(e) => Err(DagError::Sign(e)),
                        Ok(_) => Ok(
                            (
                                ProofView {
                                    node: array_of(b.subrange(off, off + 32)),
                                    public_key: b.subrange(at + 5, end),
                                    sig: b.subrange(end + 9, end + 9 + SIG_LEN),
                                },
                                end + 4 + slen,
                            ),
                        ),
                    }
                }
            },
        }
    }
}

/// `n` carrier proofs from `off` on.
pub open spec fn parsed_proofs(b: Seq<u8>, off: int, n: nat) -> Result<Seq<ProofView>, DagError>
    decreases n,
{
    if n == 0 {
        Ok(Seq::empty())
    } else {
        match parsed_proof(b, off) {
            Err(e) => Err(e),
            Ok((p, next)) => match parsed_proofs(b, next, (n - 1) as nat) {
                Err(e) => Err(e),
                Ok(rest) => Ok(seq![p] + rest),
            },
        }
    }
}

/// The addresses in `b[off .. off + 32 n]`.
pub open spec fn addresses_at(b: Seq<u8>, off: int, n: nat) -> Seq<Address> {
    Seq::new(n, |i: int| array_of(b.subrange(off + 32 * i, off + 32 * i + 32)))
}

/// The carrier list and the proofs that follow the signature.
pub open spec fn parsed_sidecar(b: Seq<u8>, off: int) -> Result<
    (Seq<Address>, Seq<ProofView>),
    DagError,
> {
    let n = le_value(b.subrange(off, off + 4));
    let mid = off + 4 + 32 * n;
    if b.len() < off + 4 || b.len() < mid + 4 {
        malformed()
    } else {
        match parsed_proofs(b, mid + 4, le_value(b.subrange(mid, mid + 4))) {
            Err(e) => Err(e),
            Ok(proofs) => Ok((addresses_at(b, off + 4, n), proofs)),
        }
    }
}

/// The transfer that a wire encoding spells, or what is wrong with it.
pub open spec fn parsed_tx(b: Seq<u8>) -> Result<TxView, DagError> {
    let pk_end = 157 + PK_LEN;
    if b.len() < 152 {
        malformed()
    } else {
        match blob_length(b, 152, PK_LEN as int) {
            Err(e) => Err(DagError::Sign(e)),
            Ok(_) => if b.len() < pk_end + 4 {
                malformed()
            } else {
                let slen = le_value(b.subrange(pk_end, pk_end + 4)) as int;
                let sig_at = pk_end + 4;
                if b.len() < sig_at + slen {
                    malformed()
                } else {
                    match blob_length(b.subrange(sig_at, sig_at + slen), 0, SIG_LEN as int) {
                        Err(e) => Err(DagError::Sign(e)),
                        Ok(_) => match parsed_sidecar(b, sig_at + slen) {
                            Err(e) => Err(e),
                            Ok((nodes, proofs)) => Ok(
                                head_of(
                                    b,
                                    b.subrange(sig_at + 5, sig_at + 5 + SIG_LEN),
                                    nodes,
                                    proofs,
                                ),
                            ),
                        },
                    }
                }
            },
        }
    }
}

/// The transfer whose unsigned bytes are at the start of `b`. Display texts and
/// id are derived.
pub open spec fn head_of(
    b: Seq<u8>,
    signature: Seq<u8>,
    relay_nodes: Seq<Address>,
    relay_proofs: Seq<ProofView>,
) -> TxView {
    let public_key = b.subrange(157, 157 + PK_LEN as int);
    let recipient = array_of(b.subrange(96, 128));
    let t = TxView {
        id: NULL_PARENT,
        parent_1: array_of(b.subrange(0, 32)),
        parent_2: array_of(b.subrange(32, 64)),
        sender_kron1: kron_text(address_of(public_key)@),
        sender: array_of(b.subrange(64, 96)),
        recipient_kron1: kron_text(recipient@),
        recipient,
        amount: le_value(b.subrange(128, 136)) as u64,
        fee: le_value(b.subrange(136, 144)) as u64,
        nonce: le_value(b.subrange(144, 152)) as u64,
        public_key,
        signature,
        relay_nodes,
        relay_proofs,
    };
    TxView { id: t.proper_id(), ..t }
}

fn read_array(bytes: &[u8], off: usize) -> (r: [u8; 32])
    requires
        off + 32 <= bytes@.len(),
    ensures
        r == array_of(bytes@.subrange(off as int, off + 32)),
{
    let r = array32(bytes, off);
    proof {
        lemma_array_of(r);
    }
    r
}

fn read_proof(bytes: &[u8], off: usize) -> (r: Result<(RelayProof, usize), DagError>)
    requires
        off <= bytes@.len(),
    ensures
        match r {
            Ok((p, next)) => parsed_proof(bytes@, off as int) == Ok::<(ProofView, int), DagError>(
                (p@, next as int),
            ) && off <= next <= bytes@.len(),
            Err(e) => parsed_proof(bytes@, off as int) == Err::<(ProofView, int), DagError>(e),
        },
{
    if bytes.len() - off < 36 {
        return Err(DagError::Sign(CryptoError::InvalidEncoding));
    }
    let node = read_array(bytes, off);
    let klen: usize = get_u32(bytes, off + 32) as usize;
    let at: usize = off + 36;
    let n: usize = match LatticePublicKey::encoded_len(bytes, at) {
        Ok(n) => n,
        Err(e) => {
            return Err(DagError::Sign(e));
        },
    };
    let end: usize = at + n;
    if klen != n || bytes.len() - end < 4 {
        return Err(DagError::Sign(CryptoError::InvalidEncoding));
    }
    let window = vstd::slice::slice_subrange(bytes, at, end);
    proof {
        lemma_blob_window(bytes@, at as int, PK_LEN as int);
    }
    let public_key = match LatticePublicKey::from_bytes(window) {
        Ok(pk) => pk,
        Err(e) => {
            return Err(DagError::Sign(e));
        },
    };
    let slen: usize = get_u32(bytes, end) as usize;
    let sig_at: usize = end + 4;
    if bytes.len() - sig_at < slen {
        return Err(DagError::Sign(CryptoError::InvalidEncoding));
    }
    let sig = match LatticeSignature::from_bytes(
        vstd::slice::slice_subrange(bytes, sig_at, sig_at + slen),
    ) {
        Ok(sig) => sig,
        Err(e) => {
            return Err(DagError::Sign(e));
        },
    };
    let p = RelayProof { node, public_key, sig };
    proof {
        assert(p@.public_key =~= bytes@.subrange(at + 5, end as int));
        assert(p@.sig =~= bytes@.subrange(end + 9, end + 9 + SIG_LEN));
    }
    Ok((p, sig_at + slen))
}

/// An envelope cut out of its surroundings reads the same.
proof fn lemma_blob_window(b: Seq<u8>, at: int, expected: int)
    requires
        0 <= at,
        0 <= expected,
        blob_length(b, at, expected) == Ok::<int, CryptoError>(5 + expected),
    ensures
        blob_length(b.subrange(at, at + 5 + expected), 0, expected) == Ok::<int, CryptoError>(
            5 + expected,
        ),
        b.subrange(at, at + 5 + expected).subrange(5, 5 + expected) == b.subrange(
            at + 5,
            at + 5 + expected,
        ),
{
    let w = b.subrange(at, at + 5 + expected);
    assert(w.subrange(1, 5) =~= b.subrange(at + 1, at + 5));
    assert(w.subrange(5, 5 + expected) =~= b.subrange(at + 5, at + 5 + expected));
}

fn read_proofs(bytes: &[u8], off: usize, n: u32) -> (r: Result<Vec<RelayProof>, DagError>)
    requires
        off <= bytes@.len(),
    ensures
        match r {
            Ok(v) => parsed_proofs(bytes@, off as int, n as nat) == Ok::<Seq<ProofView>, DagError>(
                proof_views(v@),
            ),
            Err(e) => parsed_proofs(bytes@, off as int, n as nat) == Err::<
                Seq<ProofView>,
                DagError,
            >(e),
        },
{
    let mut out: Vec<RelayProof> = Vec::new();
    let mut at: usize = off;
    let mut i: u32 = 0;
    assert(proof_views(out@) =~= Seq::<ProofView>::empty());
    proof {
        if let Ok(rest) = parsed_proofs(bytes@, off as int, n as nat) {
            assert(Seq::<ProofView>::empty() + rest =~= rest);
        }
    }
    while i < n
        invariant
            i <= n,
            at <= bytes@.len(),
            match parsed_proofs(bytes@, at as int, (n - i) as nat) {
                Ok(rest) => parsed_proofs(bytes@, off as int, n as nat) == Ok::<
                    Seq<ProofView>,
                    DagError,
                >(proof_views(out@) + rest),
                Err(e) => parsed_proofs(bytes@, off as int, n as nat) == Err::<
                    Seq<ProofView>,
                    DagError,
                >(e),
            },
        decreases n - i,
    {
        let ghost before = out@;
        match read_proof(bytes, at) {
            Ok((p, next)) => {
                out.push(p);
                proof {
                    assert(proof_views(out@) =~= proof_views(before).push(p@));
                    if let Ok(rest) = parsed_proofs(bytes@, next as int, (n - i - 1) as nat) {
                        assert(proof_views(before) + (seq![p@] + rest) =~= proof_views(out@) + rest);
                    }
                }
                at = next;
            },
            Err(e) => {
                return Err(e);
            },
        }
        i += 1;
    }
    assert(proof_views(out@) + Seq::<ProofView>::empty() =~= proof_views(out@));
    Ok(out)
}

fn read_sidecar(bytes: &[u8], off: usize) -> (r: Result<(Vec<Address>, Vec<RelayProof>), DagError>)
    requires
        off <= bytes@.len(),
    ensures
        match r {
            Ok((nodes, proofs)) => parsed_sidecar(bytes@, off as int) == Ok::<
                (Seq<Address>, Seq<ProofView>),
                DagError,
            >((nodes@, proof_views(proofs@))),
            Err(e) => parsed_sidecar(bytes@, off as int) == Err::<
                (Seq<Address>, Seq<ProofView>),
                DagError,
            >(e),
        },
{
    if bytes.len() - off < 4 {
        return Err(DagError::Sign(CryptoError::InvalidEncoding));
    }
    let n: u32 = get_u32(bytes, off);
    let start: usize = off + 4;
    let mut nodes: Vec<Address> = Vec::new();
    let mut at: usize = start;
    let mut i: u32 = 0;
    while i < n
        invariant
            i <= n,
            start == off + 4,
            start <= bytes@.len(),
            n == le_value(bytes@.subrange(off as int, off + 4)),
            at == start + 32 * i,
            at <= bytes.len(),
            nodes@ == addresses_at(bytes@, start as int, i as nat),
        decreases n - i,
    {
        if bytes.len() - at < 32 {
            return Err(DagError::Sign(CryptoError::InvalidEncoding));
        }
        nodes.push(read_array(bytes, at));
        at = at + 32;
        i += 1;
        assert(nodes@ =~= addresses_at(bytes@, start as int, i as nat));
    }
    if bytes.len() - at < 4 {
        return Err(DagError::Sign(CryptoError::InvalidEncoding));
    }
    let m: u32 = get_u32(bytes, at);
    match read_proofs(bytes, at + 4, m) {
        Ok(proofs) => Ok((nodes, proofs)),
        Err(e) => Err(e),
    }
}

impl DagTransaction {
    /// Builds a transfer, hashes it, then signs it with the wallet's key.
    pub fn assemble(
        parent_1: TxHash,
        parent_2: TxHash,
        wallet: &KronKeypair,
        recipient: Address,
        amount: u64,
        fee: u64,
        nonce: u64,
    ) -> (r: Result<Self, DagError>)
        ensures
            match r {
                Ok(tx) => {
                    &&& tx@ == assembled(
                        parent_1,
                        parent_2,
                        wallet.public_bytes(),
                        recipient,
                        amount,
                        fee,
                        nonce,
                        tx@.signature,
                    )
                    &&& tx@.signature.len() == SIG_LEN
                    &&& secret_usable(wallet.secret_bytes())
                    &&& wallet.matched() ==> tx@.signature_holds()
                },
                Err(e) => e == DagError::Sign(
                    if secret_usable(wallet.secret_bytes()) {
                        CryptoError::SigningAborted(1)
                    } else {
                        CryptoError::InvalidEncoding
                    },
                ),
            },
    {
        let public_key = wallet.public_key().clone();
        let sender = public_key.address();
        let sender_kron1 = derive_kron_address(&public_key);
        let recipient_kron1 = KronAddress::from_hash(recipient).into_string();
        let mut tx = DagTransaction {
            id: [0u8; 32],
            parent_1,
            parent_2,
            sender_kron1,
            sender,
            recipient_kron1,
            recipient,
            amount,
            fee,
            nonce,
            public_key,
            signature: LatticeSignature::empty(),
            relay_nodes: Vec::new(),
            relay_proofs: Vec::new(),
        };
        assert(proof_views(tx.relay_proofs@) =~= Seq::<ProofView>::empty());
        tx.refresh_id();
        match tx.sign(&wallet.lattice().secret) {
            Ok(()) => Ok(tx),
            Err(e) => Err(e),
        }
    }

    fn sign(&mut self, secret: &LatticeSecretKey) -> (r: Result<(), DagError>)
        ensures
            final(self)@ == (TxView { signature: final(self)@.signature, ..old(self)@ }),
            match r {
                Ok(()) => {
                    &&& secret_usable(secret@)
                    &&& final(self)@.signature.len() == SIG_LEN
                    &&& keys_match(old(self)@.public_key, secret@) ==> signature_accepted(
                        old(self)@.public_key,
                        old(self)@.unsigned(),
                        final(self)@.signature,
                    )
                },
                Err(e) => e == DagError::Sign(
                    if secret_usable(secret@) {
                        CryptoError::SigningAborted(1)
                    } else {
                        CryptoError::InvalidEncoding
                    },
                ),
            },
    {
        match secret.sign(self.unsigned_bytes().as_slice()) {
            Ok(sig) => {
                self.signature = sig;
                Ok(())
            },
            Err(e) => Err(DagError::Sign(e)),
        }
    }

    /// User transfer: the fee is always the fixed fee.
    pub fn user_transfer(
        parent_1: TxHash,
        parent_2: TxHash,
        wallet: &KronKeypair,
        recipient: Address,
        amount: u64,
        nonce: u64,
    ) -> (r: Result<Self, DagError>)
        ensures
            match r {
                Ok(tx) => {
                    &&& tx@ == assembled(
                        parent_1,
                        parent_2,
                        wallet.public_bytes(),
                        recipient,
                        amount,
                        FIXED_TRANSACTION_FEE,
                        nonce,
                        tx@.signature,
                    )
                    &&& tx@.signature.len() == SIG_LEN
                    &&& secret_usable(wallet.secret_bytes())
                    &&& wallet.matched() ==> tx@.signature_holds()
                },
                Err(e) => e == DagError::Sign(
                    if secret_usable(wallet.secret_bytes()) {
                        CryptoError::SigningAborted(1)
                    } else {
                        CryptoError::InvalidEncoding
                    },
                ),
            },
    {
        Self::assemble(parent_1, parent_2, wallet, recipient, amount, FIXED_TRANSACTION_FEE, nonce)
    }

    /// Wire encoding for gossip and the log. Display strings are derived.
    pub fn canonical_bytes(&self) -> (r: Vec<u8>)
        ensures
            r@ == self@.canonical(),
    {
        let mut out = self.unsigned_bytes();
        let sig = self.signature.to_bytes();
        put_le(&mut out, sig.len() as u64, 4);
        append(&mut out, sig.as_slice());
        put_le(&mut out, self.relay_nodes.len() as u64, 4);
        let ghost start = out@;
        let mut i: usize = 0;
        assert(start + join_addresses(self.relay_nodes@.take(0)) =~= start);
        while i < self.relay_nodes.len()
            invariant
                i <= self.relay_nodes@.len(),
                out@ == start + join_addresses(self.relay_nodes@.take(i as int)),
            decreases self.relay_nodes@.len() - i,
        {
            append(&mut out, self.relay_nodes[i].as_slice());
            proof {
                assert(self.relay_nodes@.take(i + 1).drop_last() =~= self.relay_nodes@.take(
                    i as int,
                ));
            }
            i += 1;
            assert(out@ =~= start + join_addresses(self.relay_nodes@.take(i as int)));
        }
        assert(self.relay_nodes@.take(i as int) =~= self.relay_nodes@);
        put_le(&mut out, self.relay_proofs.len() as u64, 4);
        let ghost mid = out@;
        let ghost views = proof_views(self.relay_proofs@);
        let mut j: usize = 0;
        assert(mid + join_proofs(views.take(0)) =~= mid);
        while j < self.relay_proofs.len()
            invariant
                j <= self.relay_proofs@.len(),
                views == proof_views(self.relay_proofs@),
                out@ == mid + join_proofs(views.take(j as int)),
            decreases self.relay_proofs@.len() - j,
        {
            let p = &self.relay_proofs[j];
            let ghost before = out@;
            append(&mut out, p.node.as_slice());
            let pk = p.public_key.to_bytes();
            put_le(&mut out, pk.len() as u64, 4);
            append(&mut out, pk.as_slice());
            let sb = p.sig.to_bytes();
            put_le(&mut out, sb.len() as u64, 4);
            append(&mut out, sb.as_slice());
            proof {
                assert(views[j as int] == p@);
                assert(out@ =~= before + p@.wire());
                assert(views.take(j + 1).drop_last() =~= views.take(j as int));
            }
            j += 1;
            assert(out@ =~= mid + join_proofs(views.take(j as int)));
        }
        assert(views.take(j as int) =~= views);
        assert(out@ =~= self@.canonical());
        out
    }

    /// Decodes a wire encoding. Id and display strings are derived.
    pub fn from_canonical(bytes: &[u8]) -> (r: Result<Self, DagError>)
        ensures
            match r {
                Ok(tx) => parsed_tx(bytes@) == Ok::<TxView, DagError>(tx@),
                Err(e) => parsed_tx(bytes@) == Err::<TxView, DagError>(e),
            },
    {
        if bytes.len() < 152 {
            return Err(DagError::Sign(CryptoError::InvalidEncoding));
        }
        let parent_1 = read_array(bytes, 0);
        let parent_2 = read_array(bytes, 32);
        let sender = read_array(bytes, 64);
        let recipient = read_array(bytes, 96);
        let amount: u64 = get_u64(bytes, 128);
        let fee: u64 = get_u64(bytes, 136);
        let nonce: u64 = get_u64(bytes, 144);
        let n: usize = match LatticePublicKey::encoded_len(bytes, 152) {
            Ok(n) => n,
            Err(e) => {
                return Err(DagError::Sign(e));
            },
        };
        let pk_end: usize = 152 + n;
        if bytes.len() - pk_end < 4 {
            return Err(DagError::Sign(CryptoError::InvalidEncoding));
        }
        proof {
            lemma_blob_window(bytes@, 152, PK_LEN as int);
        }
        let public_key = match LatticePublicKey::from_bytes(
            vstd::slice::slice_subrange(bytes, 152, pk_end),
        ) {
            Ok(pk) => pk,
            Err(e) => {
                return Err(DagError::Sign(e));
            },
        };
        let slen: usize = get_u32(bytes, pk_end) as usize;
        let sig_at: usize = pk_end + 4;
        if bytes.len() - sig_at < slen {
            return Err(DagError::Sign(CryptoError::InvalidEncoding));
        }
        let signature = match LatticeSignature::from_bytes(
            vstd::slice::slice_subrange(bytes, sig_at, sig_at + slen),
        ) {
            Ok(sig) => sig,
            Err(e) => {
                return Err(DagError::Sign(e));
            },
        };
        assert(signature@ =~= bytes@.subrange(sig_at + 5, sig_at + 5 + SIG_LEN));
        let (relay_nodes, relay_proofs) = match read_sidecar(bytes, sig_at + slen) {
            Ok(pair) => pair,
            Err(e) => {
                return Err(e);
            },
        };
        let sender_kron1 = derive_kron_address(&public_key);
        let recipient_kron1 = KronAddress::from_hash(recipient).into_string();
        let mut tx = DagTransaction {
            id: NULL_PARENT,
            parent_1,
            parent_2,
            sender_kron1,
            sender,
            recipient_kron1,
            recipient,
            amount,
            fee,
            nonce,
            public_key,
            signature,
            relay_nodes,
            relay_proofs,
        };
        assert(tx@.public_key =~= bytes@.subrange(157, 157 + PK_LEN as int));
        tx.refresh_id();
        Ok(tx)
    }
}

/// A freshly assembled transfer.
pub open spec fn assembled(
    parent_1: TxHash,
    parent_2: TxHash,
    public_key: Seq<u8>,
    recipient: Address,
    amount: u64,
    fee: u64,
    nonce: u64,
    signature: Seq<u8>,
) -> TxView {
    let t = TxView {
        id: NULL_PARENT,
        parent_1,
        parent_2,
        sender_kron1: kron_text(address_of(public_key)@),
        sender: address_of(public_key),
        recipient_kron1: kron_text(recipient@),
        recipient,
        amount,
        fee,
        nonce,
        public_key,
        signature,
        relay_nodes: Seq::empty(),
        relay_proofs: Seq::empty(),
    };
    TxView { id: t.proper_id(), ..t }
}

/// What a wallet assembles, the wire can carry.
pub proof fn law_assembled_is_wire_ready(
    parent_1: TxHash,
    parent_2: TxHash,
    public_key: Seq<u8>,
    recipient: Address,
    amount: u64,
    fee: u64,
    nonce: u64,
    signature: Seq<u8>,
)
    requires
        public_key.len() == PK_LEN,
        signature.len() == SIG_LEN,
    ensures
        is_wire_ready(
            assembled(parent_1, parent_2, public_key, recipient, amount, fee, nonce, signature),
        ),
{
    let t = assembled(parent_1, parent_2, public_key, recipient, amount, fee, nonce, signature);
    assert(t.unsigned() == (TxView { id: NULL_PARENT, ..t }).unsigned());
}

/// Carriers and proofs stand outside the signed bytes: changing them changes
/// neither the id nor whether the signature holds.
pub proof fn law_sidecar_is_unsigned(t: TxView, nodes: Seq<Address>, proofs: Seq<ProofView>)
    ensures
        (TxView { relay_nodes: nodes, relay_proofs: proofs, ..t }).unsigned() == t.unsigned(),
        (TxView { relay_nodes: nodes, relay_proofs: proofs, ..t }).proper_id() == t.proper_id(),
        (TxView { relay_nodes: nodes, relay_proofs: proofs, ..t }).signature_holds()
            == t.signature_holds(),
{
}

/// Where an address stands among joined ones.
pub proof fn lemma_joined_address(s: Seq<Address>, i: int)
    requires
        0 <= i < s.len(),
    ensures
        join_addresses(s).len() == 32 * s.len(),
        join_addresses(s).subrange(32 * i, 32 * i + 32) == s[i]@,
    decreases s.len(),
{
    let h = s.drop_last();
    lemma_joined_len(h);
    lemma_joined_len(s);
    if i < s.len() - 1 {
        lemma_joined_address(h, i);
        assert(join_addresses(s).subrange(32 * i, 32 * i + 32) =~= join_addresses(h).subrange(
            32 * i,
            32 * i + 32,
        ));
    } else {
        assert(join_addresses(s).subrange(32 * i, 32 * i + 32) =~= s[i]@);
    }
}

/// The length of joined addresses.
pub proof fn lemma_joined_len(s: Seq<Address>)
    ensures
        join_addresses(s).len() == 32 * s.len(),
    decreases s.len(),
{
    if s.len() > 0 {
        lemma_joined_len(s.drop_last());
    }
}

/// A transfer that the wire can carry: keys and signatures have their lengths, the
/// lists fit their counts, and id and display texts are the derived ones.
pub open spec fn is_wire_ready(t: TxView) -> bool {
    &&& t.public_key.len() == PK_LEN
    &&& t.signature.len() == SIG_LEN
    &&& t.relay_nodes.len() <= u32::MAX
    &&& t.relay_proofs.len() <= u32::MAX
    &&& forall|j: int|
        0 <= j < t.relay_proofs.len() ==> is_full_proof(#[trigger] t.relay_proofs[j])
    &&& t.id == t.proper_id()
    &&& t.sender_kron1 == kron_text(address_of(t.public_key)@)
    &&& t.recipient_kron1 == kron_text(t.recipient@)
}

/// A proof whose key and signature have their lengths.
pub open spec fn is_full_proof(p: ProofView) -> bool {
    p.public_key.len() == PK_LEN && p.sig.len() == SIG_LEN
}

/// Bytes of one carrier proof on the wire.
pub open spec fn proof_size() -> nat {
    (50 + PK_LEN + SIG_LEN) as nat
}

proof fn lemma_proof_len(p: ProofView)
    requires
        is_full_proof(p),
    ensures
        p.wire().len() == proof_size(),
{
    broadcast use lemma_le_bytes_len;

}

proof fn lemma_joined_proofs_len(s: Seq<ProofView>)
    requires
        forall|j: int| 0 <= j < s.len() ==> is_full_proof(#[trigger] s[j]),
    ensures
        join_proofs(s).len() == proof_size() * s.len(),
    decreases s.len(),
{
    if s.len() > 0 {
        let h = s.drop_last();
        assert forall|j: int| 0 <= j < h.len() implies is_full_proof(#[trigger] h[j]) by {
            assert(h[j] == s[j]);
        }
        lemma_joined_proofs_len(h);
        assert(is_full_proof(s[s.len() - 1]));
        lemma_proof_len(s.last());
        assert(proof_size() * s.len() == proof_size() * h.len() + proof_size()) by (nonlinear_arith)
            requires
                s.len() == h.len() + 1,
        ;
    } else {
        assert(proof_size() * s.len() == 0) by (nonlinear_arith)
            requires
                s.len() == 0,
        ;
    }
}

/// The first proof stands at the front.
proof fn lemma_joined_proofs_front(s: Seq<ProofView>)
    requires
        s.len() > 0,
    ensures
        join_proofs(s) == s[0].wire() + join_proofs(s.drop_first()),
    decreases s.len(),
{
    let h = s.drop_last();
    let t = s.drop_first();
    if s.len() == 1 {
        assert(h =~= Seq::<ProofView>::empty());
        assert(t =~= Seq::<ProofView>::empty());
        assert(join_proofs(s) =~= s[0].wire() + join_proofs(t));
    } else {
        lemma_joined_proofs_front(h);
        assert(h.drop_first() =~= t.drop_last());
        assert(t.last() == s.last());
        assert(h[0] == s[0]);
        assert(join_proofs(s) =~= s[0].wire() + join_proofs(t));
    }
}

/// One proof is read as it was written, wherever it stands.
#[verifier::spinoff_prover]
proof fn lemma_proof_reads_back(b: Seq<u8>, off: int, p: ProofView)
    requires
        0 <= off,
        is_full_proof(p),
        off + proof_size() <= b.len(),
        b.subrange(off, off + proof_size()) == p.wire(),
    ensures
        parsed_proof(b, off) == Ok::<(ProofView, int), DagError>((p, off + proof_size() as int)),
{
    broadcast use lemma_le_bytes_len;

    let w = p.wire();
    let pk = blob(SCHEME_MLDSA44, p.public_key);
    let sb = blob(SCHEME_MLDSA44, p.sig);
    let at = off + 36;
    let end = at + 5 + PK_LEN as int;
    let last = end + 9 + SIG_LEN as int;
    lemma_pow256_values();
    lemma_proof_len(p);
    assert(pk.len() == 5 + PK_LEN && sb.len() == 5 + SIG_LEN);
    lemma_le_value_of_bytes(pk.len(), 4);
    lemma_le_value_of_bytes(sb.len(), 4);
    assert(b.subrange(off, off + 32) =~= w.subrange(0, 32));
    assert(w.subrange(0, 32) =~= p.node@);
    assert(b.subrange(off + 32, at) =~= w.subrange(32, 36));
    assert(w.subrange(32, 36) =~= le_bytes(pk.len(), 4));
    assert(b.subrange(at, end) =~= w.subrange(36, 41 + PK_LEN as int));
    assert(w.subrange(36, 41 + PK_LEN as int) =~= pk);
    lemma_blob_reads_back(b, at, p.public_key);
    assert(b.subrange(end, end + 4) =~= w.subrange(41 + PK_LEN as int, 45 + PK_LEN as int));
    assert(w.subrange(41 + PK_LEN as int, 45 + PK_LEN as int) =~= le_bytes(sb.len(), 4));
    assert(b.subrange(end + 4, last) =~= w.subrange(45 + PK_LEN as int, proof_size() as int));
    assert(w.subrange(45 + PK_LEN as int, proof_size() as int) =~= sb);
    law_envelope_round_trip(p.sig);
    assert(b.subrange(end + 9, last) =~= b.subrange(end + 4, last).subrange(5, 5 + SIG_LEN as int));
    lemma_array_of(p.node);
}

/// Proofs are read as they were written, wherever they stand.
proof fn lemma_proofs_read_back(b: Seq<u8>, off: int, s: Seq<ProofView>)
    requires
        0 <= off,
        forall|j: int| 0 <= j < s.len() ==> is_full_proof(#[trigger] s[j]),
        off + join_proofs(s).len() <= b.len(),
        b.subrange(off, off + join_proofs(s).len()) == join_proofs(s),
    ensures
        parsed_proofs(b, off, s.len()) == Ok::<Seq<ProofView>, DagError>(s),
    decreases s.len(),
{
    if s.len() > 0 {
        let rest = s.drop_first();
        let all = join_proofs(s);
        let size = proof_size() as int;
        assert(is_full_proof(s[0]));
        lemma_joined_proofs_front(s);
        lemma_proof_len(s[0]);
        assert(b.subrange(off, off + size) =~= s[0].wire()) by {
            assert(b.subrange(off, off + size) =~= b.subrange(off, off + all.len()).subrange(
                0,
                size,
            ));
            assert(all.subrange(0, size) =~= s[0].wire());
        }
        lemma_proof_reads_back(b, off, s[0]);
        assert forall|j: int| 0 <= j < rest.len() implies is_full_proof(#[trigger] rest[j]) by {
            assert(rest[j] == s[j + 1]);
        }
        let more = join_proofs(rest);
        assert(b.subrange(off + size, off + size + more.len()) =~= more) by {
            assert(b.subrange(off + size, off + size + more.len()) =~= b.subrange(
                off,
                off + all.len(),
            ).subrange(size, all.len() as int));
            assert(all.subrange(size, all.len() as int) =~= more);
        }
        lemma_proofs_read_back(b, off + size, rest);
        assert(seq![s[0]] + rest =~= s);
    } else {
        assert(s =~= Seq::<ProofView>::empty());
    }
}

/// The size of a transfer on the wire: a fixed part, and a fixed size per carrier and
/// per proof.
pub proof fn law_canonical_length(t: TxView)
    requires
        is_wire_ready(t),
    ensures
        t.canonical().len() == 174 + PK_LEN + SIG_LEN + 32 * t.relay_nodes.len() + proof_size()
            * t.relay_proofs.len(),
{
    broadcast use lemma_le_bytes_len;

    lemma_joined_len(t.relay_nodes);
    lemma_joined_proofs_len(t.relay_proofs);
}

/// Decoding undoes encoding for every transfer that the wire can carry, carrier proofs
/// included.
#[verifier::spinoff_prover]
pub proof fn law_canonical_round_trip(t: TxView)
    requires
        is_wire_ready(t),
    ensures
        parsed_tx(t.canonical()) == Ok::<TxView, DagError>(t),
{
    broadcast use lemma_le_bytes_len;

    let b = t.canonical();
    let u = t.unsigned();
    let pk = blob(SCHEME_MLDSA44, t.public_key);
    let sig = blob(SCHEME_MLDSA44, t.signature);
    let nodes = join_addresses(t.relay_nodes);
    let n = t.relay_nodes.len();
    lemma_pow256_values();
    lemma_joined_len(t.relay_nodes);
    let pk_end = 157 + PK_LEN as int;
    let sig_at = pk_end + 4;
    let side = sig_at + 5 + SIG_LEN as int;
    assert(u.len() == pk_end);
    let proofs = join_proofs(t.relay_proofs);
    let m = t.relay_proofs.len();
    assert(b.len() == side + 4 + 32 * n + 4 + proofs.len());
    assert(b.subrange(0, 32) =~= t.parent_1@);
    assert(b.subrange(32, 64) =~= t.parent_2@);
    assert(b.subrange(64, 96) =~= t.sender@);
    assert(b.subrange(96, 128) =~= t.recipient@);
    assert(b.subrange(128, 136) =~= le_bytes(t.amount as nat, 8));
    assert(b.subrange(136, 144) =~= le_bytes(t.fee as nat, 8));
    assert(b.subrange(144, 152) =~= le_bytes(t.nonce as nat, 8));
    lemma_le_value_of_bytes(t.amount as nat, 8);
    lemma_le_value_of_bytes(t.fee as nat, 8);
    lemma_le_value_of_bytes(t.nonce as nat, 8);
    lemma_array_of(t.parent_1);
    lemma_array_of(t.parent_2);
    lemma_array_of(t.sender);
    lemma_array_of(t.recipient);
    assert(b.subrange(152, pk_end) =~= pk);
    lemma_blob_reads_back(b, 152, t.public_key);
    assert(b.subrange(pk_end, sig_at) =~= le_bytes(sig.len(), 4));
    lemma_le_value_of_bytes(sig.len(), 4);
    assert(b.subrange(sig_at, side) =~= sig);
    law_envelope_round_trip(t.signature);
    assert(b.subrange(sig_at + 5, side) =~= t.signature) by {
        assert(b.subrange(sig_at + 5, side) =~= b.subrange(sig_at, side).subrange(
            5,
            5 + SIG_LEN as int,
        ));
    }
    assert(b.subrange(side, side + 4) =~= le_bytes(n, 4));
    lemma_le_value_of_bytes(n, 4);
    let mid = side + 4 + 32 * n;
    assert(b.subrange(side + 4, mid) =~= nodes);
    assert(b.subrange(mid, mid + 4) =~= le_bytes(m, 4));
    lemma_le_value_of_bytes(m, 4);
    assert(b.subrange(mid + 4, mid + 4 + proofs.len()) =~= proofs);
    lemma_proofs_read_back(b, mid + 4, t.relay_proofs);
    assert(addresses_at(b, side + 4, n) =~= t.relay_nodes) by {
        assert forall|i: int| 0 <= i < n implies addresses_at(b, side + 4, n)[i] == t.relay_nodes[i] by {
            lemma_joined_address(t.relay_nodes, i);
            assert(b.subrange(side + 4 + 32 * i, side + 4 + 32 * i + 32) =~= b.subrange(
                side + 4,
                mid,
            ).subrange(32 * i, 32 * i + 32));
            lemma_array_of(t.relay_nodes[i]);
        }
    }
    let h = head_of(b, t.signature, t.relay_nodes, t.relay_proofs);
    assert(h.unsigned() == u);
}

/// Proofs that were read take their size, each.
proof fn lemma_proofs_take_room(b: Seq<u8>, off: int, n: nat)
    requires
        0 <= off <= b.len(),
        parsed_proofs(b, off, n) is Ok,
    ensures
        off + proof_size() * n <= b.len(),
    decreases n,
{
    if n > 0 {
        let next = parsed_proof(b, off)->Ok_0.1;
        assert(off + proof_size() <= next <= b.len());
        lemma_proofs_take_room(b, next, (n - 1) as nat);
        assert(proof_size() * n == proof_size() * (n - 1) + proof_size()) by (nonlinear_arith)
            requires
                n > 0,
        ;
    } else {
        assert(proof_size() * n == 0) by (nonlinear_arith)
            requires
                n == 0,
        ;
    }
}

/// An encoding that is cut off is refused, wherever it is cut.
#[verifier::spinoff_prover]
pub proof fn law_cut_transfer_is_refused(t: TxView, k: int)
    requires
        is_wire_ready(t),
        0 <= k < t.canonical().len(),
    ensures
        parsed_tx(t.canonical().take(k)) is Err,
{
    broadcast use lemma_le_bytes_len;

    let b = t.canonical();
    let c = b.take(k);
    let sig = blob(SCHEME_MLDSA44, t.signature);
    let n = t.relay_nodes.len();
    let m = t.relay_proofs.len();
    let pk_end = 157 + PK_LEN as int;
    let sig_at = pk_end + 4;
    let side = sig_at + 5 + SIG_LEN as int;
    let mid = side + 4 + 32 * n;
    law_canonical_length(t);
    lemma_pow256_values();
    lemma_joined_len(t.relay_nodes);
    if parsed_tx(c) is Ok {
        assert(t.unsigned().len() == pk_end);
        assert(c.subrange(pk_end, sig_at) =~= b.subrange(pk_end, sig_at));
        assert(b.subrange(pk_end, sig_at) =~= le_bytes(sig.len(), 4));
        lemma_le_value_of_bytes(sig.len(), 4);
        assert(parsed_sidecar(c, side) is Ok);
        assert(c.subrange(side, side + 4) =~= b.subrange(side, side + 4));
        assert(b.subrange(side, side + 4) =~= le_bytes(n, 4));
        lemma_le_value_of_bytes(n, 4);
        assert(c.subrange(mid, mid + 4) =~= b.subrange(mid, mid + 4));
        assert(b.subrange(mid, mid + 4) =~= le_bytes(m, 4));
        lemma_le_value_of_bytes(m, 4);
        lemma_proofs_take_room(c, mid + 4, m);
    }
}

} // verus!
