//! Signed packets (PCKP): an envelope with sender, sequence chain, clock and
//! schema, carrying a graph delta inline or by digest.

use vstd::prelude::*;
use vstd::utf8::encode_utf8;
use ed25519_dalek::{Signer, Verifier};
use crate::error::AgentZkError;
use crate::hash::{B3, b3, blake3_digest, append_bytes};
use crate::hlc::Hlc;
use crate::merge::{postcard_str, varint};

verus! {

/// Domain separator prefixed (as UTF-8 bytes) to every signed body.
pub const PCKP_DOMAIN: &'static str = "PCKP-v0.2-sig";

/// Deltas up to this many bytes travel inside the packet.
pub const INLINE_DELTA_MAX: usize = 4096;

/// A delta carried inside the packet, or referenced by digest and length.
#[derive(Debug)]
pub enum DeltaRef {
    Inline(Vec<u8>),
    Detached { hash: B3, len: u32 },
}

pub enum DeltaRefView {
    Inline(Seq<u8>),
    Detached { hash: B3, len: u32 },
}

impl View for DeltaRef {
    type V = DeltaRefView;

    open spec fn view(&self) -> DeltaRefView {
        match self {
            DeltaRef::Inline(b) => DeltaRefView::Inline(b@),
            DeltaRef::Detached { hash, len } => DeltaRefView::Detached { hash: *hash, len: *len },
        }
    }
}

impl DeltaRef {
    /// Inline up to `INLINE_DELTA_MAX` bytes; beyond that, the BLAKE3 digest and
    /// the length (as a `u32`, truncated as the wire field is).
    pub fn from_bytes(bytes: Vec<u8>) -> (r: Self)
        ensures
            bytes@.len() <= INLINE_DELTA_MAX ==> r@ == DeltaRefView::Inline(bytes@),
            bytes@.len() > INLINE_DELTA_MAX ==> r@ == (DeltaRefView::Detached {
                hash: r->hash,
                len: bytes@.len() as u32,
            }) && r->hash@ == blake3_digest(bytes@),
    {
        if bytes.len() <= INLINE_DELTA_MAX {
            DeltaRef::Inline(bytes)
        } else {
            let hash = b3(bytes.as_slice());
            DeltaRef::Detached { hash, len: bytes.len() as u32 }
        }
    }

    pub fn duplicate(&self) -> (r: Self)
        ensures
            r@ == self@,
    {
        match self {
            DeltaRef::Inline(b) => DeltaRef::Inline(copy_bytes(b)),
            DeltaRef::Detached { hash, len } => DeltaRef::Detached { hash: *hash, len: *len },
        }
    }

    /// The delta length the packet declares.
    pub fn declared_len(&self) -> (n: usize)
        ensures
            self@ matches DeltaRefView::Inline(b) ==> n == b.len(),
            self@ matches DeltaRefView::Detached { len, .. } ==> n == len,
    {
        match self {
            DeltaRef::Inline(b) => b.len(),
            DeltaRef::Detached { len, .. } => *len as usize,
        }
    }
}

/// A copy of a byte vector.
pub fn copy_bytes(b: &Vec<u8>) -> (r: Vec<u8>)
    ensures
        r@ == b@,
{
    let mut r: Vec<u8> = Vec::new();
    append_bytes(&mut r, b.as_slice());
    r
}

/// The signed part of a packet.
#[derive(Debug)]
pub struct SignablePacket {
    pub v: u16,
    pub id: String,
    pub src: String,
    pub key: String,
    pub swarm: String,
    pub sess: Option<String>,
    pub seq: u64,
    pub prev: Option<B3>,
    pub hlc: Hlc,
    pub schema: B3,
    pub delta: DeltaRef,
    pub tier: u8,
    pub stake: Option<String>,
}

pub struct BodyView {
    pub v: u16,
    pub id: Seq<char>,
    pub src: Seq<char>,
    pub key: Seq<char>,
    pub swarm: Seq<char>,
    pub sess: Option<Seq<char>>,
    pub seq: u64,
    pub prev: Option<B3>,
    pub hlc: Hlc,
    pub schema: B3,
    pub delta: DeltaRefView,
    pub tier: u8,
    pub stake: Option<Seq<char>>,
}

pub open spec fn opt_text(o: Option<String>) -> Option<Seq<char>> {
    match o {
        Some(s) => Some(s@),
        None => None,
    }
}

impl View for SignablePacket {
    type V = BodyView;

    open spec fn view(&self) -> BodyView {
        BodyView {
            v: self.v,
            id: self.id@,
            src: self.src@,
            key: self.key@,
            swarm: self.swarm@,
            sess: opt_text(self.sess),
            seq: self.seq,
            prev: self.prev,
            hlc: self.hlc,
            schema: self.schema,
            delta: self.delta@,
            tier: self.tier,
            stake: opt_text(self.stake),
        }
    }
}

/// postcard's encoding of an optional string: a 0 byte, or a 1 byte and the string.
pub open spec fn postcard_opt_str(o: Option<Seq<char>>) -> Seq<u8> {
    match o {
        None => seq![0u8],
        Some(t) => seq![1u8] + postcard_str(t),
    }
}

/// postcard's encoding of a packet body: its fields in order; integers as
/// varints but the one-byte tier; strings and byte vectors with a varint length;
/// an option as a 0 byte, or a 1 byte and the value; fixed arrays as their
/// bytes; the delta reference as its variant index, then its fields.
pub open spec fn body_encoding(b: BodyView) -> Seq<u8> {
    varint(b.v as nat) + postcard_str(b.id) + postcard_str(b.src) + postcard_str(b.key) + postcard_str(b.swarm)
        + postcard_opt_str(b.sess) + varint(b.seq as nat) + match b.prev {
        None => seq![0u8],
        Some(h) => seq![1u8] + h@,
    } + varint(b.hlc.physical_ms as nat) + varint(b.hlc.logical as nat) + b.hlc.node_id@ + b.schema@ + match b.delta {
        DeltaRefView::Inline(bytes) => seq![0u8] + varint(bytes.len()) + bytes,
        DeltaRefView::Detached { hash, len } => seq![1u8] + hash@ + varint(len as nat),
    } + seq![b.tier] + postcard_opt_str(b.stake)
}

/// The bytes a body's signature covers: the domain separator's UTF-8 bytes,
/// then the body's encoding.
pub open spec fn signing_input(b: BodyView) -> Seq<u8> {
    encode_utf8(PCKP_DOMAIN@) + body_encoding(b)
}

/// The content hash of a body: the digest whose bytes are BLAKE3 of its signing bytes.
pub open spec fn content_hash_of(b: BodyView) -> B3 {
    choose|h: B3| h@ == blake3_digest(signing_input(b))
}

/// `postcard::to_allocvec` on a packet body, handed over as the tuple of its
/// fields (postcard writes a struct as its fields in order, and a tuple the
/// same way), with the delta reference as a `Result` (variant 0 carries the
/// inline bytes, variant 1 the digest and length, as `DeltaRef`'s variants do).
/// The contract claims the result is `body_encoding`, and that writing into a
/// growable vector does not fail.
#[verifier::external_body]
fn postcard_body(body: &SignablePacket) -> (r: Result<Vec<u8>, postcard::Error>)
    ensures
        r is Ok,
        r matches Ok(v) ==> v@ == body_encoding(body@),
{
    let delta: Result<&Vec<u8>, (&B3, u32)> = match &body.delta {
        DeltaRef::Inline(b) => Ok(b),
        DeltaRef::Detached { hash, len } => Err((hash, *len)),
    };
    let hlc = (body.hlc.physical_ms, body.hlc.logical, &body.hlc.node_id);
    postcard::to_allocvec(
        &(body.v, &body.id, &body.src, &body.key, &body.swarm, &body.sess, body.seq, &body.prev, hlc, &body.schema, delta, body.tier, &body.stake),
    )
}

fn copy_opt_text(o: &Option<String>) -> (r: Option<String>)
    ensures
        opt_text(r) == opt_text(*o),
{
    match o {
        Some(s) => Some(s.clone()),
        None => None,
    }
}

impl SignablePacket {
    pub fn duplicate(&self) -> (r: Self)
        ensures
            r@ == self@,
    {
        SignablePacket {
            v: self.v,
            id: self.id.clone(),
            src: self.src.clone(),
            key: self.key.clone(),
            swarm: self.swarm.clone(),
            sess: copy_opt_text(&self.sess),
            seq: self.seq,
            prev: self.prev,
            hlc: self.hlc,
            schema: self.schema,
            delta: self.delta.duplicate(),
            tier: self.tier,
            stake: copy_opt_text(&self.stake),
        }
    }

    /// The bytes a signature covers: the domain separator, then the body's
    /// postcard encoding. Encoding into a growable vector cannot fail.
    pub fn signing_bytes(&self) -> (r: Result<Vec<u8>, AgentZkError>)
        ensures
            r matches Ok(b) && b@ == signing_input(self@),
    {
        let payload = match postcard_body(self) {
            Ok(v) => v,
            Err(_) => {
                proof { assert(false); }
                return Err(AgentZkError::Serialization(String::new()));
            },
        };
        let mut out: Vec<u8> = Vec::new();
        append_bytes(&mut out, PCKP_DOMAIN.as_bytes());
        append_bytes(&mut out, payload.as_slice());
        Ok(out)
    }
}

/// A signed packet.
#[derive(Debug)]
pub struct PckpPacket {
    pub body: SignablePacket,
    pub sig: Vec<u8>,
}

pub struct PacketView {
    pub body: BodyView,
    pub sig: Seq<u8>,
}

impl View for PckpPacket {
    type V = PacketView;

    open spec fn view(&self) -> PacketView {
        PacketView { body: self.body@, sig: self.sig@ }
    }
}

/// Whether ed25519-dalek accepts `sig` as a signature of `msg` under the public
/// key whose compressed encoding is `key` (false where `key` encodes no point).
pub uninterp spec fn ed25519_accepts(key: Seq<u8>, msg: Seq<u8>, sig: Seq<u8>) -> bool;

/// The signature ed25519-dalek makes of `msg` with the secret key `secret`.
pub uninterp spec fn ed25519_signature(secret: Seq<u8>, msg: Seq<u8>) -> Seq<u8>;

/// `VerifyingKey::from_bytes` followed by `Verifier::verify`: the contract claims
/// only that the answer is ed25519-dalek's verdict on exactly these bytes.
#[verifier::external_body]
fn ed25519_verify(key: &[u8; 32], msg: &[u8], sig: &[u8; 64]) -> (ok: bool)
    ensures
        ok == ed25519_accepts(key@, msg@, sig@),
{
    match ed25519_dalek::VerifyingKey::from_bytes(key) {
        Ok(vk) => vk.verify(msg, &ed25519_dalek::Signature::from_bytes(sig)).is_ok(),
        Err(_) => false,
    }
}

/// The public key (its 32-byte compressed encoding) ed25519-dalek derives from
/// the secret key `secret`.
pub uninterp spec fn ed25519_public(secret: Seq<u8>) -> Seq<u8>;

/// `SigningKey::from_bytes` followed by `verifying_key().to_bytes()`: the
/// contract claims only that the result is the public key ed25519-dalek derives
/// from exactly these bytes.
#[verifier::external_body]
fn ed25519_public_key(secret: &[u8; 32]) -> (r: [u8; 32])
    ensures
        r@ == ed25519_public(secret@),
{
    ed25519_dalek::SigningKey::from_bytes(secret).verifying_key().to_bytes()
}

/// `SigningKey::from_bytes` followed by `Signer::sign` (deterministic Ed25519):
/// the contract claims that the result is that signature of exactly these
/// bytes, and that it verifies under the public key of the same secret key
/// (ed25519-dalek's documentation shows a signature verifying under its
/// signer's public key, also after both went through their byte encodings).
#[verifier::external_body]
fn ed25519_sign(secret: &[u8; 32], msg: &[u8]) -> (sig: [u8; 64])
    ensures
        sig@ == ed25519_signature(secret@, msg@),
        ed25519_accepts(ed25519_public(secret@), msg@, sig@),
{
    ed25519_dalek::SigningKey::from_bytes(secret).sign(msg).to_bytes()
}

impl PckpPacket {
    pub fn duplicate(&self) -> (r: Self)
        ensures
            r@ == self@,
    {
        PckpPacket { body: self.body.duplicate(), sig: copy_bytes(&self.sig) }
    }

    /// The digest that identifies a packet's content: BLAKE3 of its signing bytes.
    pub fn content_hash(&self) -> (r: B3)
        ensures
            r@ == blake3_digest(signing_input(self.body@)),
    {
        let sb = match self.body.signing_bytes() {
            Ok(b) => b,
            Err(_) => {
                proof { assert(false); }
                Vec::new()
            },
        };
        b3(sb.as_slice())
    }

    /// The public key that belongs to the secret key `secret`.
    pub fn public_key(secret: &[u8; 32]) -> (r: [u8; 32])
        ensures
            r@ == ed25519_public(secret@),
    {
        ed25519_public_key(secret)
    }

    /// Signs `body` with the secret key `secret`. Signing cannot fail, and the
    /// packet verifies under the public key of `secret`.
    pub fn sign(body: SignablePacket, secret: &[u8; 32]) -> (r: Result<Self, AgentZkError>)
        ensures
            r matches Ok(p) && p.body@ == body@ && p.sig@ == ed25519_signature(secret@, signing_input(body@))
                && p.sig@.len() == 64 && ed25519_accepts(ed25519_public(secret@), signing_input(p.body@), p.sig@),
    {
        let sb = match body.signing_bytes() {
            Ok(b) => b,
            Err(e) => { return Err(e); },
        };
        let sig = ed25519_sign(secret, sb.as_slice());
        let mut out: Vec<u8> = Vec::new();
        append_bytes(&mut out, &sig);
        Ok(PckpPacket { body, sig: out })
    }

    /// Checks the signature over the body's signing bytes against the sender's
    /// public key `key`.
    pub fn verify(&self, key: &[u8; 32]) -> (r: Result<(), AgentZkError>)
        ensures
            r is Ok <==> self.sig@.len() == 64 && ed25519_accepts(key@, signing_input(self.body@), self.sig@),
            r matches Err(e) ==> e is BadSignature,
    {
        if self.sig.len() != 64 {
            return Err(AgentZkError::BadSignature);
        }
        let signing_bytes = match self.body.signing_bytes() {
            Ok(b) => b,
            Err(_) => {
                proof { assert(false); }
                return Err(AgentZkError::BadSignature);
            },
        };
        let mut sig = [0u8; 64];
        let mut i: usize = 0;
        while i < 64
            invariant
                i <= 64,
                self.sig@.len() == 64,
                forall|j: int| 0 <= j < i ==> sig@[j] == self.sig@[j],
            decreases 64 - i,
        {
            sig[i] = self.sig[i];
            i = i + 1;
        }
        assert(sig@ =~= self.sig@);
        if ed25519_verify(key, signing_bytes.as_slice(), &sig) {
            Ok(())
        } else {
            Err(AgentZkError::BadSignature)
        }
    }
}

} // verus!
