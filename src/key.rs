use vstd::prelude::*;
use crate::bytes::{append_bytes, le32, le32_bytes, le64, le64_bytes};
use crate::crypto::{ed25519_public, ed25519_signature, public_key_of, random_seed, sign_with};
use crate::message::{encoding, lemma_encoded_len_push, lemma_encoding_len, lemma_value_bytes_push, RtMessage};
use crate::tag::Tag;

verus! {

/// Uncertainty radius stated in every signed response, in microseconds.
pub const RADIUS_MICROS: u32 = 1000000;

/// The NUL-terminated context prefixed to a delegation before it is signed.
pub open spec fn certificate_context() -> Seq<u8> {
    seq![0x52u8, 0x6f, 0x75, 0x67, 0x68, 0x54, 0x69, 0x6d, 0x65, 0x20, 0x76, 0x31, 0x20, 0x64, 0x65, 0x6c, 0x65, 0x67, 0x61, 0x74, 0x69, 0x6f, 0x6e, 0x20, 0x73, 0x69, 0x67, 0x6e, 0x61, 0x74, 0x75, 0x72, 0x65, 0x2d, 0x2d, 0x00]
}

/// The NUL-terminated context prefixed to a signed response before it is signed.
pub open spec fn response_context() -> Seq<u8> {
    seq![0x52u8, 0x6f, 0x75, 0x67, 0x68, 0x54, 0x69, 0x6d, 0x65, 0x20, 0x76, 0x31, 0x20, 0x72, 0x65, 0x73, 0x70, 0x6f, 0x6e, 0x73, 0x65, 0x20, 0x73, 0x69, 0x67, 0x6e, 0x61, 0x74, 0x75, 0x72, 0x65, 0x00]
}

/// The bytes of `certificate_context`.
pub fn certificate_context_bytes() -> (r: Vec<u8>)
    ensures
        r@ == certificate_context(),
{
    let r: Vec<u8> = vec![0x52u8, 0x6f, 0x75, 0x67, 0x68, 0x54, 0x69, 0x6d, 0x65, 0x20, 0x76, 0x31, 0x20, 0x64, 0x65, 0x6c, 0x65, 0x67, 0x61, 0x74, 0x69, 0x6f, 0x6e, 0x20, 0x73, 0x69, 0x67, 0x6e, 0x61, 0x74, 0x75, 0x72, 0x65, 0x2d, 0x2d, 0x00];
    assert(r@ =~= certificate_context());
    r
}

/// The bytes of `response_context`.
pub fn response_context_bytes() -> (r: Vec<u8>)
    ensures
        r@ == response_context(),
{
    let r: Vec<u8> = vec![0x52u8, 0x6f, 0x75, 0x67, 0x68, 0x54, 0x69, 0x6d, 0x65, 0x20, 0x76, 0x31, 0x20, 0x72, 0x65, 0x73, 0x70, 0x6f, 0x6e, 0x73, 0x65, 0x20, 0x73, 0x69, 0x67, 0x6e, 0x61, 0x74, 0x75, 0x72, 0x65, 0x00];
    assert(r@ =~= response_context());
    r
}

/// The wire form of a delegation of `pubk` valid from `mint` to `maxt`.
pub open spec fn dele_encoding(pubk: Seq<u8>, mint: u64, maxt: u64) -> Seq<u8> {
    encoding(
        seq![Tag::PUBK.value(), Tag::MINT.value(), Tag::MAXT.value()],
        seq![pubk, le64(mint), le64(maxt)],
    )
}

/// The wire form of the certificate that the long-term key `seed` issues
/// for the online public key `pubk`.
pub open spec fn cert_encoding(seed: Seq<u8>, pubk: Seq<u8>, mint: u64, maxt: u64) -> Seq<u8> {
    let dele = dele_encoding(pubk, mint, maxt);
    encoding(
        seq![Tag::SIG.value(), Tag::DELE.value()],
        seq![ed25519_signature(seed, certificate_context() + dele), dele],
    )
}

/// The wire form of the signed-response payload for time `midp` and Merkle root `root`.
pub open spec fn srep_encoding(midp: u64, root: Seq<u8>) -> Seq<u8> {
    encoding(
        seq![Tag::RADI.value(), Tag::MIDP.value(), Tag::ROOT.value()],
        seq![le32(RADIUS_MICROS), le64(midp), root],
    )
}

fn make_dele(pubk: &[u8], mint: u64, maxt: u64) -> (r: Vec<u8>)
    requires
        pubk@.len() == 32,
    ensures
        r@ == dele_encoding(pubk@, mint, maxt),
        r@.len() == 72,
{
    let mut dele = RtMessage::new(3);
    let mint_bytes = le64_bytes(mint);
    let maxt_bytes = le64_bytes(maxt);
    proof { lemma_encoded_len_push(dele.value_seq(), pubk@); }
    let r1 = dele.add_field(Tag::PUBK, pubk);
    assert(r1 is Ok);
    proof { lemma_encoded_len_push(dele.value_seq(), mint_bytes@); }
    let r2 = dele.add_field(Tag::MINT, mint_bytes.as_slice());
    assert(r2 is Ok);
    proof { lemma_encoded_len_push(dele.value_seq(), maxt_bytes@); }
    let r3 = dele.add_field(Tag::MAXT, maxt_bytes.as_slice());
    assert(r3 is Ok);
    assert(dele.tag_seq() =~= seq![Tag::PUBK.value(), Tag::MINT.value(), Tag::MAXT.value()]);
    assert(dele.value_seq() =~= seq![pubk@, le64(mint), le64(maxt)]);
    proof {
        let e = Seq::<Seq<u8>>::empty();
        lemma_value_bytes_push(e, pubk@);
        lemma_value_bytes_push(e.push(pubk@), le64(mint));
        lemma_value_bytes_push(e.push(pubk@).push(le64(mint)), le64(maxt));
        assert(e.push(pubk@).push(le64(mint)).push(le64(maxt)) =~= dele.value_seq());
    }
    dele.encode()
}

/// The long-term identity key, derived from a 32-byte seed.
pub struct LongTermKey {
    seed: Vec<u8>,
    public_key: Vec<u8>,
}

impl LongTermKey {
    /// The seed the key was derived from.
    pub closed spec fn seed_seq(&self) -> Seq<u8> {
        self.seed@
    }

    /// The 32-byte seed and the public key that belongs to it.
    pub closed spec fn wf(&self) -> bool {
        &&& self.seed@.len() == 32
        &&& self.public_key@ == ed25519_public(self.seed@)
        &&& self.public_key@.len() == 32
    }

    /// Derives the key pair from `seed`.
    pub fn new(seed: &[u8]) -> (r: LongTermKey)
        requires
            seed@.len() == 32,
        ensures
            r.wf(),
            r.seed_seq() == seed@,
    {
        let mut s: Vec<u8> = Vec::new();
        append_bytes(&mut s, seed);
        let public_key = public_key_of(seed);
        LongTermKey { seed: s, public_key }
    }

    /// The long-term public key.
    pub fn public_key(&self) -> (r: &[u8])
        requires
            self.wf(),
        ensures
            r@ == ed25519_public(self.seed_seq()),
            r@.len() == 32,
    {
        self.public_key.as_slice()
    }

    /// The certificate delegating to `online_key` for the window `mint` to `maxt`.
    pub fn make_cert(&self, online_key: &OnlineKey, mint: u64, maxt: u64) -> (r: RtMessage)
        requires
            self.wf(),
            online_key.wf(),
        ensures
            r.wf(),
            r.spec_encoding() == cert_encoding(
                self.seed_seq(),
                ed25519_public(online_key.seed_seq()),
                mint,
                maxt,
            ),
            r.spec_encoding().len() == 152,
    {
        let dele_bytes = make_dele(online_key.public_key.as_slice(), mint, maxt);
        let mut to_sign = certificate_context_bytes();
        append_bytes(&mut to_sign, dele_bytes.as_slice());
        let sig = sign_with(self.seed.as_slice(), to_sign.as_slice());
        let mut cert = RtMessage::new(2);
        proof { lemma_encoded_len_push(cert.value_seq(), sig@); }
        let r4 = cert.add_field(Tag::SIG, sig.as_slice());
        assert(r4 is Ok);
        proof { lemma_encoded_len_push(cert.value_seq(), dele_bytes@); }
        let r5 = cert.add_field(Tag::DELE, dele_bytes.as_slice());
        assert(r5 is Ok);
        assert(cert.tag_seq() =~= seq![Tag::SIG.value(), Tag::DELE.value()]);
        assert(cert.value_seq() =~= seq![sig@, dele_bytes@]);
        proof {
            let e = Seq::<Seq<u8>>::empty();
            lemma_value_bytes_push(e, sig@);
            lemma_value_bytes_push(e.push(sig@), dele_bytes@);
            assert(e.push(sig@).push(dele_bytes@) =~= cert.value_seq());
            lemma_encoding_len(cert.tag_seq(), cert.value_seq());
        }
        cert
    }
}

/// The online (delegated) key that signs each batch.
pub struct OnlineKey {
    seed: Vec<u8>,
    public_key: Vec<u8>,
}

impl OnlineKey {
    /// The secret seed of the online key.
    pub closed spec fn seed_seq(&self) -> Seq<u8> {
        self.seed@
    }

    /// The 32-byte seed and the public key that belongs to it.
    pub closed spec fn wf(&self) -> bool {
        &&& self.seed@.len() == 32
        &&& self.public_key@ == ed25519_public(self.seed@)
        &&& self.public_key@.len() == 32
    }

    /// A fresh online key drawn from the random number generator.
    pub fn new() -> (r: OnlineKey)
        ensures
            r.wf(),
    {
        let seed = random_seed();
        OnlineKey::from_seed(seed.as_slice())
    }

    /// The online key with the given 32-byte secret seed.
    pub fn from_seed(seed: &[u8]) -> (r: OnlineKey)
        requires
            seed@.len() == 32,
        ensures
            r.wf(),
            r.seed_seq() == seed@,
    {
        let mut s: Vec<u8> = Vec::new();
        append_bytes(&mut s, seed);
        let public_key = public_key_of(seed);
        OnlineKey { seed: s, public_key }
    }

    /// The online public key.
    pub fn public_key(&self) -> (r: &[u8])
        requires
            self.wf(),
        ensures
            r@ == ed25519_public(self.seed_seq()),
            r@.len() == 32,
    {
        self.public_key.as_slice()
    }

    /// The signed response for time `midp` (microseconds since the epoch)
    /// and Merkle root `root`: `SIG` signs the context and the `SREP` bytes.
    pub fn make_srep(&self, midp: u64, root: &[u8]) -> (r: RtMessage)
        requires
            self.wf(),
            root@.len() == 32,
        ensures
            r.wf(),
            r.tag_seq() == seq![Tag::SIG.value(), Tag::SREP.value()],
            r.value_seq() == seq![
                ed25519_signature(self.seed_seq(), response_context() + srep_encoding(midp, root@)),
                srep_encoding(midp, root@),
            ],
            r.value_seq()[0].len() == 64,
            r.value_seq()[1].len() == 68,
    {
        let mut srep = RtMessage::new(3);
        let radi = le32_bytes(RADIUS_MICROS);
        let midp_bytes = le64_bytes(midp);
        proof { lemma_encoded_len_push(srep.value_seq(), radi@); }
        let r1 = srep.add_field(Tag::RADI, radi.as_slice());
        assert(r1 is Ok);
        proof { lemma_encoded_len_push(srep.value_seq(), midp_bytes@); }
        let r2 = srep.add_field(Tag::MIDP, midp_bytes.as_slice());
        assert(r2 is Ok);
        proof { lemma_encoded_len_push(srep.value_seq(), root@); }
        let r3 = srep.add_field(Tag::ROOT, root);
        assert(r3 is Ok);
        assert(srep.tag_seq() =~= seq![Tag::RADI.value(), Tag::MIDP.value(), Tag::ROOT.value()]);
        assert(srep.value_seq() =~= seq![le32(RADIUS_MICROS), le64(midp), root@]);
        proof {
            let e = Seq::<Seq<u8>>::empty();
            lemma_value_bytes_push(e, radi@);
            lemma_value_bytes_push(e.push(radi@), midp_bytes@);
            lemma_value_bytes_push(e.push(radi@).push(midp_bytes@), root@);
            assert(e.push(radi@).push(midp_bytes@).push(root@) =~= srep.value_seq());
        }
        let srep_bytes = srep.encode();
        let mut to_sign = response_context_bytes();
        append_bytes(&mut to_sign, srep_bytes.as_slice());
        let sig = sign_with(self.seed.as_slice(), to_sign.as_slice());
        let mut out = RtMessage::new(2);
        proof { lemma_encoded_len_push(out.value_seq(), sig@); }
        let r4 = out.add_field(Tag::SIG, sig.as_slice());
        assert(r4 is Ok);
        proof { lemma_encoded_len_push(out.value_seq(), srep_bytes@); }
        let r5 = out.add_field(Tag::SREP, srep_bytes.as_slice());
        assert(r5 is Ok);
        assert(out.tag_seq() =~= seq![Tag::SIG.value(), Tag::SREP.value()]);
        assert(out.value_seq() =~= seq![sig@, srep_bytes@]);
        out
    }
}

} // verus!
