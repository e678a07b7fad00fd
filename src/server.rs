use vstd::prelude::*;
use crate::bytes::{append_bytes, hex_encode, hex_of, le32, le32_bytes};
use crate::config::{valid_config, ServerConfig};
use crate::crypto::{ed25519_public, ed25519_signature};
use crate::error::Error;
use crate::key::{cert_encoding, response_context, srep_encoding, LongTermKey, OnlineKey};
use crate::merkle::{
    lemma_path_len_bound, lemma_path_len_log, lemma_pow2_6, leaf_hash, leaf_hashes, path_nodes, root_of, MerkleTree,
};
use crate::message::{
    copy_slice, encoding, field_index, field_value, lemma_encoded_len_push, lemma_encoding_len,
    lemma_field_index_at, lemma_value_bytes_push, value_bytes, RtMessage,
};
use crate::tag::Tag;

verus! {

/// Shortest request the server answers, in bytes.
pub const MIN_REQUEST_LENGTH: u32 = 1024;

/// How long after startup a delegation stays valid: 365 days, in microseconds.
pub const DELEGATION_HORIZON_MICROS: u64 = 31536000000000;

/// What a request datagram yields: its 64-byte nonce, or why it is refused.
/// A request declares two fields, `NONC` then `PAD`, with a `NONC` value of
/// 64 bytes (so the one offset word is 64).
pub open spec fn request_nonce(d: Seq<u8>) -> Result<Seq<u8>, Error> {
    if d.len() < MIN_REQUEST_LENGTH {
        Err(Error::RequestTooShort)
    } else if d.subrange(0, 4) == le32(2) && d.subrange(4, 8) == le32(64) && d.subrange(8, 12) == le32(
        Tag::NONC.value(),
    )
        && d.subrange(12, 16) == le32(Tag::PAD.value()) {
        Ok(d.subrange(16, 80))
    } else {
        Err(Error::InvalidRequest)
    }
}

/// The wire form of the response at `index` of a batch: the batch's
/// signature and signed payload, the leaf's path, the certificate and the index.
pub open spec fn response_encoding(sig: Seq<u8>, path: Seq<u8>, srep: Seq<u8>, cert: Seq<u8>, index: u32) -> Seq<u8> {
    encoding(
        seq![Tag::SIG.value(), Tag::PATH.value(), Tag::SREP.value(), Tag::CERT.value(), Tag::INDX.value()],
        seq![sig, path, srep, cert, le32(index)],
    )
}

fn bytes_equal_at(buf: &[u8], at: usize, expected: &Vec<u8>) -> (r: bool)
    requires
        at + expected@.len() <= buf@.len(),
    ensures
        r == (buf@.subrange(at as int, at + expected@.len()) == expected@),
{
    let blen = buf.len();
    let mut i: usize = 0;
    while i < expected.len()
        invariant
            blen == buf@.len(),
            at + expected@.len() <= buf@.len(),
            i <= expected@.len(),
            forall|j: int| 0 <= j < i ==> buf@[at + j] == expected@[j],
        decreases expected@.len() - i,
    {
        if buf[at + i] != expected[i] {
            assert(buf@.subrange(at as int, at + expected@.len())[i as int] != expected@[i as int]);
            return false;
        }
        i = i + 1;
    }
    assert(buf@.subrange(at as int, at + expected@.len()) =~= expected@);
    true
}

/// `n + 1`, held at `u64::MAX`.
pub open spec fn saturating_inc(n: int) -> int {
    if n < u64::MAX {
        n + 1
    } else {
        u64::MAX as int
    }
}

/// `n + k`, held at `u64::MAX`.
pub open spec fn saturating_plus(n: int, k: int) -> int {
    if n + k <= u64::MAX {
        n + k
    } else {
        u64::MAX as int
    }
}

/// The bytes sent back for the request at `index` of the batch `nonces`,
/// signed by the online key `seed` at time `midp`, with certificate `cert`.
pub open spec fn batch_response(seed: Seq<u8>, midp: u64, nonces: Seq<Seq<u8>>, cert: Seq<u8>, index: int) -> Seq<u8> {
    let leaves = leaf_hashes(nonces);
    let srep = srep_encoding(midp, root_of(leaves));
    response_encoding(
        ed25519_signature(seed, response_context() + srep),
        value_bytes(path_nodes(leaves, index)),
        srep,
        cert,
        index as u32,
    )
}

/// The counters after one datagram: a valid request joins the batch, any
/// other datagram is counted as bad.
pub open spec fn after_datagram(c: (Seq<Seq<u8>>, int, int), d: Seq<u8>) -> (Seq<Seq<u8>>, int, int) {
    match request_nonce(d) {
        Ok(n) => (c.0.push(n), c.1, c.2),
        Err(_) => (c.0, c.1, saturating_inc(c.2)),
    }
}

/// The counters after a batch is answered: one response per pending request.
pub open spec fn after_respond(c: (Seq<Seq<u8>>, int, int)) -> (Seq<Seq<u8>>, int, int) {
    (Seq::empty(), saturating_plus(c.1, c.0.len() as int), c.2)
}

/// The counters after a run of events: `Some(d)` is a datagram read, `None`
/// answers the pending batch (and does nothing when none is pending).
pub open spec fn run_events(c: (Seq<Seq<u8>>, int, int), evs: Seq<Option<Seq<u8>>>) -> (Seq<Seq<u8>>, int, int)
    decreases evs.len(),
{
    if evs.len() == 0 {
        c
    } else {
        let before = run_events(c, evs.drop_last());
        match evs.last() {
            Some(d) => after_datagram(before, d),
            None => if before.0.len() > 0 {
                after_respond(before)
            } else {
                before
            },
        }
    }
}

/// Number of datagrams among `evs` that are valid requests.
pub open spec fn valid_count(evs: Seq<Option<Seq<u8>>>) -> int
    decreases evs.len(),
{
    if evs.len() == 0 {
        0
    } else {
        valid_count(evs.drop_last()) + match evs.last() {
            Some(d) => if request_nonce(d) is Ok { 1int } else { 0int },
            None => 0int,
        }
    }
}

/// Number of datagrams among `evs` that are refused.
pub open spec fn invalid_count(evs: Seq<Option<Seq<u8>>>) -> int
    decreases evs.len(),
{
    if evs.len() == 0 {
        0
    } else {
        invalid_count(evs.drop_last()) + match evs.last() {
            Some(d) => if request_nonce(d) is Err { 1int } else { 0int },
            None => 0int,
        }
    }
}

/// From fresh counters, after any run of `k` valid and `m` invalid
/// datagrams with batches answered in between, the responses produced plus
/// the requests still pending number `k`, and the bad-request count is `m`.
/// Once the last batch is answered, the response count is `k` itself.
pub proof fn lemma_counters_track_stream(evs: Seq<Option<Seq<u8>>>)
    requires
        evs.len() < u64::MAX,
    ensures
        run_events((Seq::empty(), 0, 0), evs).1 + run_events((Seq::empty(), 0, 0), evs).0.len()
            == valid_count(evs),
        run_events((Seq::empty(), 0, 0), evs).2 == invalid_count(evs),
        valid_count(evs) + invalid_count(evs) <= evs.len(),
        valid_count(evs) >= 0,
        invalid_count(evs) >= 0,
    decreases evs.len(),
{
    if evs.len() > 0 {
        let z = (Seq::<Seq<u8>>::empty(), 0int, 0int);
        lemma_counters_track_stream(evs.drop_last());
        let p = run_events(z, evs.drop_last());
        assert(p.1 + p.0.len() == valid_count(evs.drop_last()));
        assert(p.2 == invalid_count(evs.drop_last()));
        match evs.last() {
            Some(d) => {
                assert(run_events(z, evs) == after_datagram(p, d));
            },
            None => {
                if p.0.len() > 0 {
                    assert(run_events(z, evs) == after_respond(p));
                    assert(p.1 >= 0) by {
                        lemma_run_nonneg(evs.drop_last());
                    }
                } else {
                    assert(run_events(z, evs) == p);
                }
            },
        }
    }
}

proof fn lemma_run_nonneg(evs: Seq<Option<Seq<u8>>>)
    ensures
        run_events((Seq::empty(), 0, 0), evs).1 >= 0,
        run_events((Seq::empty(), 0, 0), evs).2 >= 0,
    decreases evs.len(),
{
    if evs.len() > 0 {
        lemma_run_nonneg(evs.drop_last());
    }
}

/// Microseconds since the epoch of a time given as seconds and nanoseconds;
/// times before the epoch give 0 and times past `u64::MAX` give `u64::MAX`.
pub open spec fn spec_timestamp_micros(sec: i64, nsec: i32) -> int {
    let t = sec * 1000000 + nsec / 1000;
    if t < 0 {
        0
    } else if t > u64::MAX {
        u64::MAX as int
    } else {
        t
    }
}

/// The MIDP value for a time given as seconds and nanoseconds since the epoch.
pub fn timestamp_micros(sec: i64, nsec: i32) -> (r: u64)
    requires
        0 <= nsec < 1000000000,
    ensures
        r == spec_timestamp_micros(sec, nsec),
{
    let t: i128 = sec as i128 * 1000000 + (nsec / 1000) as i128;
    if t < 0 {
        0
    } else if t > u64::MAX as i128 {
        u64::MAX
    } else {
        t as u64
    }
}

/// What the event loop does next.
#[derive(Clone, Copy, Debug, PartialEq, Eq, Structural)]
pub enum Step {
    /// Read one more datagram from the socket.
    Receive,
    /// Sign the pending batch and send its responses.
    Respond,
    /// Nothing to do until the socket is readable again.
    Idle,
}

/// The next step: read while the flag allows it, the drain is open and the
/// batch has room; otherwise answer a pending batch; otherwise wait.
pub open spec fn step_of(keep_running: bool, draining: bool, reads: int, batch_size: int, pending: int) -> Step {
    if keep_running && draining && reads < batch_size {
        Step::Receive
    } else if pending > 0 {
        Step::Respond
    } else {
        Step::Idle
    }
}

/// The batching core of a Roughtime server. The caller owns the socket: it
/// reads datagrams, hands them in, and sends the responses that come back,
/// keeping each accepted request's address at the index it was given.
pub struct Server {
    config: ServerConfig,
    long_term_seed: Ghost<Seq<u8>>,
    mint: Ghost<u64>,
    maxt: Ghost<u64>,
    online_key: OnlineKey,
    cert_bytes: Vec<u8>,
    public_key: String,
    response_counter: u64,
    num_bad_requests: u64,
    merkle: MerkleTree,
    requests: Vec<Vec<u8>>,
    reads: u8,
    draining: bool,
    drained: bool,
}

impl Server {
    /// The nonces of the batch being gathered, in arrival order.
    pub closed spec fn pending(&self) -> Seq<Seq<u8>> {
        self.requests@.map_values(|v: Vec<u8>| v@)
    }

    /// The configured batch size.
    pub closed spec fn spec_batch_size(&self) -> int {
        self.config.batch_size as int
    }

    /// The seed of the long-term key.
    pub closed spec fn spec_long_term_seed(&self) -> Seq<u8> {
        self.long_term_seed@
    }

    /// The seed of the online key.
    pub closed spec fn spec_online_seed(&self) -> Seq<u8> {
        self.online_key.seed_seq()
    }

    /// Start of the delegation's validity window.
    pub closed spec fn spec_mint(&self) -> u64 {
        self.mint@
    }

    /// End of the delegation's validity window.
    pub closed spec fn spec_maxt(&self) -> u64 {
        self.maxt@
    }

    /// The certificate sent in every response.
    pub closed spec fn spec_cert(&self) -> Seq<u8> {
        self.cert_bytes@
    }

    /// Responses produced so far.
    pub closed spec fn spec_responses(&self) -> int {
        self.response_counter as int
    }

    /// The pending nonces, the response count and the bad-request count.
    pub open spec fn counters(&self) -> (Seq<Seq<u8>>, int, int) {
        (self.pending(), self.spec_responses(), self.spec_bad_requests())
    }

    /// The configuration the server was built with.
    pub closed spec fn spec_config(&self) -> ServerConfig {
        self.config
    }

    /// Datagrams refused so far.
    pub closed spec fn spec_bad_requests(&self) -> int {
        self.num_bad_requests as int
    }

    /// The long-term public key in hexadecimal.
    pub closed spec fn public_key_text(&self) -> Seq<char> {
        self.public_key@
    }

    /// Datagrams read in the current drain pass.
    pub closed spec fn spec_reads(&self) -> int {
        self.reads as int
    }

    /// Whether the current drain pass may still read.
    pub closed spec fn spec_draining(&self) -> bool {
        self.draining
    }

    /// Whether the socket reported that it has nothing more to read.
    pub closed spec fn spec_drained(&self) -> bool {
        self.drained
    }

    /// The server's internal invariant: one Merkle leaf per pending nonce,
    /// at the same index, and never more than a batch.
    pub closed spec fn wf(&self) -> bool {
        &&& valid_config(self.config)
        &&& self.online_key.wf()
        &&& self.merkle.wf()
        &&& self.merkle.leaf_seq() == leaf_hashes(self.pending())
        &&& self.requests@.len() <= self.config.batch_size
        &&& self.reads <= self.config.batch_size
        &&& self.cert_bytes@.len() == 152
        &&& self.cert_bytes@ == cert_encoding(
            self.long_term_seed@,
            ed25519_public(self.online_key.seed_seq()),
            self.mint@,
            self.maxt@,
        )
        &&& self.requests@.len() <= self.reads
        &&& self.public_key@ == hex_of(ed25519_public(self.long_term_seed@))
        &&& forall|i: int| 0 <= i < self.requests@.len() ==> (#[trigger] self.requests@[i])@.len() == 64
    }

    /// What every well-formed server guarantees: a batch size from 1 to 64
    /// and a 152-byte certificate delegating to its online key.
    pub proof fn lemma_wf_facts(&self)
        requires
            self.wf(),
        ensures
            1 <= self.spec_batch_size() <= 64,
            self.spec_cert().len() == 152,
            self.spec_cert() == cert_encoding(
                self.spec_long_term_seed(),
                ed25519_public(self.spec_online_seed()),
                self.spec_mint(),
                self.spec_maxt(),
            ),
            self.public_key_text() == hex_of(ed25519_public(self.spec_long_term_seed())),
    {
    }

    /// A server for `config` whose long-term key comes from `seed` and whose
    /// online key is `online_key`; its delegation runs from `now_micros` for
    /// `DELEGATION_HORIZON_MICROS`.
    pub fn with_online_key(config: ServerConfig, seed: &[u8], online_key: OnlineKey, now_micros: u64) -> (r: Server)
        requires
            valid_config(config),
            seed@.len() == 32,
            online_key.wf(),
        ensures
            r.wf(),
            r.spec_long_term_seed() == seed@,
            r.spec_online_seed() == online_key.seed_seq(),
            r.spec_cert() == cert_encoding(
                seed@,
                ed25519_public(online_key.seed_seq()),
                now_micros,
                now_micros.saturating_add(DELEGATION_HORIZON_MICROS),
            ),
            r.spec_cert().len() == 152,
            r.spec_mint() == now_micros,
            r.spec_maxt() == now_micros.saturating_add(DELEGATION_HORIZON_MICROS),
            r.spec_batch_size() == config.batch_size,
            r.spec_config() == config,
            r.pending() == Seq::<Seq<u8>>::empty(),
            r.spec_responses() == 0,
            r.spec_bad_requests() == 0,
            !r.spec_draining(),
            r.spec_reads() == 0,
            r.public_key_text() == hex_of(ed25519_public(seed@)),
    {
        let long_term_key = LongTermKey::new(seed);
        let public_key = hex_encode(long_term_key.public_key());
        let cert = long_term_key.make_cert(&online_key, now_micros, now_micros.saturating_add(DELEGATION_HORIZON_MICROS));
        let cert_bytes = cert.encode();
        let batch: usize = config.batch_size as usize;
        let r = Server {
            config,
            long_term_seed: Ghost(seed@),
            mint: Ghost(now_micros),
            maxt: Ghost(now_micros.saturating_add(DELEGATION_HORIZON_MICROS)),
            online_key,
            cert_bytes,
            public_key,
            response_counter: 0,
            num_bad_requests: 0,
            merkle: MerkleTree::new(),
            requests: Vec::with_capacity(batch),
            reads: 0,
            draining: false,
            drained: false,
        };
        assert(r.pending() =~= Seq::<Seq<u8>>::empty());
        assert(leaf_hashes(r.pending()) =~= Seq::<Seq<u8>>::empty());
        r
    }

    /// A server for `config` with a freshly drawn online key.
    pub fn new(config: ServerConfig, seed: &[u8], now_micros: u64) -> (r: Server)
        requires
            valid_config(config),
            seed@.len() == 32,
        ensures
            r.wf(),
            r.spec_long_term_seed() == seed@,
            r.spec_cert() == cert_encoding(
                seed@,
                ed25519_public(r.spec_online_seed()),
                now_micros,
                now_micros.saturating_add(DELEGATION_HORIZON_MICROS),
            ),
            r.spec_cert().len() == 152,
            r.spec_mint() == now_micros,
            r.spec_maxt() == now_micros.saturating_add(DELEGATION_HORIZON_MICROS),
            r.spec_batch_size() == config.batch_size,
            r.spec_config() == config,
            r.pending() == Seq::<Seq<u8>>::empty(),
            r.spec_responses() == 0,
            r.spec_bad_requests() == 0,
            !r.spec_draining(),
            r.spec_reads() == 0,
    {
        let online_key = OnlineKey::new();
        Server::with_online_key(config, seed, online_key, now_micros)
    }

    /// The nonce of a request datagram, the first `num_bytes` of `buf`.
    pub fn nonce_from_request(&self, buf: &[u8], num_bytes: usize) -> (r: Result<Vec<u8>, Error>)
        requires
            num_bytes <= buf@.len(),
        ensures
            match r {
                Ok(n) => request_nonce(buf@.take(num_bytes as int)) == Ok::<Seq<u8>, Error>(n@),
                Err(e) => request_nonce(buf@.take(num_bytes as int)) == Err::<Seq<u8>, Error>(e),
            },
    {
        let ghost d = buf@.take(num_bytes as int);
        if num_bytes < MIN_REQUEST_LENGTH as usize {
            return Err(Error::RequestTooShort);
        }
        let count = le32_bytes(2);
        let nonc = Tag::NONC.wire_value();
        let pad = Tag::PAD.wire_value();
        let nonc_len = le32_bytes(64);
        let tag_count_is_2 = bytes_equal_at(buf, 0, &count);
        let nonc_is_64 = bytes_equal_at(buf, 4, &nonc_len);
        let tag1_is_nonc = bytes_equal_at(buf, 8, &nonc);
        let tag2_is_pad = bytes_equal_at(buf, 12, &pad);
        assert(d.subrange(0, 4) =~= buf@.subrange(0, 4));
        assert(d.subrange(4, 8) =~= buf@.subrange(4, 8));
        assert(d.subrange(8, 12) =~= buf@.subrange(8, 12));
        assert(d.subrange(12, 16) =~= buf@.subrange(12, 16));
        if tag_count_is_2 && nonc_is_64 && tag1_is_nonc && tag2_is_pad {
            let n = copy_slice(buf, 16, 80);
            assert(d.subrange(16, 80) =~= buf@.subrange(16, 80));
            Ok(n)
        } else {
            Err(Error::InvalidRequest)
        }
    }

    /// The response to the request at `idx` of a batch signed by `srep`:
    /// its `SIG` and `SREP` fields, the path, the certificate and the index.
    pub fn make_response(&self, srep: &RtMessage, cert_bytes: &[u8], path: &[u8], idx: u32) -> (r: RtMessage)
        requires
            srep.wf(),
            field_index(srep.tag_seq(), Tag::SIG.value()) is Some,
            field_index(srep.tag_seq(), Tag::SREP.value()) is Some,
            field_value(srep.tag_seq(), srep.value_seq(), Tag::SIG.value()).len() + field_value(
                srep.tag_seq(),
                srep.value_seq(),
                Tag::SREP.value(),
            ).len() + cert_bytes@.len() + path@.len() + 44 <= u32::MAX,
        ensures
            r.wf(),
            r.spec_encoding() == response_encoding(
                field_value(srep.tag_seq(), srep.value_seq(), Tag::SIG.value()),
                path@,
                field_value(srep.tag_seq(), srep.value_seq(), Tag::SREP.value()),
                cert_bytes@,
                idx,
            ),
            r.spec_encoding().len() == 44 + field_value(srep.tag_seq(), srep.value_seq(), Tag::SIG.value()).len()
                + path@.len() + field_value(srep.tag_seq(), srep.value_seq(), Tag::SREP.value()).len()
                + cert_bytes@.len(),
    {
        let index = le32_bytes(idx);
        let sig_bytes = srep.get_field(Tag::SIG).unwrap();
        let srep_bytes = srep.get_field(Tag::SREP).unwrap();
        let mut response = RtMessage::new(5);
        proof { lemma_encoded_len_push(response.value_seq(), sig_bytes@); }
        let r1 = response.add_field(Tag::SIG, sig_bytes);
        assert(r1 is Ok);
        proof { lemma_encoded_len_push(response.value_seq(), path@); }
        let r2 = response.add_field(Tag::PATH, path);
        assert(r2 is Ok);
        proof { lemma_encoded_len_push(response.value_seq(), srep_bytes@); }
        let r3 = response.add_field(Tag::SREP, srep_bytes);
        assert(r3 is Ok);
        proof { lemma_encoded_len_push(response.value_seq(), cert_bytes@); }
        let r4 = response.add_field(Tag::CERT, cert_bytes);
        assert(r4 is Ok);
        proof { lemma_encoded_len_push(response.value_seq(), index@); }
        let r5 = response.add_field(Tag::INDX, index.as_slice());
        assert(r5 is Ok);
        assert(response.tag_seq() =~= seq![
            Tag::SIG.value(),
            Tag::PATH.value(),
            Tag::SREP.value(),
            Tag::CERT.value(),
            Tag::INDX.value(),
        ]);
        assert(response.value_seq() =~= seq![sig_bytes@, path@, srep_bytes@, cert_bytes@, le32(idx)]);
        proof {
            let e = Seq::<Seq<u8>>::empty();
            lemma_value_bytes_push(e, sig_bytes@);
            lemma_value_bytes_push(e.push(sig_bytes@), path@);
            lemma_value_bytes_push(e.push(sig_bytes@).push(path@), srep_bytes@);
            lemma_value_bytes_push(e.push(sig_bytes@).push(path@).push(srep_bytes@), cert_bytes@);
            lemma_value_bytes_push(e.push(sig_bytes@).push(path@).push(srep_bytes@).push(cert_bytes@), le32(idx));
            assert(e.push(sig_bytes@).push(path@).push(srep_bytes@).push(cert_bytes@).push(le32(idx))
                =~= response.value_seq());
            lemma_encoding_len(response.tag_seq(), response.value_seq());
        }
        response
    }

    /// What to do next, given the shutdown flag.
    pub fn next_step(&self, keep_running: bool) -> (r: Step)
        requires
            self.wf(),
        ensures
            r == step_of(
                keep_running,
                self.spec_draining(),
                self.spec_reads(),
                self.spec_batch_size(),
                self.pending().len() as int,
            ),
    {
        if keep_running && self.draining && self.reads < self.config.batch_size {
            Step::Receive
        } else if self.requests.len() > 0 {
            Step::Respond
        } else {
            Step::Idle
        }
    }

    /// The socket became readable: a drain pass begins.
    pub fn begin_drain(&mut self)
        requires
            old(self).wf(),
            old(self).pending().len() == 0,
        ensures
            final(self).wf(),
            final(self).spec_draining(),
            !final(self).spec_drained(),
            final(self).spec_reads() == 0,
            final(self).pending() == old(self).pending(),
            final(self).spec_responses() == old(self).spec_responses(),
            final(self).spec_bad_requests() == old(self).spec_bad_requests(),
            final(self).unchanged_identity(old(self)),
    {
        self.draining = true;
        self.drained = false;
        self.reads = 0;
    }

    /// Keys, certificate and configuration are those of `other`.
    pub open spec fn unchanged_identity(&self, other: &Server) -> bool {
        &&& self.spec_config() == other.spec_config()
        &&& self.spec_batch_size() == other.spec_batch_size()
        &&& self.spec_long_term_seed() == other.spec_long_term_seed()
        &&& self.spec_online_seed() == other.spec_online_seed()
        &&& self.spec_cert() == other.spec_cert()
        &&& self.spec_mint() == other.spec_mint()
        &&& self.spec_maxt() == other.spec_maxt()
        &&& self.public_key_text() == other.public_key_text()
    }

    /// One datagram was read. A valid request joins the batch and its
    /// position is returned; any other datagram is counted as bad.
    pub fn handle_datagram(&mut self, datagram: &[u8]) -> (r: Result<usize, Error>)
        requires
            old(self).wf(),
            old(self).spec_draining(),
            old(self).spec_reads() < old(self).spec_batch_size(),
        ensures
            final(self).wf(),
            final(self).spec_reads() == old(self).spec_reads() + 1,
            final(self).spec_draining() == old(self).spec_draining(),
            final(self).spec_drained() == old(self).spec_drained(),
            final(self).spec_responses() == old(self).spec_responses(),
            final(self).unchanged_identity(old(self)),
            final(self).counters() == after_datagram(old(self).counters(), datagram@),
            match request_nonce(datagram@) {
                Ok(n) => {
                    &&& r == Ok::<usize, Error>(old(self).pending().len() as usize)
                    &&& final(self).pending() == old(self).pending().push(n)
                    &&& final(self).spec_bad_requests() == old(self).spec_bad_requests()
                },
                Err(e) => {
                    &&& r == Err::<usize, Error>(e)
                    &&& final(self).pending() == old(self).pending()
                    &&& final(self).spec_bad_requests() == saturating_inc(old(self).spec_bad_requests())
                },
            },
    {
        self.reads = self.reads + 1;
        assert(datagram@.take(datagram@.len() as int) =~= datagram@);
        match self.nonce_from_request(datagram, datagram.len()) {
            Ok(nonce) => {
                let idx = self.requests.len();
                let ghost before = self.pending();
                self.merkle.push_leaf(nonce.as_slice());
                self.requests.push(nonce);
                proof {
                    assert(self.pending() =~= before.push(nonce@));
                    assert(leaf_hashes(self.pending()) =~= leaf_hashes(before).push(leaf_hash(nonce@)));
                }
                Ok(idx)
            },
            Err(e) => {
                self.num_bad_requests = self.num_bad_requests.saturating_add(1);
                Err(e)
            },
        }
    }

    /// The socket has nothing more to read: the pass ends, and no new pass
    /// begins until it is readable again.
    pub fn handle_would_block(&mut self)
        requires
            old(self).wf(),
        ensures
            final(self).wf(),
            !final(self).spec_draining(),
            final(self).spec_drained(),
            final(self).spec_reads() == old(self).spec_reads(),
            final(self).pending() == old(self).pending(),
            final(self).spec_responses() == old(self).spec_responses(),
            final(self).spec_bad_requests() == old(self).spec_bad_requests(),
            final(self).unchanged_identity(old(self)),
    {
        self.draining = false;
        self.drained = true;
    }

    /// Reading failed for another reason: the pass ends; once its batch is
    /// answered another pass begins.
    pub fn handle_recv_error(&mut self)
        requires
            old(self).wf(),
        ensures
            final(self).wf(),
            !final(self).spec_draining(),
            final(self).spec_drained() == old(self).spec_drained(),
            final(self).spec_reads() == old(self).spec_reads(),
            final(self).pending() == old(self).pending(),
            final(self).spec_responses() == old(self).spec_responses(),
            final(self).spec_bad_requests() == old(self).spec_bad_requests(),
            final(self).unchanged_identity(old(self)),
    {
        self.draining = false;
    }

    /// Answers the pending batch at time `midp` (microseconds since the
    /// epoch): one signature over the Merkle root, then one response per
    /// request, in arrival order. The batch is then cleared and, unless the
    /// socket was drained, a new pass begins.
    pub fn respond(&mut self, midp: u64) -> (r: Vec<Vec<u8>>)
        requires
            old(self).wf(),
            old(self).pending().len() > 0,
        ensures
            final(self).wf(),
            final(self).pending() == Seq::<Seq<u8>>::empty(),
            final(self).spec_reads() == 0,
            final(self).spec_draining() == !old(self).spec_drained(),
            final(self).spec_drained() == old(self).spec_drained(),
            final(self).spec_bad_requests() == old(self).spec_bad_requests(),
            final(self).spec_responses() == saturating_plus(
                old(self).spec_responses(),
                old(self).pending().len() as int,
            ),
            final(self).unchanged_identity(old(self)),
            final(self).counters() == after_respond(old(self).counters()),
            r@.len() == old(self).pending().len(),
            forall|i: int| 0 <= i < r@.len() ==> (#[trigger] r@[i])@.len() < MIN_REQUEST_LENGTH,
            forall|i: int|
                0 <= i < r@.len() ==> (#[trigger] r@[i])@ == batch_response(
                    old(self).spec_online_seed(),
                    midp,
                    old(self).pending(),
                    old(self).spec_cert(),
                    i,
                ),
    {
        let ghost nonces = self.pending();
        let ghost leaves = leaf_hashes(nonces);
        let root = self.merkle.compute_root();
        let srep = self.online_key.make_srep(midp, root.as_slice());
        proof {
            lemma_field_index_at(srep.tag_seq(), 0);
            lemma_field_index_at(srep.tag_seq(), 1);
        }
        let n = self.requests.len();
        let mut out: Vec<Vec<u8>> = Vec::with_capacity(n);
        let mut i: usize = 0;
        while i < n
            invariant
                self.wf(),
                self.merkle.is_built(),
                self.pending() == nonces,
                leaves == leaf_hashes(nonces),
                self.merkle.leaf_seq() == leaves,
                n == nonces.len(),
                n <= 64,
                root@ == root_of(leaves),
                srep.wf(),
                srep.tag_seq() == seq![Tag::SIG.value(), Tag::SREP.value()],
                srep.value_seq() == seq![
                    ed25519_signature(self.spec_online_seed(), response_context() + srep_encoding(midp, root@)),
                    srep_encoding(midp, root@),
                ],
                srep.value_seq()[0].len() == 64,
                srep.value_seq()[1].len() == 68,
                i <= n,
                out@.len() == i,
                forall|j: int| 0 <= j < i ==> (#[trigger] out@[j])@.len() < MIN_REQUEST_LENGTH,
                forall|j: int|
                    0 <= j < i ==> (#[trigger] out@[j])@ == batch_response(
                        self.spec_online_seed(),
                        midp,
                        nonces,
                        self.spec_cert(),
                        j,
                    ),
            decreases n - i,
        {
            let paths = self.merkle.get_paths(i);
            proof {
                lemma_path_len_bound(leaves, i as int);
                lemma_pow2_6();
                lemma_path_len_log(leaves, i as int, 6);
            }
            let resp = self.make_response(&srep, self.cert_bytes.as_slice(), paths.as_slice(), i as u32);
            let bytes = resp.encode();
            out.push(bytes);
            i = i + 1;
        }
        self.merkle.reset();
        self.requests.clear();
        self.response_counter = self.response_counter.saturating_add(n as u64);
        self.reads = 0;
        self.draining = !self.drained;
        proof {
            assert(self.pending() =~= Seq::<Seq<u8>>::empty());
            assert(leaf_hashes(self.pending()) =~= Seq::<Seq<u8>>::empty());
        }
        out
    }

    /// The long-term public key, in hexadecimal.
    pub fn get_public_key(&self) -> (r: &str)
        requires
            self.wf(),
        ensures
            r@ == hex_of(ed25519_public(self.spec_long_term_seed())),
    {
        self.public_key.as_str()
    }

    /// The online (delegated) key.
    pub fn get_online_key(&self) -> (r: &OnlineKey)
        requires
            self.wf(),
        ensures
            r.wf(),
            r.seed_seq() == self.spec_online_seed(),
    {
        &self.online_key
    }

    /// The configuration the server was built with.
    pub fn get_config(&self) -> (r: &ServerConfig)
        ensures
            *r == self.spec_config(),
    {
        &self.config
    }

    /// The certificate sent in every response.
    pub fn cert_bytes(&self) -> (r: &[u8])
        requires
            self.wf(),
        ensures
            r@ == self.spec_cert(),
            r@.len() == 152,
            r@ == cert_encoding(
                self.spec_long_term_seed(),
                ed25519_public(self.spec_online_seed()),
                self.spec_mint(),
                self.spec_maxt(),
            ),
    {
        self.cert_bytes.as_slice()
    }

    /// Responses produced so far.
    pub fn response_counter(&self) -> (r: u64)
        ensures
            r == self.spec_responses(),
    {
        self.response_counter
    }

    /// Datagrams refused so far.
    pub fn num_bad_requests(&self) -> (r: u64)
        ensures
            r == self.spec_bad_requests(),
    {
        self.num_bad_requests
    }

    /// Number of requests in the batch being gathered.
    pub fn pending_len(&self) -> (r: usize)
        ensures
            r == self.pending().len(),
    {
        self.requests.len()
    }
}

} // verus!
