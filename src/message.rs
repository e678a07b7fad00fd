use vstd::prelude::*;
use crate::bytes::{append_bytes, le32, le32_bytes};
use crate::error::Error;
use crate::tag::Tag;

verus! {

/// Largest number of fields a message may hold.
pub const MAX_FIELDS: usize = 1024;

/// The concatenation of `vals`, in order.
pub open spec fn value_bytes(vals: Seq<Seq<u8>>) -> Seq<u8>
    decreases vals.len(),
{
    if vals.len() == 0 {
        Seq::empty()
    } else {
        value_bytes(vals.drop_last()) + vals.last()
    }
}

/// The little-endian encodings of `xs`, concatenated.
pub open spec fn words_bytes(xs: Seq<u32>) -> Seq<u8>
    decreases xs.len(),
{
    if xs.len() == 0 {
        Seq::empty()
    } else {
        words_bytes(xs.drop_last()) + le32(xs.last())
    }
}

/// The header offsets: for each value but the last, where it ends within
/// the value area.
pub open spec fn offsets(vals: Seq<Seq<u8>>) -> Seq<u32> {
    if vals.len() == 0 {
        Seq::empty()
    } else {
        Seq::new((vals.len() - 1) as nat, |i: int| value_bytes(vals.take(i + 1)).len() as u32)
    }
}

/// The wire form of a message with these tags and values: the field count,
/// the offsets, the tags, then the values.
pub open spec fn encoding(tags: Seq<u32>, vals: Seq<Seq<u8>>) -> Seq<u8> {
    le32(tags.len() as u32) + words_bytes(offsets(vals)) + words_bytes(tags) + value_bytes(vals)
}

/// Tags in strictly ascending order.
pub open spec fn strictly_ascending(tags: Seq<u32>) -> bool {
    forall|i: int, j: int| 0 <= i < j < tags.len() ==> tags[i] < tags[j]
}

/// Length of the wire form of a message with these values.
pub open spec fn encoded_len(vals: Seq<Seq<u8>>) -> int {
    if vals.len() == 0 {
        4
    } else {
        (8 * vals.len() + value_bytes(vals).len()) as int
    }
}

/// The position of `tag` among `tags`, if it is there.
pub open spec fn field_index(tags: Seq<u32>, tag: u32) -> Option<int> {
    if exists|i: int| 0 <= i < tags.len() && tags[i] == tag {
        Some(choose|i: int| 0 <= i < tags.len() && tags[i] == tag)
    } else {
        None
    }
}

/// The value stored under `tag`, for a message that has that field.
pub open spec fn field_value(tags: Seq<u32>, vals: Seq<Seq<u8>>, tag: u32) -> Seq<u8> {
    vals[field_index(tags, tag)->Some_0]
}

/// In strictly ascending tags, the field with tag `tags[i]` is at `i`.
pub proof fn lemma_field_index_at(tags: Seq<u32>, i: int)
    requires
        strictly_ascending(tags),
        0 <= i < tags.len(),
    ensures
        field_index(tags, tags[i]) == Some(i),
{
    assert(0 <= i < tags.len() && tags[i] == tags[i]);
    let j = choose|j: int| 0 <= j < tags.len() && tags[j] == tags[i];
    if j < i {
        assert(tags[j] < tags[i]);
    } else if i < j {
        assert(tags[i] < tags[j]);
    }
}

pub proof fn lemma_value_bytes_push(vals: Seq<Seq<u8>>, v: Seq<u8>)
    ensures
        value_bytes(vals.push(v)) == value_bytes(vals) + v,
{
    assert(vals.push(v).drop_last() =~= vals);
}

pub proof fn lemma_words_bytes_push(xs: Seq<u32>, x: u32)
    ensures
        words_bytes(xs.push(x)) == words_bytes(xs) + le32(x),
{
    assert(xs.push(x).drop_last() =~= xs);
}

pub proof fn lemma_words_bytes_len(xs: Seq<u32>)
    ensures
        words_bytes(xs).len() == 4 * xs.len(),
    decreases xs.len(),
{
    if xs.len() > 0 {
        lemma_words_bytes_len(xs.drop_last());
    }
}

/// Adding a value adds eight header bytes and the value's own length.
pub proof fn lemma_encoded_len_push(vals: Seq<Seq<u8>>, v: Seq<u8>)
    ensures
        encoded_len(vals.push(v)) == 8 * (vals.len() + 1) + value_bytes(vals).len() + v.len(),
        vals.len() > 0 ==> encoded_len(vals) == 8 * vals.len() + value_bytes(vals).len(),
        vals.len() == 0 ==> value_bytes(vals).len() == 0,
{
    lemma_value_bytes_push(vals, v);
}

/// The wire form of a non-empty message is `encoded_len` bytes long.
pub proof fn lemma_encoding_len(tags: Seq<u32>, vals: Seq<Seq<u8>>)
    requires
        tags.len() == vals.len(),
        vals.len() > 0,
    ensures
        encoding(tags, vals).len() == encoded_len(vals),
{
    lemma_words_bytes_len(offsets(vals));
    lemma_words_bytes_len(tags);
}

proof fn lemma_value_bytes_take(vals: Seq<Seq<u8>>, i: int)
    requires
        0 <= i < vals.len(),
    ensures
        value_bytes(vals.take(i + 1)) == value_bytes(vals.take(i)) + vals[i],
{
    assert(vals.take(i + 1) =~= vals.take(i).push(vals[i]));
    lemma_value_bytes_push(vals.take(i), vals[i]);
}

proof fn lemma_value_bytes_take_len(vals: Seq<Seq<u8>>, i: int)
    requires
        0 <= i <= vals.len(),
    ensures
        value_bytes(vals.take(i)).len() <= value_bytes(vals).len(),
    decreases vals.len() - i,
{
    if i == vals.len() {
        assert(vals.take(i) =~= vals);
    } else {
        lemma_value_bytes_take(vals, i);
        lemma_value_bytes_take_len(vals, i + 1);
    }
}

/// The little-endian `u32` at byte `at` of `b`.
pub open spec fn word_at(b: Seq<u8>, at: int) -> int {
    b[at] + 256 * b[at + 1] + 65536 * b[at + 2] + 16777216 * b[at + 3]
}

/// The field count that `b` declares.
pub open spec fn declared_count(b: Seq<u8>) -> int {
    word_at(b, 0)
}

/// Where value `i` of `b` starts within the value area.
pub open spec fn value_start(b: Seq<u8>, i: int) -> int {
    if i == 0 {
        0
    } else {
        word_at(b, 4 * i)
    }
}

/// Where value `i` of `b` ends within the value area: at its offset, or
/// for the last value at the end of the bytes.
pub open spec fn value_end(b: Seq<u8>, i: int) -> int {
    if i == declared_count(b) - 1 {
        b.len() - 8 * declared_count(b)
    } else {
        word_at(b, 4 + 4 * i)
    }
}

/// The tag of field `i` of `b`.
pub open spec fn tag_at(b: Seq<u8>, i: int) -> int {
    word_at(b, 4 * declared_count(b) + 4 * i)
}

/// The bytes of value `i` of `b`.
pub open spec fn value_at(b: Seq<u8>, i: int) -> Seq<u8> {
    let area = 8 * declared_count(b);
    b.subrange(area + value_start(b, i), area + value_end(b, i))
}

/// Value `i` of `b` starts before it ends and ends inside the value area.
pub open spec fn value_in_bounds(b: Seq<u8>, i: int) -> bool {
    value_start(b, i) <= value_end(b, i) <= b.len() - 8 * declared_count(b)
}

/// `b` is a well-formed message: a field count from 1 to `MAX_FIELDS`, a
/// header that fits, offsets that never go back and stay inside the value
/// area, and tags in strictly ascending order.
pub open spec fn well_formed(b: Seq<u8>) -> bool {
    &&& 4 <= b.len() <= u32::MAX
    &&& 1 <= declared_count(b) <= MAX_FIELDS
    &&& 8 * declared_count(b) <= b.len()
    &&& forall|i: int| 0 <= i < declared_count(b) ==> #[trigger] value_in_bounds(b, i)
    &&& forall|i: int| 0 <= i < declared_count(b) - 1 ==> #[trigger] tag_at(b, i) < tag_at(b, i + 1)
}

proof fn lemma_le32_word(v: u32)
    ensures
        word_at(le32(v), 0) == v,
        le32(v).len() == 4,
{
    let x = v as int;
    assert(le32(v)[0] == x % 256);
    assert(le32(v)[1] == (x / 256) % 256);
    assert(le32(v)[2] == (x / 65536) % 256);
    assert(le32(v)[3] == x / 16777216);
}

proof fn lemma_word_at_concat(a: Seq<u8>, c: Seq<u8>, at: int)
    requires
        0 <= at,
        at + 4 <= a.len() + c.len(),
        at + 4 <= a.len() || a.len() <= at,
    ensures
        at + 4 <= a.len() ==> word_at(a + c, at) == word_at(a, at),
        a.len() <= at ==> word_at(a + c, at) == word_at(c, at - a.len()),
{
}

proof fn lemma_words_bytes_word(xs: Seq<u32>, k: int)
    requires
        0 <= k < xs.len(),
    ensures
        word_at(words_bytes(xs), 4 * k) == xs[k],
    decreases xs.len(),
{
    let init = xs.drop_last();
    lemma_words_bytes_len(init);
    lemma_le32_word(xs.last());
    if k < xs.len() - 1 {
        lemma_words_bytes_word(init, k);
        lemma_word_at_concat(words_bytes(init), le32(xs.last()), 4 * k);
    } else {
        lemma_word_at_concat(words_bytes(init), le32(xs.last()), 4 * k);
    }
}

proof fn lemma_value_slice(vals: Seq<Seq<u8>>, i: int)
    requires
        0 <= i < vals.len(),
    ensures
        value_bytes(vals).subrange(
            value_bytes(vals.take(i)).len() as int,
            value_bytes(vals.take(i + 1)).len() as int,
        ) == vals[i],
    decreases vals.len(),
{
    let init = vals.drop_last();
    lemma_value_bytes_take(vals, i);
    if i == vals.len() - 1 {
        assert(vals.take(i) =~= init);
        assert(vals.take(i + 1) =~= vals);
        assert(value_bytes(vals).subrange(value_bytes(init).len() as int, value_bytes(vals).len() as int)
            =~= vals[i]);
    } else {
        assert(vals.take(i) =~= init.take(i));
        assert(vals.take(i + 1) =~= init.take(i + 1));
        lemma_value_slice(init, i);
        lemma_value_bytes_take_len(init, i + 1);
        lemma_value_bytes_take(init, i);
        let s = value_bytes(init.take(i)).len() as int;
        let e = value_bytes(init.take(i + 1)).len() as int;
        assert(value_bytes(vals).subrange(s, e) =~= value_bytes(init).subrange(s, e));
    }
}

/// Decoding gives back what was encoded: the wire form of a well-formed
/// message is well-formed bytes whose tags and values are the message's own.
pub proof fn lemma_decode_encoding(tags: Seq<u32>, vals: Seq<Seq<u8>>)
    requires
        tags.len() == vals.len(),
        1 <= tags.len() <= MAX_FIELDS,
        strictly_ascending(tags),
        encoded_len(vals) <= u32::MAX,
    ensures
        well_formed(encoding(tags, vals)),
        declared_count(encoding(tags, vals)) == tags.len(),
        forall|i: int| 0 <= i < tags.len() ==> tag_at(encoding(tags, vals), i) == tags[i],
        forall|i: int| 0 <= i < tags.len() ==> value_at(encoding(tags, vals), i) == vals[i],
{
    let n = tags.len() as int;
    let offs = offsets(vals);
    let b = encoding(tags, vals);
    let h1 = le32(n as u32);
    let h2 = words_bytes(offs);
    let h3 = words_bytes(tags);
    let vb = value_bytes(vals);
    lemma_le32_word(n as u32);
    lemma_words_bytes_len(offs);
    lemma_words_bytes_len(tags);
    assert(b == h1 + h2 + h3 + vb);
    assert(b.len() == 8 * n + vb.len());
    lemma_word_at_concat(h1, h2 + h3 + vb, 0);
    assert(h1 + h2 + h3 + vb =~= h1 + (h2 + h3 + vb));
    assert(declared_count(b) == n);
    assert forall|i: int| 1 <= i < n implies word_at(b, 4 * i) == value_bytes(#[trigger] vals.take(i)).len() by {
        lemma_words_bytes_word(offs, i - 1);
        lemma_value_bytes_take_len(vals, i);
        assert(b =~= (h1 + h2) + (h3 + vb));
        lemma_word_at_concat(h1 + h2, h3 + vb, 4 * i);
        lemma_word_at_concat(h1, h2, 4 * i);
    }
    assert forall|i: int| 0 <= i < n implies tag_at(b, i) == tags[i] by {
        lemma_words_bytes_word(tags, i);
        assert(b =~= (h1 + h2 + h3) + vb);
        lemma_word_at_concat(h1 + h2 + h3, vb, 4 * n + 4 * i);
        lemma_word_at_concat(h1 + h2, h3, 4 * n + 4 * i);
    }
    assert forall|i: int| 0 <= i < n implies value_start(b, i) == value_bytes(vals.take(i)).len() && value_end(b, i)
        == value_bytes(vals.take(i + 1)).len() by {
        if i == 0 {
            assert(vals.take(0) =~= Seq::<Seq<u8>>::empty());
        } else {
            assert(word_at(b, 4 * i) == value_bytes(vals.take(i)).len());
        }
        if i == n - 1 {
            assert(vals.take(i + 1) =~= vals);
        } else {
            assert(word_at(b, 4 * (i + 1)) == value_bytes(vals.take(i + 1)).len());
        }
    }
    assert forall|i: int| 0 <= i < n implies #[trigger] value_in_bounds(b, i) && value_at(b, i) == vals[i] by {
        lemma_value_bytes_take(vals, i);
        lemma_value_bytes_take_len(vals, i + 1);
        lemma_value_slice(vals, i);
        assert(b =~= (h1 + h2 + h3) + vb);
        let s = value_bytes(vals.take(i)).len() as int;
        let e = value_bytes(vals.take(i + 1)).len() as int;
        assert(b.subrange(8 * n + s, 8 * n + e) =~= vb.subrange(s, e));
    }
    assert forall|i: int| 0 <= i < n implies #[trigger] value_at(b, i) == vals[i] by {
        assert(value_in_bounds(b, i));
    }
}

fn read_word(b: &[u8], at: usize) -> (r: u32)
    requires
        at + 4 <= b@.len(),
    ensures
        r == word_at(b@, at as int),
{
    b[at] as u32 + 256 * (b[at + 1] as u32) + 65536 * (b[at + 2] as u32) + 16777216 * (b[at + 3] as u32)
}

pub(crate) fn copy_slice(b: &[u8], from: usize, to: usize) -> (r: Vec<u8>)
    requires
        from <= to <= b@.len(),
    ensures
        r@ == b@.subrange(from as int, to as int),
{
    let mut r: Vec<u8> = Vec::with_capacity(to - from);
    let mut i: usize = from;
    while i < to
        invariant
            from <= i <= to <= b@.len(),
            r@ == b@.subrange(from as int, i as int),
        decreases to - i,
    {
        r.push(b[i]);
        i = i + 1;
        assert(r@ =~= b@.subrange(from as int, i as int));
    }
    r
}

/// A Roughtime tagged message: fields held in strictly ascending tag order.
pub struct RtMessage {
    tags: Vec<u32>,
    values: Vec<Vec<u8>>,
    value_len: usize,
}

impl RtMessage {
    /// The tags of the fields, in order.
    pub closed spec fn tag_seq(&self) -> Seq<u32> {
        self.tags@
    }

    /// The values of the fields, in order.
    pub closed spec fn value_seq(&self) -> Seq<Seq<u8>> {
        self.values@.map_values(|v: Vec<u8>| v@)
    }

    /// The wire form of this message.
    pub open spec fn spec_encoding(&self) -> Seq<u8> {
        encoding(self.tag_seq(), self.value_seq())
    }

    /// One value per tag, tags strictly ascending, at most `MAX_FIELDS`
    /// fields, and a wire form whose length fits a `u32`.
    pub open spec fn wf(&self) -> bool {
        &&& self.tag_seq().len() == self.value_seq().len()
        &&& self.tag_seq().len() <= MAX_FIELDS
        &&& strictly_ascending(self.tag_seq())
        &&& encoded_len(self.value_seq()) <= u32::MAX
        &&& self.cached_len_ok()
    }

    /// The running total of value bytes agrees with the values.
    pub closed spec fn cached_len_ok(&self) -> bool {
        &&& self.value_len == value_bytes(self.value_seq()).len()
        &&& self.tags@.len() == self.values@.len()
    }

    /// A message with no fields; `num_fields` is the number it is expected to get.
    pub fn new(num_fields: u32) -> (r: RtMessage)
        ensures
            r.wf(),
            r.tag_seq() == Seq::<u32>::empty(),
            r.value_seq() == Seq::<Seq<u8>>::empty(),
    {
        let cap: usize = if num_fields as usize <= MAX_FIELDS { num_fields as usize } else { MAX_FIELDS };
        let r = RtMessage { tags: Vec::with_capacity(cap), values: Vec::new(), value_len: 0 };
        assert(r.value_seq() =~= Seq::<Seq<u8>>::empty());
        r
    }

    /// Number of fields.
    pub fn num_fields(&self) -> (r: u32)
        requires
            self.wf(),
        ensures
            r as int == self.tag_seq().len(),
    {
        proof { self.lemma_wf_inv(); }
        self.tags.len() as u32
    }

    proof fn lemma_wf_inv(&self)
        ensures
            self.wf() ==> self.tags@.len() == self.values@.len(),
    {
        assert(self.value_seq().len() == self.values@.len());
    }

    /// Appends a field. Succeeds exactly when `tag` is above every tag
    /// already present and the message stays within its limits.
    pub fn add_field(&mut self, tag: Tag, value: &[u8]) -> (r: Result<(), Error>)
        requires
            old(self).wf(),
        ensures
            final(self).wf(),
            old(self).tag_seq().len() > 0 && old(self).tag_seq().last() >= tag.value()
                ==> r == Err::<(), Error>(Error::TagNotStrictlyIncreasing),
            !(old(self).tag_seq().len() > 0 && old(self).tag_seq().last() >= tag.value()) && (
            old(self).tag_seq().len() >= MAX_FIELDS || encoded_len(old(self).value_seq().push(value@))
                > u32::MAX) ==> r == Err::<(), Error>(Error::MessageTooLarge),
            r is Ok <==> !(old(self).tag_seq().len() > 0 && old(self).tag_seq().last() >= tag.value())
                && old(self).tag_seq().len() < MAX_FIELDS && encoded_len(
                old(self).value_seq().push(value@),
            ) <= u32::MAX,
            r is Ok ==> final(self).tag_seq() == old(self).tag_seq().push(tag.value())
                && final(self).value_seq() == old(self).value_seq().push(value@),
            r is Err ==> *final(self) == *old(self),
    {
        let n = self.tags.len();
        let t = tag.as_u32();
        if n > 0 && self.tags[n - 1] >= t {
            return Err(Error::TagNotStrictlyIncreasing);
        }
        if n >= MAX_FIELDS {
            return Err(Error::MessageTooLarge);
        }
        proof {
            lemma_value_bytes_push(self.value_seq(), value@);
        }
        let room: u64 = u32::MAX as u64 - 8 * (n as u64 + 1);
        if self.value_len as u64 > room || value.len() as u64 > room - self.value_len as u64 {
            return Err(Error::MessageTooLarge);
        }
        let ghost old_vals = self.value_seq();
        let mut v: Vec<u8> = Vec::new();
        append_bytes(&mut v, value);
        self.tags.push(t);
        self.values.push(v);
        self.value_len = self.value_len + value.len();
        proof {
            assert(self.value_seq() =~= old_vals.push(value@));
            assert forall|i: int, j: int| 0 <= i < j < self.tag_seq().len() implies self.tag_seq()[i]
                < self.tag_seq()[j] by {
                if j < n {
                    assert(old(self).tag_seq()[i] < old(self).tag_seq()[j]);
                } else if i < n - 1 {
                    assert(old(self).tag_seq()[i] < old(self).tag_seq()[n - 1]);
                }
            }
        }
        Ok(())
    }

    /// The value stored under `tag`, if the message has that field.
    pub fn get_field(&self, tag: Tag) -> (r: Option<&[u8]>)
        requires
            self.wf(),
        ensures
            r is None <==> field_index(self.tag_seq(), tag.value()) is None,
            r is Some ==> r->Some_0@ == field_value(self.tag_seq(), self.value_seq(), tag.value()),
    {
        let t = tag.as_u32();
        let mut i: usize = 0;
        while i < self.tags.len()
            invariant
                self.wf(),
                i <= self.tags@.len(),
                t == tag.value(),
                forall|j: int| 0 <= j < i ==> self.tags@[j] != t,
            decreases self.tags@.len() - i,
        {
            if self.tags[i] == t {
                let r = self.values[i].as_slice();
                assert(self.tag_seq()[i as int] == tag.value());
                assert(r@ == self.value_seq()[i as int]);
                proof {
                    lemma_field_index_at(self.tag_seq(), i as int);
                }
                return Some(r);
            }
            i = i + 1;
        }
        None
    }

    /// The wire form of the message.
    pub fn encode(&self) -> (r: Vec<u8>)
        requires
            self.wf(),
        ensures
            r@ == self.spec_encoding(),
            r@.len() == encoded_len(self.value_seq()) || self.tag_seq().len() == 0,
    {
        let n = self.tags.len();
        let ghost vals = self.value_seq();
        let ghost offs = offsets(vals);
        let mut out = le32_bytes(n as u32);
        let mut sum: usize = 0;
        let mut i: usize = 0;
        while i + 1 < n
            invariant
                self.wf(),
                n == self.tags@.len(),
                vals == self.value_seq(),
                offs == offsets(vals),
                i < n || n == 0,
                i == 0 || i < n,
                sum == value_bytes(vals.take(i as int)).len(),
                out@ == le32(n as u32) + words_bytes(offs.take(i as int)),
            decreases n - i,
        {
            proof {
                lemma_value_bytes_take(vals, i as int);
                lemma_value_bytes_take_len(vals, i as int + 1);
            }
            sum = sum + self.values[i].len();
            let w = le32_bytes(sum as u32);
            append_bytes(&mut out, w.as_slice());
            proof {
                assert(offs.take(i as int + 1) =~= offs.take(i as int).push(offs[i as int]));
                lemma_words_bytes_push(offs.take(i as int), offs[i as int]);
            }
            i = i + 1;
        }
        proof {
            assert(offs.take(i as int) =~= offs);
        }
        let ghost head = out@;
        let mut j: usize = 0;
        while j < n
            invariant
                self.wf(),
                n == self.tags@.len(),
                j <= n,
                out@ == head + words_bytes(self.tags@.take(j as int)),
            decreases n - j,
        {
            let w = le32_bytes(self.tags[j]);
            append_bytes(&mut out, w.as_slice());
            proof {
                assert(self.tags@.take(j as int + 1) =~= self.tags@.take(j as int).push(self.tags@[j as int]));
                lemma_words_bytes_push(self.tags@.take(j as int), self.tags@[j as int]);
            }
            j = j + 1;
        }
        proof {
            assert(self.tags@.take(j as int) =~= self.tags@);
        }
        let ghost head2 = out@;
        let mut k: usize = 0;
        while k < n
            invariant
                self.wf(),
                n == self.tags@.len(),
                vals == self.value_seq(),
                k <= n,
                out@ == head2 + value_bytes(vals.take(k as int)),
            decreases n - k,
        {
            append_bytes(&mut out, self.values[k].as_slice());
            proof {
                lemma_value_bytes_take(vals, k as int);
            }
            k = k + 1;
        }
        proof {
            assert(vals.take(k as int) =~= vals);
            assert(out@ =~= self.spec_encoding());
            lemma_words_bytes_len(offs);
            lemma_words_bytes_len(self.tags@);
        }
        out
    }

    /// Parses a message from its wire form. Succeeds exactly on
    /// well-formed bytes, giving their tags and values in order.
    pub fn decode(bytes: &[u8]) -> (r: Result<RtMessage, Error>)
        ensures
            r is Ok <==> well_formed(bytes@),
            r is Err ==> r == Err::<RtMessage, Error>(Error::InvalidMessage),
            r matches Ok(m) ==> {
                &&& m.wf()
                &&& m.tag_seq().len() == declared_count(bytes@)
                &&& forall|i: int| 0 <= i < m.tag_seq().len() ==> m.tag_seq()[i] == tag_at(bytes@, i)
                &&& forall|i: int| 0 <= i < m.tag_seq().len() ==> #[trigger] m.value_seq()[i] == value_at(bytes@, i)
            },
    {
        let len = bytes.len();
        if len < 4 || len > u32::MAX as usize {
            return Err(Error::InvalidMessage);
        }
        let n32 = read_word(bytes, 0);
        if n32 < 1 || n32 as usize > MAX_FIELDS {
            return Err(Error::InvalidMessage);
        }
        let n = n32 as usize;
        if 8 * n > len {
            return Err(Error::InvalidMessage);
        }
        let area = len - 8 * n;
        let mut m = RtMessage::new(n32);
        let mut i: usize = 0;
        let mut start: usize = 0;
        while i < n
            invariant
                bytes@.len() == len,
                4 <= len <= u32::MAX,
                n == declared_count(bytes@),
                1 <= n <= MAX_FIELDS,
                8 * n <= len,
                area == len - 8 * n,
                i <= n,
                m.wf(),
                m.tag_seq().len() == i,
                i > 0 ==> m.tag_seq().last() == tag_at(bytes@, i - 1),
                start == value_start(bytes@, i as int) || i == n,
                start <= area,
                value_bytes(m.value_seq()).len() == start,
                forall|j: int| 0 <= j < i ==> #[trigger] value_in_bounds(bytes@, j),
                forall|j: int| 0 <= j < i - 1 ==> #[trigger] tag_at(bytes@, j) < tag_at(bytes@, j + 1),
                forall|j: int| 0 <= j < i ==> m.tag_seq()[j] == tag_at(bytes@, j),
                forall|j: int| 0 <= j < i ==> #[trigger] m.value_seq()[j] == value_at(bytes@, j),
            decreases n - i,
        {
            let end: usize = if i + 1 == n {
                area
            } else {
                read_word(bytes, 4 + 4 * i) as usize
            };
            if end < start || end > area {
                proof {
                    assert(value_start(bytes@, i as int) == start);
                    assert(value_end(bytes@, i as int) == end);
                    assert(!value_in_bounds(bytes@, i as int));
                }
                return Err(Error::InvalidMessage);
            }
            let tag = read_word(bytes, 4 * n + 4 * i);
            if i > 0 && m.tags[i - 1] >= tag {
                proof {
                    assert(m.tag_seq()[i - 1] == m.tag_seq().last());
                    assert(tag_at(bytes@, i as int) == tag);
                    assert(!(tag_at(bytes@, i - 1) < tag_at(bytes@, (i - 1) + 1)));
                }
                return Err(Error::InvalidMessage);
            }
            proof {
                assert(value_start(bytes@, i as int) == start);
                assert(value_end(bytes@, i as int) == end);
                assert(tag_at(bytes@, i as int) == tag);
                if i > 0 {
                    assert(m.tag_seq()[i - 1] == m.tag_seq().last());
                    assert(tag_at(bytes@, i - 1) < tag_at(bytes@, (i - 1) + 1));
                }
            }
            let value = copy_slice(bytes, 8 * n + start, 8 * n + end);
            let ghost before = m;
            proof {
                lemma_encoded_len_push(m.value_seq(), value@);
            }
            m.add_tag_value(tag, value);
            proof {
                lemma_value_bytes_push(before.value_seq(), value@);
                assert(m.value_seq()[i as int] == value_at(bytes@, i as int));
            }
            let ghost i0 = i as int;
            start = end;
            i = i + 1;
            proof {
                assert(value_in_bounds(bytes@, i0));
            }
        }
        proof {
            assert forall|j: int| 0 <= j < declared_count(bytes@) - 1 implies #[trigger] tag_at(bytes@, j) < tag_at(bytes@, j + 1) by {
                assert(j < i - 1);
            }
        }
        Ok(m)
    }

    /// Appends a field with a raw tag value above every tag present.
    fn add_tag_value(&mut self, tag: u32, value: Vec<u8>)
        requires
            old(self).wf(),
            old(self).tag_seq().len() == 0 || old(self).tag_seq().last() < tag,
            old(self).tag_seq().len() < MAX_FIELDS,
            encoded_len(old(self).value_seq().push(value@)) <= u32::MAX,
        ensures
            final(self).wf(),
            final(self).tag_seq() == old(self).tag_seq().push(tag),
            final(self).value_seq() == old(self).value_seq().push(value@),
    {
        proof {
            lemma_value_bytes_push(self.value_seq(), value@);
        }
        let ghost old_vals = self.value_seq();
        let n = self.tags.len();
        let vlen = value.len();
        self.tags.push(tag);
        self.values.push(value);
        self.value_len = self.value_len + vlen;
        proof {
            assert(self.value_seq() =~= old_vals.push(value@));
            assert forall|i: int, j: int| 0 <= i < j < self.tag_seq().len() implies self.tag_seq()[i]
                < self.tag_seq()[j] by {
                if j < n {
                    assert(old(self).tag_seq()[i] < old(self).tag_seq()[j]);
                } else if i < n - 1 {
                    assert(old(self).tag_seq()[i] < old(self).tag_seq()[n - 1]);
                }
            }
        }
    }
}

} // verus!
