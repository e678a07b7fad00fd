use vstd::prelude::*;

verus! {

/// The tags of a Roughtime message used by the server.
#[allow(non_camel_case_types)]
#[derive(Clone, Copy, Debug, PartialEq, Eq, Structural)]
pub enum Tag {
    SIG,
    NONC,
    DELE,
    PATH,
    RADI,
    PUBK,
    MIDP,
    SREP,
    MINT,
    ROOT,
    CERT,
    MAXT,
    INDX,
    PAD,
}

impl Tag {
    /// The tag's four ASCII bytes read as a little-endian `u32`; messages
    /// order their tags by this value.
    pub open spec fn value(self) -> u32 {
        match self {
            Tag::SIG => 0x00474953,
            Tag::NONC => 0x434e4f4e,
            Tag::DELE => 0x454c4544,
            Tag::PATH => 0x48544150,
            Tag::RADI => 0x49444152,
            Tag::PUBK => 0x4b425550,
            Tag::MIDP => 0x5044494d,
            Tag::SREP => 0x50455253,
            Tag::MINT => 0x544e494d,
            Tag::ROOT => 0x544f4f52,
            Tag::CERT => 0x54524543,
            Tag::MAXT => 0x5458414d,
            Tag::INDX => 0x58444e49,
            Tag::PAD => 0xff444150,
        }
    }

    /// The tag as a little-endian `u32`.
    pub fn as_u32(&self) -> (r: u32)
        ensures
            r == self.value(),
    {
        match self {
            Tag::SIG => 0x00474953,
            Tag::NONC => 0x434e4f4e,
            Tag::DELE => 0x454c4544,
            Tag::PATH => 0x48544150,
            Tag::RADI => 0x49444152,
            Tag::PUBK => 0x4b425550,
            Tag::MIDP => 0x5044494d,
            Tag::SREP => 0x50455253,
            Tag::MINT => 0x544e494d,
            Tag::ROOT => 0x544f4f52,
            Tag::CERT => 0x54524543,
            Tag::MAXT => 0x5458414d,
            Tag::INDX => 0x58444e49,
            Tag::PAD => 0xff444150,
        }
    }

    /// The tag's four bytes as they stand on the wire.
    pub fn wire_value(&self) -> (r: Vec<u8>)
        ensures
            r@ == crate::bytes::le32(self.value()),
    {
        crate::bytes::le32_bytes(self.as_u32())
    }
}

} // verus!
