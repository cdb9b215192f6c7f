//! Addresses into an append-only log, and their 6-byte big-endian encoding.

use vstd::prelude::*;

verus! {

/// The largest address: 2^48 - 1.
pub const MAX_OFFSET: u64 = 0xffff_ffff_ffff;

/// A 48-bit address local to one log. Zero means "absent"; the record that
/// starts at byte `p` of a log has address `p + 1`.
#[derive(Clone, Copy, Debug, PartialEq, Eq, PartialOrd, Ord, Hash, Structural)]
pub struct Offset {
    pub value: u64,
}

impl DeepView for Offset {
    type V = Offset;

    open spec fn deep_view(&self) -> Offset {
        *self
    }
}

/// The number that six bytes spell, most significant byte first.
pub open spec fn be48(b: Seq<u8>) -> int
    recommends
        b.len() == 6,
{
    ((((b[0] as int * 256 + b[1] as int) * 256 + b[2] as int) * 256 + b[3] as int) * 256
        + b[4] as int) * 256 + b[5] as int
}

/// The six bytes that spell `v`, most significant byte first.
pub open spec fn be48_bytes(v: int) -> Seq<u8> {
    seq![
        (v / 256 / 256 / 256 / 256 / 256 % 256) as u8,
        (v / 256 / 256 / 256 / 256 % 256) as u8,
        (v / 256 / 256 / 256 % 256) as u8,
        (v / 256 / 256 % 256) as u8,
        (v / 256 % 256) as u8,
        (v % 256) as u8,
    ]
}

/// Decoding undoes encoding for every 48-bit number.
pub proof fn lemma_be48_of_bytes(v: int)
    requires
        0 <= v <= MAX_OFFSET,
    ensures
        be48_bytes(v).len() == 6,
        be48(be48_bytes(v)) == v,
{
}

/// Six bytes always spell a 48-bit number, and encoding it gives them back.
pub proof fn lemma_bytes_of_be48(b: Seq<u8>)
    requires
        b.len() == 6,
    ensures
        0 <= be48(b) <= MAX_OFFSET,
        be48_bytes(be48(b)) == b,
{
    assert(be48_bytes(be48(b)) =~= b);
}

impl Offset {
    /// Whether the address fits in 48 bits.
    pub open spec fn valid(self) -> bool {
        self.value <= MAX_OFFSET
    }

    /// The address `value`, if it fits in 48 bits.
    pub fn new(value: u64) -> (r: Option<Offset>)
        ensures
            value <= MAX_OFFSET ==> r == Some(Offset { value }),
            value > MAX_OFFSET ==> r is None,
    {
        if value <= MAX_OFFSET {
            Some(Offset { value })
        } else {
            None
        }
    }

    /// The address that stands for "absent".
    pub fn absent() -> (r: Offset)
        ensures
            r.value == 0,
    {
        Offset { value: 0 }
    }

    pub fn as_u64(self) -> (r: u64)
        ensures
            r == self.value,
    {
        self.value
    }

    /// Decodes the address written in `b`.
    pub fn from_bytes(b: &[u8; 6]) -> (r: Offset)
        ensures
            r.value == be48(b@),
            r.valid(),
    {
        Offset::read(b.as_slice(), 0)
    }

    /// Encodes the address into a buffer of six bytes.
    pub fn to_bytes(self) -> (r: [u8; 6])
        requires
            self.valid(),
        ensures
            r@ == be48_bytes(self.value as int),
    {
        let v = self.value;
        let r: [u8; 6] = [
            (v / 256 / 256 / 256 / 256 / 256 % 256) as u8,
            (v / 256 / 256 / 256 / 256 % 256) as u8,
            (v / 256 / 256 / 256 % 256) as u8,
            (v / 256 / 256 % 256) as u8,
            (v / 256 % 256) as u8,
            (v % 256) as u8,
        ];
        assert(r@ =~= be48_bytes(self.value as int));
        r
    }

    /// Decodes the address written in the six bytes of `bytes` from `pos` on.
    pub fn read(bytes: &[u8], pos: usize) -> (r: Offset)
        requires
            pos + 6 <= bytes@.len(),
        ensures
            r.value == be48(bytes@.subrange(pos as int, pos + 6)),
            r.valid(),
    {
        let b0 = bytes[pos] as u64;
        let b1 = bytes[pos + 1] as u64;
        let b2 = bytes[pos + 2] as u64;
        let b3 = bytes[pos + 3] as u64;
        let b4 = bytes[pos + 4] as u64;
        let b5 = bytes[pos + 5] as u64;
        let value = ((((b0 * 256 + b1) * 256 + b2) * 256 + b3) * 256 + b4) * 256 + b5;
        Offset { value }
    }

    /// Appends the encoded address to `out`.
    pub fn write(self, out: &mut Vec<u8>)
        requires
            self.valid(),
        ensures
            final(out)@ == old(out)@ + be48_bytes(self.value as int),
    {
        let v = self.value;
        out.push((v / 256 / 256 / 256 / 256 / 256 % 256) as u8);
        out.push((v / 256 / 256 / 256 / 256 % 256) as u8);
        out.push((v / 256 / 256 / 256 % 256) as u8);
        out.push((v / 256 / 256 % 256) as u8);
        out.push((v / 256 % 256) as u8);
        out.push((v % 256) as u8);
        assert(out@ =~= old(out)@ + be48_bytes(self.value as int));
    }
}

} // verus!
