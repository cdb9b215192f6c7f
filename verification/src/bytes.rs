//! Small loops over byte buffers.

use vstd::prelude::*;

verus! {

/// The number that four bytes spell, most significant byte first.
pub open spec fn be32(b: Seq<u8>) -> int
    recommends
        b.len() == 4,
{
    ((b[0] as int * 256 + b[1] as int) * 256 + b[2] as int) * 256 + b[3] as int
}

/// The four bytes that spell `v`, most significant byte first.
pub open spec fn be32_bytes(v: int) -> Seq<u8> {
    seq![
        (v / 256 / 256 / 256 % 256) as u8,
        (v / 256 / 256 % 256) as u8,
        (v / 256 % 256) as u8,
        (v % 256) as u8,
    ]
}

/// Decoding undoes encoding for every 32-bit number.
pub proof fn lemma_be32_of_bytes(v: int)
    requires
        0 <= v <= u32::MAX,
    ensures
        be32_bytes(v).len() == 4,
        be32(be32_bytes(v)) == v,
{
}

/// Four bytes always spell a 32-bit number.
pub proof fn lemma_be32_range(b: Seq<u8>)
    requires
        b.len() == 4,
    ensures
        0 <= be32(b) <= u32::MAX,
{
}

/// Decodes the number written in the four bytes of `bytes` from `pos` on.
pub fn read_u32(bytes: &[u8], pos: usize) -> (r: u32)
    requires
        pos + 4 <= bytes@.len(),
    ensures
        r == be32(bytes@.subrange(pos as int, pos + 4)),
{
    let b0 = bytes[pos] as u32;
    let b1 = bytes[pos + 1] as u32;
    let b2 = bytes[pos + 2] as u32;
    let b3 = bytes[pos + 3] as u32;
    ((b0 * 256 + b1) * 256 + b2) * 256 + b3
}

/// Appends the four bytes that spell `v` to `out`.
pub fn write_u32(v: u32, out: &mut Vec<u8>)
    ensures
        final(out)@ == old(out)@ + be32_bytes(v as int),
{
    out.push((v / 256 / 256 / 256 % 256) as u8);
    out.push((v / 256 / 256 % 256) as u8);
    out.push((v / 256 % 256) as u8);
    out.push((v % 256) as u8);
    assert(out@ =~= old(out)@ + be32_bytes(v as int));
}

/// Appends every byte of `src` to `out`.
pub fn push_all(out: &mut Vec<u8>, src: &[u8])
    ensures
        final(out)@ == old(out)@ + src@,
{
    let mut i: usize = 0;
    while i < src.len()
        invariant
            i <= src@.len(),
            out@ == old(out)@ + src@.subrange(0, i as int),
        decreases src@.len() - i,
    {
        out.push(src[i]);
        i += 1;
    }
    assert(src@.subrange(0, i as int) =~= src@);
}

/// A copy of the bytes of `src` from `from` up to `to`.
pub fn copy_range(src: &[u8], from: usize, to: usize) -> (r: Vec<u8>)
    requires
        from <= to <= src@.len(),
    ensures
        r@ == src@.subrange(from as int, to as int),
{
    let mut r: Vec<u8> = Vec::new();
    let mut i: usize = from;
    while i < to
        invariant
            from <= i <= to <= src@.len(),
            r@ == src@.subrange(from as int, i as int),
        decreases to - i,
    {
        r.push(src[i]);
        i += 1;
    }
    r
}

/// Whether two buffers hold the same bytes.
pub fn bytes_eq(a: &[u8], b: &[u8]) -> (r: bool)
    ensures
        r == (a@ == b@),
{
    if a.len() != b.len() {
        return false;
    }
    let mut i: usize = 0;
    while i < a.len()
        invariant
            i <= a@.len(),
            a@.len() == b@.len(),
            a@.subrange(0, i as int) == b@.subrange(0, i as int),
        decreases a@.len() - i,
    {
        if a[i] != b[i] {
            return false;
        }
        assert(a@.subrange(0, i + 1) =~= a@.subrange(0, i as int).push(a@[i as int]));
        assert(b@.subrange(0, i + 1) =~= b@.subrange(0, i as int).push(b@[i as int]));
        i += 1;
    }
    assert(a@.subrange(0, i as int) =~= a@);
    assert(b@.subrange(0, i as int) =~= b@);
    true
}

/// The deep view of a byte vector is its view.
pub proof fn lemma_bytes_view(v: Vec<u8>)
    ensures
        v.deep_view() == v@,
{
    assert(v.deep_view() =~= v@);
}

/// Pushing a key onto a list of keys pushes its bytes onto the list's view.
pub proof fn lemma_keys_push(before: Vec<Vec<u8>>, after: Vec<Vec<u8>>, key: Vec<u8>)
    requires
        after@ == before@.push(key),
    ensures
        after.deep_view() == before.deep_view().push(key@),
{
    lemma_bytes_view(key);
    assert(after.deep_view() =~= before.deep_view().push(key@));
}

/// A list of keys without keys has the empty view.
pub proof fn lemma_keys_empty(keys: Vec<Vec<u8>>)
    requires
        keys@.len() == 0,
    ensures
        keys.deep_view() == Seq::<Seq<u8>>::empty(),
{
    assert(keys.deep_view() =~= Seq::<Seq<u8>>::empty());
}

/// Whether `key` is one of `keys`.
pub fn contains_key(keys: &Vec<Vec<u8>>, key: &[u8]) -> (r: bool)
    ensures
        r == keys.deep_view().contains(key@),
{
    let mut i: usize = 0;
    while i < keys.len()
        invariant
            i <= keys@.len(),
            forall|j: int| 0 <= j < i ==> keys.deep_view()[j] != key@,
        decreases keys@.len() - i,
    {
        assert(keys.deep_view()[i as int] == keys@[i as int]@);
        if bytes_eq(keys[i].as_slice(), key) {
            return true;
        }
        i += 1;
    }
    false
}

} // verus!
