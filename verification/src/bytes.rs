//! Bounds-checked little-endian reads. The offsets these are called with come
//! from the file being read, so every one answers `None` past the end.
use vstd::prelude::*;

verus! {

/// Two bytes at `off`, low byte first.
pub open spec fn le16(b: Seq<u8>, off: int) -> Option<u16> {
    if 0 <= off && off + 2 <= b.len() {
        Some((b[off] + 256 * b[off + 1]) as u16)
    } else {
        None
    }
}

/// Four bytes at `off`, low byte first.
pub open spec fn le32(b: Seq<u8>, off: int) -> Option<u32> {
    if 0 <= off && off + 4 <= b.len() {
        Some((b[off] + 256 * b[off + 1] + 65536 * b[off + 2] + 16777216 * b[off + 3]) as u32)
    } else {
        None
    }
}

/// Eight bytes at `off`, low byte first.
pub open spec fn le64(b: Seq<u8>, off: int) -> Option<u64> {
    match (le32(b, off), le32(b, off + 4)) {
        (Some(lo), Some(hi)) => Some((lo + 4294967296 * hi) as u64),
        _ => None,
    }
}

pub fn u8_at(b: &[u8], off: usize) -> (r: Option<u8>)
    ensures
        r == (if off < b@.len() {
            Some(b@[off as int])
        } else {
            None::<u8>
        }),
{
    if off < b.len() {
        Some(b[off])
    } else {
        None
    }
}

pub fn u16_at(b: &[u8], off: usize) -> (r: Option<u16>)
    ensures
        r == le16(b@, off as int),
{
    if b.len() >= 2 && off <= b.len() - 2 {
        Some(b[off] as u16 + 256 * b[off + 1] as u16)
    } else {
        None
    }
}

pub fn u32_at(b: &[u8], off: usize) -> (r: Option<u32>)
    ensures
        r == le32(b@, off as int),
{
    if b.len() >= 4 && off <= b.len() - 4 {
        Some(
            b[off] as u32 + 256 * b[off + 1] as u32 + 65536 * b[off + 2] as u32 + 16777216 * b[off
                + 3] as u32,
        )
    } else {
        None
    }
}

pub fn u64_at(b: &[u8], off: usize) -> (r: Option<u64>)
    ensures
        r == le64(b@, off as int),
{
    if b.len() >= 8 && off <= b.len() - 8 {
        let lo = u32_at(b, off);
        let hi = u32_at(b, off + 4);
        match (lo, hi) {
            (Some(l), Some(h)) => Some(l as u64 + 4294967296 * h as u64),
            _ => None,
        }
    } else {
        None
    }
}

/// The bytes from `start` to `end`, where all of them exist.
pub open spec fn range(b: Seq<u8>, start: int, end: int) -> Option<Seq<u8>> {
    if 0 <= start <= end <= b.len() {
        Some(b.subrange(start, end))
    } else {
        None
    }
}

pub fn get_range(b: &[u8], start: usize, end: usize) -> (r: Option<&[u8]>)
    ensures
        match r {
            Some(s) => range(b@, start as int, end as int) == Some(s@),
            None => range(b@, start as int, end as int) is None,
        },
{
    if start <= end && end <= b.len() {
        Some(&b[start..end])
    } else {
        None
    }
}

/// A copy of `b`.
pub fn to_vec(b: &[u8]) -> (v: Vec<u8>)
    ensures
        v@ == b@,
{
    let mut v: Vec<u8> = Vec::new();
    let mut i: usize = 0;
    while i < b.len()
        invariant
            i <= b@.len(),
            v@ == b@.take(i as int),
        decreases b@.len() - i,
    {
        v.push(b[i]);
        i += 1;
        assert(v@ =~= b@.take(i as int));
    }
    assert(b@.take(b@.len() as int) =~= b@);
    v
}

/// Whether two runs of bytes are the same.
pub fn same_bytes(a: &[u8], b: &[u8]) -> (r: bool)
    ensures
        r == (a@ == b@),
{
    if a.len() != b.len() {
        return false;
    }
    let mut i: usize = 0;
    while i < a.len()
        invariant
            i <= a@.len(),
            a@.len() == b@.len(),
            forall|k: int| 0 <= k < i ==> a@[k] == b@[k],
        decreases a@.len() - i,
    {
        if a[i] != b[i] {
            return false;
        }
        i += 1;
    }
    assert(a@ =~= b@);
    true
}

/// A number is stored with its lowest byte first, and is there exactly where all of
/// its bytes are.
pub proof fn a_number_is_stored_low_byte_first(b: Seq<u8>, off: int)
    requires
        off >= 0,
    ensures
        le16(b, off) is Some <==> off + 2 <= b.len(),
        le32(b, off) is Some <==> off + 4 <= b.len(),
        le64(b, off) is Some <==> off + 8 <= b.len(),
        le16(b, off) matches Some(n) ==> n % 256 == b[off] && n / 256 == b[off + 1],
        le32(b, off) matches Some(n) ==> n % 65536 == le16(b, off)->Some_0 && n / 65536 == le16(
            b,
            off + 2,
        )->Some_0,
        le64(b, off) matches Some(n) ==> n % 4294967296 == le32(b, off)->Some_0 && n / 4294967296
            == le32(b, off + 4)->Some_0,
{
    if off + 8 <= b.len() {
        let lo = le32(b, off)->Some_0;
        let hi = le32(b, off + 4)->Some_0;
        assert(lo + 4294967296 * hi <= u64::MAX);
    }
}

} // verus!
