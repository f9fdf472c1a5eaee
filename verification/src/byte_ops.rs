//! Byte-sequence models shared by the file abstraction, the buffer pool and
//! the log: all-zero runs, in-place range overwrites, and the resize/extend
//! behaviour of a block file.

use vstd::prelude::*;

verus! {

/// A run of `n` zero bytes.
pub open spec fn zeros(n: nat) -> Seq<u8> {
    Seq::new(n, |i: int| 0u8)
}

/// `s` with the range `[off, off + img.len())` replaced by `img`; bytes
/// outside that range, and the length, are unchanged.
pub open spec fn overwrite(s: Seq<u8>, off: int, img: Seq<u8>) -> Seq<u8>
    recommends
        0 <= off,
        off + img.len() <= s.len(),
{
    Seq::new(s.len(), |i: int| if off <= i < off + img.len() { img[i - off] } else { s[i] })
}

/// `s` truncated or zero-extended to length `n`.
pub open spec fn resize_bytes(s: Seq<u8>, n: nat) -> Seq<u8> {
    if n <= s.len() {
        s.subrange(0, n as int)
    } else {
        s + zeros((n - s.len()) as nat)
    }
}

/// The contents of a block file after writing `block` at `off`: the file is
/// zero-extended to `off + block.len()` when the write reaches past its end,
/// then the range `[off, off + block.len())` is replaced by `block`.
pub open spec fn write_block_bytes(s: Seq<u8>, block: Seq<u8>, off: int) -> Seq<u8>
    recommends
        0 <= off,
{
    if off + block.len() <= s.len() {
        overwrite(s, off, block)
    } else {
        overwrite(resize_bytes(s, (off + block.len()) as nat), off, block)
    }
}

/// Copies `src` into `dst` at `offset`, leaving the rest of `dst` unchanged.
pub fn copy_bytes_at(dst: &mut Vec<u8>, offset: usize, src: &[u8])
    requires
        offset + src@.len() <= old(dst)@.len(),
    ensures
        final(dst)@ == overwrite(old(dst)@, offset as int, src@),
{
    let dst_len = dst.len();
    let mut i: usize = 0;
    while i < src.len()
        invariant
            i <= src@.len(),
            offset + src@.len() <= dst_len,
            dst@.len() == dst_len,
            dst@.len() == old(dst)@.len(),
            forall|j: int| 0 <= j < i ==> dst@[offset + j] == src@[j],
            forall|j: int|
                0 <= j < dst@.len() && !(offset <= j < offset + i) ==> dst@[j] == old(dst)@[j],
        decreases src@.len() - i,
    {
        let b = src[i];
        dst.set(offset + i, b);
        i = i + 1;
    }
    assert(dst@ =~= overwrite(old(dst)@, offset as int, src@));
}

} // verus!
