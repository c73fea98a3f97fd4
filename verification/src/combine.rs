use vstd::prelude::*;

use crate::checksum::crc32_of;
use crate::errors::CombineError;
use crate::metadata::{parts_match, SplitInfo};
use crate::split::seq_views;

verus! {

/// The concatenation of a sequence of byte sequences, in index order.
pub open spec fn concat_bytes(parts: Seq<Seq<u8>>) -> Seq<u8>
    decreases parts.len(),
{
    if parts.len() == 0 {
        Seq::empty()
    } else {
        concat_bytes(parts.drop_last()) + parts.last()
    }
}

/// Part `i` is the first one whose checksum disagrees with the recorded one.
pub open spec fn mismatch_at(parts: Seq<Seq<u8>>, hashes: Seq<u32>, i: int) -> bool {
    &&& 0 <= i < parts.len()
    &&& crc32_of(parts[i]) != hashes[i]
    &&& forall|j: int| 0 <= j < i ==> crc32_of(#[trigger] parts[j]) == hashes[j]
}

/// Appends all bytes of `src` to `out`.
fn append_bytes(out: &mut Vec<u8>, src: &Vec<u8>)
    ensures
        final(out)@ == old(out)@ + src@,
{
    assert(old(out)@ + src@.subrange(0, 0) =~= old(out)@);
    let mut i: usize = 0;
    while i < src.len()
        invariant
            i <= src@.len(),
            out@ == old(out)@ + src@.subrange(0, i as int),
        decreases src@.len() - i,
    {
        out.push(src[i]);
        assert(out@ =~= old(out)@ + src@.subrange(0, i + 1 as int));
        i = i + 1;
    }
    assert(src@.subrange(0, src@.len() as int) =~= src@);
}

/// Verifies every part against its recorded checksum, concatenates the parts
/// in index order, and verifies the whole against the recorded checksum of
/// the original file.
///
/// Returns the reconstructed byte sequence exactly when every checksum
/// matches; otherwise reports the first failing part, or the whole file, and
/// returns no bytes at all.
pub fn combine_parts(parts: &Vec<Vec<u8>>, info: &SplitInfo) -> (r: Result<Vec<u8>, CombineError>)
    requires
        info@.wf(),
        parts@.len() == info@.number_of_parts,
    ensures
        r is Ok <==> (parts_match(seq_views(parts@), info@.part_hashes) && crc32_of(
            concat_bytes(seq_views(parts@)),
        ) == info@.hash),
        r matches Ok(c) ==> c@ == concat_bytes(seq_views(parts@)),
        r matches Err(e) ==> (match e {
            CombineError::PartChecksumMismatch(i) => mismatch_at(
                seq_views(parts@),
                info@.part_hashes,
                i as int,
            ),
            CombineError::WholeFileChecksumMismatch => parts_match(
                seq_views(parts@),
                info@.part_hashes,
            ) && crc32_of(concat_bytes(seq_views(parts@))) != info@.hash,
            _ => false,
        }),
{
    let n = parts.len();
    let mut out: Vec<u8> = Vec::new();
    let mut i: usize = 0;
    assert(out@ =~= concat_bytes(seq_views(parts@).take(0)));
    while i < n
        invariant
            n == parts@.len(),
            parts@.len() == info@.part_hashes.len(),
            i <= n,
            out@ == concat_bytes(seq_views(parts@).take(i as int)),
            forall|j: int|
                0 <= j < i ==> crc32_of(#[trigger] seq_views(parts@)[j]) == info@.part_hashes[j],
        decreases n - i,
    {
        let p = &parts[i];
        let h = crc32fast::hash(p.as_slice());
        assert(seq_views(parts@)[i as int] == parts@[i as int]@);
        if h != info.part_hashes[i] {
            return Err(CombineError::PartChecksumMismatch(i));
        }
        append_bytes(&mut out, p);
        proof {
            let pv = seq_views(parts@);
            assert(pv.take(i as int + 1).drop_last() =~= pv.take(i as int));
            assert(pv.take(i as int + 1).last() == pv[i as int]);
        }
        i = i + 1;
    }
    assert(seq_views(parts@).take(n as int) =~= seq_views(parts@));
    let whole = crc32fast::hash(out.as_slice());
    if whole != info.hash {
        return Err(CombineError::WholeFileChecksumMismatch);
    }
    Ok(out)
}

} // verus!
