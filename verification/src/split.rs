use vstd::prelude::*;

use crate::checksum::crc32_of;
use crate::errors::SplitError;
use crate::metadata::{parts_match, SplitInfo, SplitInfoModel};
use vstd::arithmetic::div_mod::{lemma_div_by_self, lemma_div_is_ordered, lemma_fundamental_div_mod};
use vstd::arithmetic::mul::{lemma_mul_inequality, lemma_mul_is_commutative};

verus! {

/// How a file is to be partitioned.
#[derive(Clone, Copy, Debug, PartialEq, Eq, Structural)]
pub enum SplitOptions {
    /// Split into exactly this many parts; each part gets
    /// `floor(file_size / n)` bytes and the last part absorbs the remainder.
    NumberOfParts(usize),
    /// Split into parts of exactly this many bytes; `floor(file_size / s)`
    /// parts are produced and the last part absorbs the remainder.
    SizeOfParts(usize),
}

/// Whether a file of `fsize` bytes can be partitioned as requested: the
/// request must not be degenerate (zero parts, or an empty file).
pub open spec fn plan_valid(fsize: nat, options: SplitOptions) -> bool {
    match options {
        SplitOptions::NumberOfParts(n) => 1 <= n && 1 <= fsize,
        SplitOptions::SizeOfParts(s) => 1 <= s && s <= fsize,
    }
}

/// The part count `n` and regular part size `s` that a request settles on
/// for a file of `fsize` bytes.
pub open spec fn plan_of(fsize: nat, options: SplitOptions) -> (nat, nat) {
    match options {
        SplitOptions::NumberOfParts(n) => (n as nat, fsize / (n as nat)),
        SplitOptions::SizeOfParts(s) => (fsize / (s as nat), s as nat),
    }
}

/// A settled plan: at least one part, a non-empty file, and all part
/// boundaries within the file.
pub open spec fn plan_ok(fsize: nat, n: nat, s: nat) -> bool {
    &&& 1 <= n
    &&& 1 <= fsize
    &&& s * (n - 1) <= fsize
}

/// Byte range of part `i` under a plan of `n` parts of regular size `s`:
/// part `i` starts at offset `s * i`; the last part runs to the end of the
/// file and so absorbs any remainder.
pub open spec fn fragment(content: Seq<u8>, n: nat, s: nat, i: int) -> Seq<u8> {
    if i == n - 1 {
        content.subrange(s as int * i, content.len() as int)
    } else {
        content.subrange(s as int * i, s as int * (i + 1))
    }
}

/// All `n` parts of `content`, in index order.
pub open spec fn partition(content: Seq<u8>, n: nat, s: nat) -> Seq<Seq<u8>> {
    Seq::new(n, |i: int| fragment(content, n, s, i))
}

/// The views of a vector of byte vectors.
pub open spec fn seq_views(parts: Seq<Vec<u8>>) -> Seq<Seq<u8>> {
    Seq::new(parts.len(), |i: int| parts[i]@)
}

/// A valid request settles on a plan whose part boundaries all lie within
/// the file.
pub proof fn lemma_plan_ok(fsize: nat, options: SplitOptions)
    requires
        plan_valid(fsize, options),
    ensures
        plan_ok(fsize, plan_of(fsize, options).0, plan_of(fsize, options).1),
{
    match options {
        SplitOptions::NumberOfParts(n) => {
            let s = fsize / (n as nat);
            lemma_fundamental_div_mod(fsize as int, n as int);
            lemma_mul_inequality(n as int - 1, n as int, s as int);
        },
        SplitOptions::SizeOfParts(s) => {
            let n = fsize / (s as nat);
            lemma_div_is_ordered(s as int, fsize as int, s as int);
            lemma_div_by_self(s as int);
            lemma_fundamental_div_mod(fsize as int, s as int);
            lemma_mul_inequality(n as int - 1, n as int, s as int);
        },
    }
}

/// The outcome of a split is fully described by the plan: the parts are
/// exactly the partition of the content, and the metadata records the part
/// count, the checksum of the whole content and the checksum of every part.
pub open spec fn splits_into(
    filename: Seq<char>,
    content: Seq<u8>,
    n: nat,
    s: nat,
    parts: Seq<Seq<u8>>,
    m: SplitInfoModel,
) -> bool {
    &&& parts == partition(content, n, s)
    &&& m.filename == filename
    &&& m.number_of_parts == n
    &&& m.hash == crc32_of(content)
    &&& parts_match(parts, m.part_hashes)
    &&& m.wf()
}

/// Copies the byte range `start .. end` of `src` into a fresh vector.
fn copy_range(src: &Vec<u8>, start: usize, end: usize) -> (r: Vec<u8>)
    requires
        start <= end <= src@.len(),
    ensures
        r@ == src@.subrange(start as int, end as int),
{
    let mut r: Vec<u8> = Vec::new();
    let mut i: usize = start;
    while i < end
        invariant
            start <= i <= end <= src@.len(),
            r@ == src@.subrange(start as int, i as int),
        decreases end - i,
    {
        r.push(src[i]);
        assert(r@ =~= src@.subrange(start as int, i + 1 as int));
        i = i + 1;
    }
    r
}

/// Partitions `content` as requested and records the metadata of the split:
/// the checksum of the whole content, and one checksum per part.
///
/// Returns the parts in index order together with the metadata, or
/// `InvalidPartitioning` exactly when the request is degenerate for a file
/// of this size.
pub fn split_content(filename: &str, content: &Vec<u8>, options: &SplitOptions) -> (r: Result<
    (Vec<Vec<u8>>, SplitInfo),
    SplitError,
>)
    ensures
        r is Ok <==> plan_valid(content@.len(), *options),
        r matches Err(e) ==> e == SplitError::InvalidPartitioning,
        r matches Ok(pi) ==> splits_into(
            filename@,
            content@,
            plan_of(content@.len(), *options).0,
            plan_of(content@.len(), *options).1,
            seq_views(pi.0@),
            pi.1@,
        ),
{
    let fsize = content.len();
    let (n, s): (usize, usize) = match options {
        SplitOptions::NumberOfParts(np) => {
            if *np == 0 || fsize == 0 {
                return Err(SplitError::InvalidPartitioning);
            }
            (*np, fsize / *np)
        },
        SplitOptions::SizeOfParts(sp) => {
            if *sp == 0 || *sp > fsize {
                return Err(SplitError::InvalidPartitioning);
            }
            (fsize / *sp, *sp)
        },
    };
    proof {
        lemma_plan_ok(fsize as nat, *options);
        if let SplitOptions::SizeOfParts(sp) = *options {
            lemma_div_is_ordered(sp as int, fsize as int, sp as int);
            lemma_div_by_self(sp as int);
        }
    }
    let whole = crc32fast::hash(content.as_slice());
    let mut parts: Vec<Vec<u8>> = Vec::new();
    let mut hashes: Vec<u32> = Vec::new();
    let mut i: usize = 0;
    while i < n
        invariant
            1 <= n,
            1 <= fsize,
            fsize == content@.len(),
            s as int * (n - 1) <= fsize,
            i <= n,
            parts@.len() == i,
            hashes@.len() == i,
            forall|j: int|
                0 <= j < i ==> parts@[j]@ == #[trigger] fragment(
                    content@,
                    n as nat,
                    s as nat,
                    j,
                ),
            forall|j: int| 0 <= j < i ==> hashes@[j] == crc32_of(#[trigger] parts@[j]@),
        decreases n - i,
    {
        proof {
            lemma_mul_inequality(i as int, n as int - 1, s as int);
            lemma_mul_is_commutative(i as int, s as int);
            lemma_mul_is_commutative(n as int - 1, s as int);
            assert(s as int * (i as int) <= s as int * (n as int - 1));
            if i as int + 1 <= n as int - 1 {
                lemma_mul_inequality(i as int + 1, n as int - 1, s as int);
                lemma_mul_is_commutative(i as int + 1, s as int);
                assert(s as int * (i as int + 1) <= s as int * (n as int - 1));
            }
            lemma_mul_inequality(i as int, i as int + 1, s as int);
            assert(s as int * (i as int) <= s as int * (i as int + 1));
        }
        let start = s * i;
        let end = if i == n - 1 {
            fsize
        } else {
            s * (i + 1)
        };
        let part = copy_range(content, start, end);
        let ph = crc32fast::hash(part.as_slice());
        hashes.push(ph);
        parts.push(part);
        assert(parts@[i as int]@ == fragment(content@, n as nat, s as nat, i as int));
        i = i + 1;
    }
    let info = SplitInfo {
        filename: filename.to_owned(),
        number_of_parts: n,
        hash: whole,
        part_hashes: hashes,
    };
    proof {
        assert(seq_views(parts@) =~= partition(content@, n as nat, s as nat));
    }
    Ok((parts, info))
}

} // verus!
