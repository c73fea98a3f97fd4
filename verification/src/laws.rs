use vstd::prelude::*;

use crate::checksum::crc32_of;
use crate::combine::concat_bytes;
use crate::metadata::{parts_match, SplitInfoModel};
use crate::split::{fragment, partition, plan_of, plan_ok, plan_valid, splits_into, SplitOptions};
use vstd::arithmetic::mul::{
    lemma_mul_inequality, lemma_mul_is_commutative, lemma_mul_is_distributive_add,
};

verus! {

/// Concatenating the parts of a prefix of the partition, in index order,
/// reproduces the corresponding prefix of the content.
proof fn lemma_concat_partition_prefix(content: Seq<u8>, n: nat, s: nat, k: int)
    requires
        plan_ok(content.len(), n, s),
        0 <= k <= n - 1,
    ensures
        concat_bytes(partition(content, n, s).take(k)) == content.subrange(0, s as int * k),
    decreases k,
{
    let p = partition(content, n, s);
    lemma_mul_inequality(k, n as int - 1, s as int);
    lemma_mul_is_commutative(k, s as int);
    lemma_mul_is_commutative(n as int - 1, s as int);
    if k == 0 {
        assert(p.take(0) =~= Seq::<Seq<u8>>::empty());
        assert(concat_bytes(p.take(0)) =~= content.subrange(0, 0));
    } else {
        lemma_concat_partition_prefix(content, n, s, k - 1);
        lemma_mul_inequality(k - 1, n as int - 1, s as int);
        lemma_mul_is_commutative(k - 1, s as int);
        assert(p.take(k).drop_last() =~= p.take(k - 1));
        assert(p.take(k).last() == fragment(content, n, s, k - 1));
        lemma_mul_is_distributive_add(s as int, k - 1, 1);
        assert(s as int * k == s as int * (k - 1) + s as int);
        assert(content.subrange(0, s as int * (k - 1)) + content.subrange(
            s as int * (k - 1),
            s as int * k,
        ) =~= content.subrange(0, s as int * k));
    }
}

/// Concatenating all parts of a partition, in index order, reproduces the
/// content byte for byte.
pub proof fn lemma_concat_partition(content: Seq<u8>, n: nat, s: nat)
    requires
        plan_ok(content.len(), n, s),
    ensures
        concat_bytes(partition(content, n, s)) == content,
{
    let p = partition(content, n, s);
    lemma_concat_partition_prefix(content, n, s, n as int - 1);
    assert(p.drop_last() =~= p.take(n as int - 1));
    assert(p.last() == fragment(content, n, s, n as int - 1));
    assert(content.subrange(0, s as int * (n as int - 1)) + content.subrange(
        s as int * (n as int - 1),
        content.len() as int,
    ) =~= content);
}

/// Round trip: for any content and any non-degenerate request, in either
/// mode, the partition that a split settles on concatenates back to the
/// original content byte for byte.
pub proof fn lemma_round_trip(content: Seq<u8>, options: SplitOptions)
    requires
        plan_valid(content.len(), options),
    ensures
        concat_bytes(
            partition(
                content,
                plan_of(content.len(), options).0,
                plan_of(content.len(), options).1,
            ),
        ) == content,
{
    crate::split::lemma_plan_ok(content.len(), options);
    lemma_concat_partition(
        content,
        plan_of(content.len(), options).0,
        plan_of(content.len(), options).1,
    );
}

/// What a split hands out recombines: the recorded part checksums match the
/// parts, the recorded whole-file checksum matches the concatenation of the
/// parts, and that concatenation is the original content. Together with the
/// contract of `combine_parts` this says that recombining the output of a
/// split always succeeds and reproduces the split content.
pub proof fn lemma_split_then_combine(
    filename: Seq<char>,
    content: Seq<u8>,
    options: SplitOptions,
    parts: Seq<Seq<u8>>,
    m: SplitInfoModel,
)
    requires
        plan_valid(content.len(), options),
        splits_into(
            filename,
            content,
            plan_of(content.len(), options).0,
            plan_of(content.len(), options).1,
            parts,
            m,
        ),
    ensures
        parts_match(parts, m.part_hashes),
        concat_bytes(parts) == content,
        crc32_of(concat_bytes(parts)) == m.hash,
{
    lemma_round_trip(content, options);
}

/// Part sizes: a split by size `s` yields exactly `floor(len / s)` parts;
/// every part but the last holds exactly `s` bytes, and the last absorbs the
/// remainder, so it is never smaller than `s` and never a new, extra part.
/// A split into `n` parts behaves the same with `s == floor(len / n)`.
pub proof fn lemma_part_sizes(content: Seq<u8>, options: SplitOptions)
    requires
        plan_valid(content.len(), options),
    ensures
        partition(
            content,
            plan_of(content.len(), options).0,
            plan_of(content.len(), options).1,
        ).len() == plan_of(content.len(), options).0,
        forall|i: int|
            0 <= i < plan_of(content.len(), options).0 - 1 ==> #[trigger] partition(
                content,
                plan_of(content.len(), options).0,
                plan_of(content.len(), options).1,
            )[i].len() == plan_of(content.len(), options).1,
        partition(
            content,
            plan_of(content.len(), options).0,
            plan_of(content.len(), options).1,
        ).last().len() == content.len() - plan_of(content.len(), options).1 * (plan_of(
            content.len(),
            options,
        ).0 - 1),
        options is SizeOfParts ==> partition(
            content,
            plan_of(content.len(), options).0,
            plan_of(content.len(), options).1,
        ).last().len() >= plan_of(content.len(), options).1,
{
    let n = plan_of(content.len(), options).0;
    let s = plan_of(content.len(), options).1;
    crate::split::lemma_plan_ok(content.len(), options);
    let p = partition(content, n, s);
    assert forall|i: int| 0 <= i < n - 1 implies #[trigger] p[i].len() == s by {
        lemma_mul_inequality(i + 1, n as int - 1, s as int);
        lemma_mul_is_commutative(i + 1, s as int);
        lemma_mul_is_commutative(n as int - 1, s as int);
        lemma_mul_is_distributive_add(s as int, i, 1);
    }
    assert(p.last() == fragment(content, n, s, n as int - 1));
    if options is SizeOfParts {
        let fsize = content.len();
        vstd::arithmetic::div_mod::lemma_fundamental_div_mod(fsize as int, s as int);
        lemma_mul_is_distributive_add(s as int, n as int - 1, 1);
        assert(s as int * (n as int) <= fsize) by {
            vstd::arithmetic::div_mod::lemma_remainder_lower(fsize as int, s as int);
        }
    }
}

} // verus!
