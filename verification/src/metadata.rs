use vstd::prelude::*;

use crate::checksum::crc32_of;
use crate::digits::{
    all_digits, decimal_value, lemma_padded_decimal_canonical, lemma_padded_decimal_digits,
    lemma_padded_decimal_len, lemma_padded_decimal_value, lemma_pow10_bounds, padded_decimal,
    parse_padded_decimal, push_char, push_padded_decimal,
};
use crate::errors::CombineError;
use vstd::arithmetic::div_mod::lemma_fundamental_div_mod;
use vstd::string::{StrSliceExecFns, StringExecFns};

verus! {

/// The sidecar metadata recorded by one split operation and consumed,
/// read-only, by one combine operation.
#[derive(Clone, Debug)]
pub struct SplitInfo {
    /// Base name (no directory) of the source file.
    pub filename: String,
    /// Number of part files produced; always at least 1.
    pub number_of_parts: usize,
    /// CRC-32 checksum of the complete original byte sequence.
    pub hash: u32,
    /// CRC-32 checksum of each part, in part index order.
    pub part_hashes: Vec<u32>,
}

/// The mathematical value of a `SplitInfo`.
pub ghost struct SplitInfoModel {
    pub filename: Seq<char>,
    pub number_of_parts: nat,
    pub hash: u32,
    pub part_hashes: Seq<u32>,
}

impl View for SplitInfo {
    type V = SplitInfoModel;

    open spec fn view(&self) -> SplitInfoModel {
        SplitInfoModel {
            filename: self.filename@,
            number_of_parts: self.number_of_parts as nat,
            hash: self.hash,
            part_hashes: self.part_hashes@,
        }
    }
}

impl SplitInfoModel {
    /// The structural invariant of split metadata: there is at least one
    /// part, one recorded checksum per part, and the part count is
    /// representable on the machine.
    pub open spec fn wf(self) -> bool {
        &&& 1 <= self.number_of_parts <= usize::MAX
        &&& self.part_hashes.len() == self.number_of_parts
    }
}

/// The checksums recorded for `parts` are exactly `hashes`, index by index.
pub open spec fn parts_match(parts: Seq<Seq<u8>>, hashes: Seq<u32>) -> bool {
    &&& parts.len() == hashes.len()
    &&& forall|i: int| 0 <= i < parts.len() ==> crc32_of(#[trigger] parts[i]) == hashes[i]
}

/// First line of the metadata document.
pub open spec fn header_magic() -> Seq<char> {
    seq!['p', 'a', 'r', 't', 'i', 'n', 'f', 'o', '\n']
}

/// One line per recorded part checksum: ten zero-padded digits and a newline.
pub open spec fn hash_lines(hashes: Seq<u32>) -> Seq<char>
    decreases hashes.len(),
{
    if hashes.len() == 0 {
        Seq::empty()
    } else {
        hash_lines(hashes.drop_last()) + padded_decimal(hashes.last() as nat, 10).push('\n')
    }
}

/// The metadata document: a magic line, the part count as twenty zero-padded
/// digits, the whole-file checksum as ten zero-padded digits, one line per
/// part checksum, and finally the original file name, which runs to the end
/// of the document and may hold any characters.
pub open spec fn spec_serialize(m: SplitInfoModel) -> Seq<char> {
    header_magic() + padded_decimal(m.number_of_parts, 20).push('\n') + padded_decimal(
        m.hash as nat,
        10,
    ).push('\n') + hash_lines(m.part_hashes) + m.filename
}

/// The part-checksum line `i` of a document is well formed: ten digits that
/// denote a 32-bit value, then a newline.
pub open spec fn entry_ok(s: Seq<char>, i: int) -> bool {
    &&& all_digits(s.subrange(41 + 11 * i, 51 + 11 * i))
    &&& decimal_value(s.subrange(41 + 11 * i, 51 + 11 * i)) <= u32::MAX
    &&& s[51 + 11 * i] == '\n'
}

pub open spec fn entries_ok(s: Seq<char>, c: int) -> bool {
    forall|i: int| 0 <= i < c ==> #[trigger] entry_ok(s, i)
}

/// The unique metadata value that a document denotes, if it is well formed:
/// the denoted part count is positive and representable, every checksum line
/// is well formed, and whatever follows the checksum lines is the file name.
pub open spec fn parse_spec(s: Seq<char>) -> Option<SplitInfoModel> {
    if s.len() < 41 {
        None
    } else if s.subrange(0, 9) != header_magic() {
        None
    } else if !(all_digits(s.subrange(9, 29)) && decimal_value(s.subrange(9, 29)) <= usize::MAX) {
        None
    } else if s[29] != '\n' {
        None
    } else if decimal_value(s.subrange(9, 29)) < 1 {
        None
    } else if !(all_digits(s.subrange(30, 40)) && decimal_value(s.subrange(30, 40)) <= u32::MAX) {
        None
    } else if s[40] != '\n' {
        None
    } else if s.len() < 41 + 11 * decimal_value(s.subrange(9, 29)) {
        None
    } else if !entries_ok(s, decimal_value(s.subrange(9, 29)) as int) {
        None
    } else {
        let c = decimal_value(s.subrange(9, 29));
        Some(
            SplitInfoModel {
                filename: s.subrange(41 + 11 * c as int, s.len() as int),
                number_of_parts: c,
                hash: decimal_value(s.subrange(30, 40)) as u32,
                part_hashes: Seq::new(
                    c,
                    |i: int| decimal_value(s.subrange(41 + 11 * i, 51 + 11 * i)) as u32,
                ),
            },
        )
    }
}

pub proof fn lemma_hash_lines_len(hashes: Seq<u32>)
    ensures
        hash_lines(hashes).len() == 11 * hashes.len(),
    decreases hashes.len(),
{
    if hashes.len() > 0 {
        lemma_hash_lines_len(hashes.drop_last());
        lemma_padded_decimal_len(hashes.last() as nat, 10);
    }
}

/// Within the checksum lines, line `i` holds exactly the ten padded digits
/// of checksum `i` and a closing newline.
pub proof fn lemma_hash_lines_index(hashes: Seq<u32>, i: int)
    requires
        0 <= i < hashes.len(),
    ensures
        hash_lines(hashes).subrange(11 * i, 11 * i + 10) == padded_decimal(
            hashes[i] as nat,
            10,
        ),
        hash_lines(hashes)[11 * i + 10] == '\n',
    decreases hashes.len(),
{
    lemma_hash_lines_len(hashes);
    lemma_hash_lines_len(hashes.drop_last());
    lemma_padded_decimal_len(hashes.last() as nat, 10);
    if i == hashes.len() - 1 {
        assert(hash_lines(hashes).subrange(11 * i, 11 * i + 10) =~= padded_decimal(
            hashes[i] as nat,
            10,
        ));
    } else {
        lemma_hash_lines_index(hashes.drop_last(), i);
        assert(hash_lines(hashes).subrange(11 * i, 11 * i + 10) =~= hash_lines(
            hashes.drop_last(),
        ).subrange(11 * i, 11 * i + 10));
        assert(hash_lines(hashes)[11 * i + 10] == hash_lines(hashes.drop_last())[11 * i + 10]);
    }
}

/// Serializes split metadata as a textual document that `parse_split_info`
/// reads back: well-formed metadata always round-trips, field for field.
pub fn serialize_split_info(info: &SplitInfo) -> (out: String)
    ensures
        out@ == spec_serialize(info@),
        info@.wf() ==> parse_spec(out@) == Some(info@),
{
    proof {
        if info@.wf() {
            lemma_metadata_round_trip(info@);
        }
    }
    let mut out = String::new();
    out.append("partinfo\n");
    proof {
        reveal_strlit("partinfo\n");
        assert(out@ =~= header_magic());
    }
    push_padded_decimal(&mut out, info.number_of_parts as u64, 20);
    push_char(&mut out, '\n');
    push_padded_decimal(&mut out, info.hash as u64, 10);
    push_char(&mut out, '\n');
    let ghost head = out@;
    let mut i: usize = 0;
    assert(head + hash_lines(info@.part_hashes.take(0)) =~= head);
    while i < info.part_hashes.len()
        invariant
            i <= info@.part_hashes.len(),
            out@ == head + hash_lines(info@.part_hashes.take(i as int)),
        decreases info@.part_hashes.len() - i,
    {
        let h = info.part_hashes[i];
        push_padded_decimal(&mut out, h as u64, 10);
        push_char(&mut out, '\n');
        proof {
            let hs = info@.part_hashes;
            assert(hs.take(i as int + 1).drop_last() =~= hs.take(i as int));
            assert(hs.take(i as int + 1).last() == hs[i as int]);
            assert(out@ =~= head + hash_lines(hs.take(i as int + 1)));
        }
        i = i + 1;
    }
    assert(info@.part_hashes.take(info@.part_hashes.len() as int) =~= info@.part_hashes);
    out.append(info.filename.as_str());
    proof {
        assert(out@ =~= spec_serialize(info@));
    }
    out
}

/// Reads a metadata document back into a `SplitInfo`.
///
/// Succeeds exactly on the documents that denote a metadata value, and then
/// returns that value; on any other input it reports `MetadataCorrupt`.
pub fn parse_split_info(s: &str) -> (r: Result<SplitInfo, CombineError>)
    ensures
        r is Ok <==> parse_spec(s@) is Some,
        r matches Ok(info) ==> Some(info@) == parse_spec(s@) && info@.wf(),
        r matches Err(e) ==> e == CombineError::MetadataCorrupt,
{
    let len = s.unicode_len();
    if len < 41 {
        return Err(CombineError::MetadataCorrupt);
    }
    if s.get_char(0) != 'p' || s.get_char(1) != 'a' || s.get_char(2) != 'r' || s.get_char(3) != 't'
        || s.get_char(4) != 'i' || s.get_char(5) != 'n' || s.get_char(6) != 'f' || s.get_char(7)
        != 'o' || s.get_char(8) != '\n' {
        assert(s@.subrange(0, 9) != header_magic()) by {
            assert(forall|k: int| 0 <= k < 9 ==> #[trigger] s@.subrange(0, 9)[k] == s@[k]);
        }
        return Err(CombineError::MetadataCorrupt);
    }
    assert(s@.subrange(0, 9) =~= header_magic());
    let count: usize = match parse_padded_decimal(s, 9, 20, usize::MAX as u64) {
        None => {
            return Err(CombineError::MetadataCorrupt);
        },
        Some(v) => v as usize,
    };
    if s.get_char(29) != '\n' {
        return Err(CombineError::MetadataCorrupt);
    }
    if count == 0 {
        return Err(CombineError::MetadataCorrupt);
    }
    let whole: u32 = match parse_padded_decimal(s, 30, 10, u32::MAX as u64) {
        None => {
            return Err(CombineError::MetadataCorrupt);
        },
        Some(v) => v as u32,
    };
    if s.get_char(40) != '\n' {
        return Err(CombineError::MetadataCorrupt);
    }
    let rem = len - 41;
    if count > rem / 11 {
        proof {
            lemma_fundamental_div_mod(rem as int, 11);
            assert(s@.len() < 41 + 11 * decimal_value(s@.subrange(9, 29)));
        }
        return Err(CombineError::MetadataCorrupt);
    }
    proof {
        lemma_fundamental_div_mod(rem as int, 11);
        assert(11 * (count as int) <= rem as int);
    }
    let base = 41 + 11 * count;
    let ghost expected = SplitInfoModel {
        filename: s@.subrange(41 + 11 * (count as int), s@.len() as int),
        number_of_parts: count as nat,
        hash: (decimal_value(s@.subrange(30, 40)) as u32),
        part_hashes: Seq::new(
            count as nat,
            |i: int| decimal_value(s@.subrange(41 + 11 * i, 51 + 11 * i)) as u32,
        ),
    };
    proof {
        assert(entries_ok(s@, count as int) ==> parse_spec(s@) == Some(expected));
        assert(!entries_ok(s@, count as int) ==> parse_spec(s@) is None);
    }
    let mut hashes: Vec<u32> = Vec::new();
    let mut i: usize = 0;
    while i < count
        invariant
            i <= count,
            hashes@.len() == i,
            len == s@.len(),
            41 + 11 * count <= len,
            whole == expected.hash,
            entries_ok(s@, count as int) ==> parse_spec(s@) == Some(expected),
            !entries_ok(s@, count as int) ==> parse_spec(s@) is None,
            expected.part_hashes == Seq::new(
                count as nat,
                |j: int| decimal_value(s@.subrange(41 + 11 * j, 51 + 11 * j)) as u32,
            ),
            forall|j: int| 0 <= j < i ==> #[trigger] entry_ok(s@, j),
            forall|j: int|
                0 <= j < i ==> #[trigger] hashes@[j] as nat == decimal_value(
                    s@.subrange(41 + 11 * j, 51 + 11 * j),
                ),
        decreases count - i,
    {
        let off = 41 + 11 * i;
        let h: u32 = match parse_padded_decimal(s, off, 10, u32::MAX as u64) {
            None => {
                assert(!entry_ok(s@, i as int));
                return Err(CombineError::MetadataCorrupt);
            },
            Some(v) => v as u32,
        };
        if s.get_char(off + 10) != '\n' {
            assert(!entry_ok(s@, i as int));
            return Err(CombineError::MetadataCorrupt);
        }
        hashes.push(h);
        assert(entry_ok(s@, i as int));
        i = i + 1;
    }
    let name = s.substring_char(base, len);
    let filename = name.to_owned();
    let info = SplitInfo { filename, number_of_parts: count, hash: whole, part_hashes: hashes };
    proof {
        assert(entries_ok(s@, count as int));
        assert(info@.part_hashes =~= expected.part_hashes);
        assert(info@ == expected);
    }
    Ok(info)
}

/// Round trip: serializing any well-formed metadata value and parsing the
/// document back yields the value again, field for field.
pub proof fn lemma_metadata_round_trip(m: SplitInfoModel)
    requires
        m.wf(),
    ensures
        parse_spec(spec_serialize(m)) == Some(m),
{
    let s = spec_serialize(m);
    let c = m.number_of_parts;
    lemma_pow10_bounds();
    lemma_padded_decimal_len(c, 20);
    lemma_padded_decimal_len(m.hash as nat, 10);
    lemma_hash_lines_len(m.part_hashes);
    assert(s.len() == 41 + 11 * c + m.filename.len());
    lemma_padded_decimal_digits(c, 20);
    lemma_padded_decimal_digits(m.hash as nat, 10);
    lemma_padded_decimal_value(c, 20);
    lemma_padded_decimal_value(m.hash as nat, 10);
    assert(s.subrange(0, 9) =~= header_magic());
    assert(s.subrange(9, 29) =~= padded_decimal(c, 20));
    assert(s[29] == '\n');
    assert(s.subrange(30, 40) =~= padded_decimal(m.hash as nat, 10));
    assert(s[40] == '\n');
    assert forall|i: int| 0 <= i < c implies #[trigger] entry_ok(s, i) by {
        lemma_hash_lines_index(m.part_hashes, i);
        lemma_padded_decimal_len(m.part_hashes[i] as nat, 10);
        assert(s.subrange(41 + 11 * i, 51 + 11 * i) =~= hash_lines(m.part_hashes).subrange(
            11 * i,
            11 * i + 10,
        ));
        lemma_padded_decimal_digits(m.part_hashes[i] as nat, 10);
        lemma_padded_decimal_value(m.part_hashes[i] as nat, 10);
        assert(s[51 + 11 * i] == hash_lines(m.part_hashes)[11 * i + 10]);
    }
    assert(entries_ok(s, c as int));
    let parsed = parse_spec(s).unwrap();
    assert(parsed.filename =~= m.filename);
    assert forall|i: int| 0 <= i < c implies #[trigger] parsed.part_hashes[i]
        == m.part_hashes[i] by {
        lemma_hash_lines_index(m.part_hashes, i);
        assert(s.subrange(41 + 11 * i, 51 + 11 * i) =~= hash_lines(m.part_hashes).subrange(
            11 * i,
            11 * i + 10,
        ));
        lemma_padded_decimal_value(m.part_hashes[i] as nat, 10);
    }
    assert(parsed.part_hashes =~= m.part_hashes);
    assert(parse_spec(s) == Some(m));
}

/// The document format is canonical: a document that parses is exactly the
/// serialization of the value it denotes. Together with
/// `lemma_metadata_round_trip` this makes the format a bijection between
/// well-formed metadata values and accepted documents.
pub proof fn lemma_parse_canonical(s: Seq<char>)
    requires
        parse_spec(s) is Some,
    ensures
        spec_serialize(parse_spec(s).unwrap()) == s,
{
    let m = parse_spec(s).unwrap();
    let c = m.number_of_parts as int;
    let ph = m.part_hashes;
    assert(all_digits(s.subrange(9, 29)));
    assert(s.subrange(9, 29).len() == 20);
    lemma_padded_decimal_canonical(s.subrange(9, 29));
    assert(all_digits(s.subrange(30, 40)));
    assert(s.subrange(30, 40).len() == 10);
    lemma_padded_decimal_canonical(s.subrange(30, 40));
    assert(padded_decimal(m.hash as nat, 10) == s.subrange(30, 40));
    lemma_hash_lines_len(ph);
    assert forall|k: int| 0 <= k < 11 * c implies hash_lines(ph)[k] == s[41 + k] by {
        let i = k / 11;
        let r = k % 11;
        lemma_fundamental_div_mod(k, 11);
        assert(0 <= r < 11);
        assert(0 <= i < c);
        assert(entry_ok(s, i));
        lemma_hash_lines_index(ph, i);
        let sub = s.subrange(41 + 11 * i, 51 + 11 * i);
        assert(sub.len() == 10);
        lemma_padded_decimal_canonical(sub);
        assert(ph[i] == decimal_value(sub) as u32);
        assert((decimal_value(sub) as u32) as nat == decimal_value(sub));
        assert(padded_decimal(ph[i] as nat, 10) == sub);
        if r < 10 {
            assert(hash_lines(ph)[k] == hash_lines(ph).subrange(11 * i, 11 * i + 10)[r]);
            assert(sub[r] == s[41 + 11 * i + r]);
        } else {
            assert(hash_lines(ph)[k] == '\n');
            assert(s[51 + 11 * i] == '\n');
        }
    }
    assert(hash_lines(ph) =~= s.subrange(41, 41 + 11 * c));
    lemma_padded_decimal_len(m.number_of_parts, 20);
    lemma_padded_decimal_len(m.hash as nat, 10);
    assert(m.filename == s.subrange(41 + 11 * c, s.len() as int));
    assert(spec_serialize(m) =~= s);
}

} // verus!
