use vstd::prelude::*;

use crate::digits::{decimal, push_char, push_decimal};
use vstd::string::{StrSliceExecFns, StringExecFns};

verus! {

/// The index of the last occurrence of `c` in `s`, or -1 if there is none.
pub open spec fn last_index_of(s: Seq<char>, c: char) -> int
    decreases s.len(),
{
    if s.len() == 0 {
        -1
    } else if s.last() == c {
        s.len() - 1
    } else {
        last_index_of(s.drop_last(), c)
    }
}

/// What follows the last path separator: the file's own name. The whole
/// path when it holds no separator; empty when it ends in one.
pub open spec fn base_name_spec(s: Seq<char>) -> Seq<char> {
    s.subrange(last_index_of(s, '/') + 1, s.len() as int)
}

/// The name with its trailing extension stripped: what precedes the last
/// dot. The whole name when it holds no dot, or when its only dot is the
/// leading character.
pub open spec fn file_stem_spec(s: Seq<char>) -> Seq<char> {
    let d = last_index_of(s, '.');
    if d <= 0 {
        s
    } else {
        s.take(d)
    }
}

/// Name of part file `index` of the file at `path`.
pub open spec fn part_file_name_spec(path: Seq<char>, index: nat) -> Seq<char> {
    path + seq!['.'] + decimal(index) + seq!['.', 'p', 'a', 'r', 't']
}

/// Name of the metadata file of the file at `path`.
pub open spec fn info_file_name_spec(path: Seq<char>) -> Seq<char> {
    path + seq!['.', 'p', 'a', 'r', 't', 'i', 'n', 'f', 'o']
}

proof fn lemma_last_index_found(s: Seq<char>, c: char, j: int)
    requires
        0 <= j < s.len(),
        s[j] == c,
        forall|k: int| j < k < s.len() ==> s[k] != c,
    ensures
        last_index_of(s, c) == j,
    decreases s.len(),
{
    if j < s.len() - 1 {
        assert(s.drop_last() =~= s.subrange(0, s.len() - 1));
        lemma_last_index_found(s.drop_last(), c, j);
    }
}

proof fn lemma_last_index_none(s: Seq<char>, c: char)
    requires
        forall|k: int| 0 <= k < s.len() ==> s[k] != c,
    ensures
        last_index_of(s, c) == -1,
    decreases s.len(),
{
    if s.len() > 0 {
        lemma_last_index_none(s.drop_last(), c);
    }
}

/// The index of the last occurrence of `c` in `s`, if any.
fn find_last(s: &str, c: char) -> (r: Option<usize>)
    ensures
        r matches Some(j) ==> 0 <= j < s@.len() && s@[j as int] == c && last_index_of(s@, c) == j,
        r is None ==> last_index_of(s@, c) == -1,
{
    let len = s.unicode_len();
    let mut i: usize = len;
    while i > 0
        invariant
            i <= len,
            len == s@.len(),
            forall|k: int| i <= k < s@.len() ==> s@[k] != c,
        decreases i,
    {
        let ch = s.get_char(i - 1);
        if ch == c {
            proof {
                lemma_last_index_found(s@, c, i - 1);
            }
            return Some(i - 1);
        }
        i = i - 1;
    }
    proof {
        lemma_last_index_none(s@, c);
    }
    None
}

/// The file's own name within `path`: what follows the last separator.
pub fn base_name(path: &str) -> (r: String)
    ensures
        r@ == base_name_spec(path@),
{
    let len = path.unicode_len();
    match find_last(path, '/') {
        Some(j) => {
            let tail = path.substring_char(j + 1, len);
            tail.to_owned()
        },
        None => {
            assert(path@.subrange(0, path@.len() as int) =~= path@);
            path.to_owned()
        },
    }
}

/// `name` with its trailing extension stripped.
pub fn file_stem(name: &str) -> (r: String)
    ensures
        r@ == file_stem_spec(name@),
{
    match find_last(name, '.') {
        Some(j) => {
            if j > 0 {
                let head = name.substring_char(0, j);
                head.to_owned()
            } else {
                name.to_owned()
            }
        },
        None => name.to_owned(),
    }
}

/// The name under which part `index` of the file at `path` is stored.
pub fn part_file_name(path: &str, index: usize) -> (r: String)
    ensures
        r@ == part_file_name_spec(path@, index as nat),
{
    let mut out = path.to_owned();
    push_char(&mut out, '.');
    push_decimal(&mut out, index as u64);
    out.append(".part");
    proof {
        reveal_strlit(".part");
        assert(out@ =~= part_file_name_spec(path@, index as nat));
    }
    out
}

/// The name under which the metadata of the file at `path` is stored.
pub fn info_file_name(path: &str) -> (r: String)
    ensures
        r@ == info_file_name_spec(path@),
{
    let mut out = path.to_owned();
    out.append(".partinfo");
    proof {
        reveal_strlit(".partinfo");
        assert(out@ =~= info_file_name_spec(path@));
    }
    out
}

} // verus!
