//! The short name of a type.
use crate::text::{
    find_bytes, first_occurrence, law_first_occurrence, lemma_boundary_after_ascii, slice,
};
use vstd::prelude::*;
use vstd::string::*;
use vstd::utf8::*;

verus! {

/// Two colons, which separate the parts of a path.
pub open spec fn separator() -> Seq<u8> {
    seq![0x3a, 0x3a]
}

/// Where the last part of a path starts.
pub open spec fn last_part_start(path: Seq<u8>, from: int) -> int
    decreases path.len() - from,
{
    match first_occurrence(path, separator(), from) {
        Some(i) => if from <= i && i + 2 <= path.len() {
            last_part_start(path, i + 2)
        } else {
            from
        },
        None => from,
    }
}

/// The last part of a path.
pub open spec fn is_last_part(part: Seq<char>, path: Seq<char>) -> bool {
    let bytes = encode_utf8(path);
    encode_utf8(part) == bytes.skip(last_part_start(bytes, 0))
}

/// The name of a type without the path that leads to it: the last part of a path
/// whose parts are separated by two colons.
pub fn short_name<'a>(path: &'a str) -> (part: &'a str)
    ensures
        is_last_part(part@, path@),
{
    let bytes = path.as_bytes();
    let separator: Vec<u8> = vec![0x3a, 0x3a];
    assert(separator@ =~= self::separator());
    let mut from: usize = 0;
    let len: usize = bytes.len();
    proof {
        encode_utf8_valid_utf8(path@);
        is_char_boundary_start_end_of_seq(path.spec_bytes());
    }
    loop
        invariant_except_break
            last_part_start(bytes@, 0) == last_part_start(bytes@, from as int),
        invariant
            bytes@ == path.spec_bytes(),
            valid_utf8(bytes@),
            len == bytes@.len(),
            separator@ == self::separator(),
            from <= len,
            is_char_boundary(bytes@, from as int),
        ensures
            last_part_start(bytes@, 0) == from,
        decreases len - from,
    {
        match find_bytes(bytes, separator.as_slice(), from) {
            Some(i) => {
                proof {
                    assert(bytes@.subrange(i as int, i + 2)[1] == 0x3a);
                    assert(bytes@[i + 1] == 0x3a);
                    lemma_boundary_after_ascii(bytes@, i + 1);
                }
                from = i + 2;
            },
            None => {
                break;
            },
        }
    }
    proof {
        is_char_boundary_start_end_of_seq(path.spec_bytes());
        assert(bytes@.subrange(from as int, len as int) =~= bytes@.skip(from as int));
    }
    slice(path, from, len)
}

/// The last part of a path is what follows its last pair of colons: no pair of colons is
/// left in it, and it is the whole path or follows one.
pub proof fn law_last_part(path: Seq<u8>)
    ensures
        ({
            let start = last_part_start(path, 0);
            &&& 0 <= start <= path.len()
            &&& start == 0 || (start >= 2 && path[start - 2] == 0x3a && path[start - 1] == 0x3a)
            &&& forall|i: int|
                start <= i < path.len() - 1 ==> #[trigger] path[i] != 0x3a || path[i + 1] != 0x3a
        }),
{
    lemma_last_part_from(path, 0);
}

proof fn lemma_last_part_from(path: Seq<u8>, from: int)
    requires
        0 <= from <= path.len(),
    ensures
        ({
            let start = last_part_start(path, from);
            &&& from <= start <= path.len()
            &&& start == from || (start >= 2 && path[start - 2] == 0x3a && path[start - 1] == 0x3a)
            &&& forall|i: int|
                start <= i < path.len() - 1 ==> #[trigger] path[i] != 0x3a || path[i + 1] != 0x3a
        }),
    decreases path.len() - from,
{
    law_first_occurrence(path, separator(), from);
    match first_occurrence(path, separator(), from) {
        Some(at) => {
            let pair = path.subrange(at, at + 2);
            assert(pair == separator());
            assert(pair[0] == path[at] && pair[1] == path[at + 1]);
            lemma_last_part_from(path, at + 2);
        },
        None => {
            assert forall|i: int| from <= i < path.len() - 1 implies #[trigger] path[i] != 0x3a
                || path[i + 1] != 0x3a by {
                if path[i] == 0x3a && path[i + 1] == 0x3a {
                    assert(path.subrange(i, i + separator().len()) =~= separator());
                }
            }
        },
    }
}

} // verus!
