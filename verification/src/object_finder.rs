//! Where a loose object lies on disk.

use vstd::prelude::*;
use crate::objectid::{is_object_id, is_valid_object_id};
use crate::text::{from_chars, push_char, to_chars};

verus! {

/// The directory of loose objects, with a slash at its end.
pub open spec fn objects_root() -> Seq<char> {
    seq!['.', 'g', 'i', 't', '/', 'o', 'b', 'j', 'e', 'c', 't', 's', '/']
}

/// The path of the object with the given id: under the objects' root, a
/// directory named by the first two digits, and in it a file named by the
/// other thirty-eight.
pub open spec fn object_path(hash: Seq<char>) -> Seq<char> {
    objects_root() + hash.take(2) + seq!['/'] + hash.skip(2)
}

/// The path of the loose object with the given id.
pub fn find_object_path(hash: &str) -> (path: String)
    requires
        is_object_id(hash@),
    ensures
        path@ == object_path(hash@),
{
    let digits = to_chars(hash);
    let root: Vec<char> = vec!['.', 'g', 'i', 't', '/', 'o', 'b', 'j', 'e', 'c', 't', 's', '/'];
    assert(root@ =~= objects_root());
    let mut path = from_chars(root.as_slice());
    let mut i: usize = 0;
    while i < digits.len()
        invariant
            digits@ == hash@,
            2 <= digits.len(),
            i <= digits.len(),
            i <= 2 ==> path@ == objects_root() + digits@.take(i as int),
            i > 2 ==> path@ == objects_root() + digits@.take(2) + seq!['/'] + digits@.subrange(
                2,
                i as int,
            ),
        decreases digits.len() - i,
    {
        if i == 2 {
            push_char(&mut path, '/');
        }
        push_char(&mut path, digits[i]);
        proof {
            if i < 2 {
                assert(digits@.take(i + 1) =~= digits@.take(i as int).push(digits@[i as int]));
            } else {
                assert(digits@.subrange(2, i + 1) =~= digits@.subrange(2, i as int).push(
                    digits@[i as int],
                ));
            }
        }
        i += 1;
    }
    assert(digits@.subrange(2, digits.len() as int) =~= digits@.skip(2));
    path
}


/// The path of the loose object that the text names, if it is an object
/// id.
pub fn try_find_object_path(hash: &str) -> (r: Option<String>)
    ensures
        match r {
            Some(path) => is_object_id(hash@) && path@ == object_path(hash@),
            None => !is_object_id(hash@),
        },
{
    if is_valid_object_id(hash) {
        Some(find_object_path(hash))
    } else {
        None
    }
}

} // verus!
