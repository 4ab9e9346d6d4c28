use vstd::prelude::*;
use vstd::string::StrSliceExecFns;
use crate::types::DeletionMarker;
use crate::types::spec_is_deletion;

verus! {

/// Compares two strings for equality of their character sequences.
pub fn str_eq(a: &String, b: &String) -> (r: bool)
    ensures
        r == (a@ == b@),
{
    a.eq(b)
}

/// Whether `x` occurs among the strings of `v`.
pub fn vec_contains(v: &Vec<String>, x: &String) -> (r: bool)
    ensures
        r == v.deep_view().contains(x@),
{
    let mut i: usize = 0;
    while i < v.len()
        invariant
            i <= v.len(),
            forall|k: int| 0 <= k < i ==> v.deep_view()[k] != x@,
        decreases v.len() - i,
    {
        if str_eq(&v[i], x) {
            assert(v.deep_view()[i as int] == x@);
            return true;
        }
        i += 1;
    }
    assert(forall|k: int| 0 <= k < v.deep_view().len() ==> v.deep_view()[k] != x@);
    false
}

/// Whether this listing line requests a deletion under the given marker.
pub fn is_deletion_line(line: &String, marker: DeletionMarker) -> (r: bool)
    ensures
        r == spec_is_deletion(line@, marker),
{
    match marker {
        DeletionMarker::EmptyLine => line.as_str().unicode_len() == 0,
        DeletionMarker::PrefixSymbol(c) => {
            let s = line.as_str();
            if s.unicode_len() == 0 {
                false
            } else {
                s.get_char(0) == c
            }
        },
    }
}

/// The character sequence that `str::to_lowercase` yields for a given input;
/// it depends on the input characters alone.
pub uninterp spec fn lower_of(s: Seq<char>) -> Seq<char>;

/// Relies on str::to_lowercase: the lowercased form of a string, a function
/// of its characters alone.
#[verifier::external_body]
pub(crate) fn lowercase(s: &String) -> (r: String)
    ensures
        r@ == lower_of(s@),
{
    s.to_lowercase()
}

} // verus!
