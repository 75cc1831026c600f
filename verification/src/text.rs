//! Names are compared as text: two names are the same when they hold the same
//! characters.

use vstd::prelude::*;
use vstd::string::StringSliceAdditionalSpecFns;

verus! {

/// The characters of each name of a list.
pub open spec fn names_of(list: Seq<&'static str>) -> Seq<Seq<char>> {
    Seq::new(list.len(), |i: int| list[i]@)
}

/// Whether two names hold the same characters, decided on their bytes.
pub fn same_text(a: &str, b: &str) -> (same: bool)
    ensures
        same == (a@ == b@),
{
    let x = a.as_bytes();
    let y = b.as_bytes();
    if x.len() != y.len() {
        return false;
    }
    let mut i: usize = 0;
    while i < x.len()
        invariant
            x@ == a.spec_bytes(),
            y@ == b.spec_bytes(),
            x@.len() == y@.len(),
            i <= x@.len(),
            forall|j: int| 0 <= j < i ==> x@[j] == y@[j],
        decreases x@.len() - i,
    {
        if x[i] != y[i] {
            return false;
        }
        i = i + 1;
    }
    proof {
        assert(x@ =~= y@);
        vstd::utf8::encode_utf8_decode_utf8(a@);
        vstd::utf8::encode_utf8_decode_utf8(b@);
    }
    true
}

/// Whether `name` is one of the names of `list`.
pub fn lists_name(list: &[&'static str], name: &str) -> (found: bool)
    ensures
        found == names_of(list@).contains(name@),
{
    let mut i: usize = 0;
    while i < list.len()
        invariant
            i <= list@.len(),
            forall|j: int| 0 <= j < i ==> names_of(list@)[j] != name@,
        decreases list@.len() - i,
    {
        if same_text(list[i], name) {
            assert(names_of(list@)[i as int] == name@);
            return true;
        }
        i = i + 1;
    }
    false
}

} // verus!
