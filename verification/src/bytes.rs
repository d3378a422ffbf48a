//! Byte string comparison and the three names the dump format gives meaning to.

use vstd::prelude::*;

verus! {

/// Name of the element that holds one column of a row: `field`.
pub open spec fn field_tag() -> Seq<u8> {
    seq![102u8, 105u8, 101u8, 108u8, 100u8]
}

/// Name of the element that holds one row: `row`.
pub open spec fn row_tag() -> Seq<u8> {
    seq![114u8, 111u8, 119u8]
}

/// Key of the attribute that names a field's column: `name`.
pub open spec fn name_key() -> Seq<u8> {
    seq![110u8, 97u8, 109u8, 101u8]
}

/// Whether two byte strings hold the same bytes.
pub fn bytes_eq(a: &[u8], b: &[u8]) -> (same: bool)
    ensures
        same == (a@ == b@),
{
    if a.len() != b.len() {
        return false;
    }
    let mut i: usize = 0;
    while i < a.len()
        invariant
            a@.len() == b@.len(),
            i <= a@.len(),
            forall|k: int| 0 <= k < i ==> a@[k] == b@[k],
        decreases a@.len() - i,
    {
        if a[i] != b[i] {
            return false;
        }
        i += 1;
    }
    assert(a@ =~= b@);
    true
}

/// Whether `name` is the element name `field`.
pub fn is_field_tag(name: &[u8]) -> (yes: bool)
    ensures
        yes == (name@ == field_tag()),
{
    let tag: [u8; 5] = [102, 105, 101, 108, 100];
    assert(tag@ =~= field_tag());
    bytes_eq(name, tag.as_slice())
}

/// Whether `name` is the element name `row`.
pub fn is_row_tag(name: &[u8]) -> (yes: bool)
    ensures
        yes == (name@ == row_tag()),
{
    let tag: [u8; 3] = [114, 111, 119];
    assert(tag@ =~= row_tag());
    bytes_eq(name, tag.as_slice())
}

/// Whether `key` is the attribute key `name`.
pub fn is_name_key(key: &[u8]) -> (yes: bool)
    ensures
        yes == (key@ == name_key()),
{
    let tag: [u8; 4] = [110, 97, 109, 101];
    assert(tag@ =~= name_key());
    bytes_eq(key, tag.as_slice())
}

} // verus!
