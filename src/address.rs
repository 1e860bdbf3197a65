use vstd::prelude::*;

verus! {

/// A 32-byte account address.
pub type Address = [u8; 32];

/// The byte views of a list of addresses.
pub open spec fn address_views(a: Seq<Address>) -> Seq<Seq<u8>> {
    a.map_values(|x: Address| x@)
}

/// Whether two addresses hold the same bytes.
pub fn same_address(a: &Address, b: &Address) -> (r: bool)
    ensures
        r == (*a == *b),
{
    let mut i: usize = 0;
    while i < 32
        invariant
            0 <= i <= 32,
            forall|j: int| 0 <= j < i ==> a@[j] == b@[j],
        decreases 32 - i,
    {
        if a[i] != b[i] {
            return false;
        }
        i = i + 1;
    }
    proof {
        assert(a@ =~= b@);
        vstd::array::axiom_array_ext_equal(*a, *b);
    }
    true
}

/// Whether `a` occurs in `list`.
pub fn contains_address(list: &Vec<Address>, a: &Address) -> (r: bool)
    ensures
        r == list@.contains(*a),
{
    let mut i: usize = 0;
    while i < list.len()
        invariant
            0 <= i <= list@.len(),
            forall|j: int| 0 <= j < i ==> list@[j] != *a,
        decreases list@.len() - i,
    {
        if same_address(&list[i], a) {
            return true;
        }
        i = i + 1;
    }
    false
}

} // verus!
