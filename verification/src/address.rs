//! Addresses of accounts and contracts, as the library compares and stores them.
use vstd::prelude::*;

verus! {

/// A Stellar address (an account or a contract), held as the bytes of its
/// strkey text (such as `GA...` or `C...`). Two addresses are the same party
/// exactly when their strkeys are equal.
#[derive(Clone, Debug, PartialEq, Eq, Hash)]
pub struct Address {
    pub strkey: Vec<u8>,
}

impl View for Address {
    type V = Seq<u8>;

    open spec fn view(&self) -> Seq<u8> {
        self.strkey@
    }
}

/// A copy of a byte string.
pub fn copy_bytes(bytes: &Vec<u8>) -> (copy: Vec<u8>)
    ensures
        copy@ == bytes@,
{
    let copy = bytes.clone();
    assert(copy@ =~= bytes@);
    copy
}

impl Address {
    /// The address whose strkey is `strkey`.
    pub fn from_strkey(strkey: Vec<u8>) -> (a: Address)
        ensures
            a@ == strkey@,
    {
        Address { strkey }
    }

    /// Whether `self` and `other` name the same party.
    pub fn same_as(&self, other: &Address) -> (r: bool)
        ensures
            r == (self@ == other@),
    {
        let r = self.strkey == other.strkey;
        proof {
            if r {
                assert(self@ =~= other@);
            }
        }
        r
    }

    /// A copy of this address.
    pub fn duplicate(&self) -> (a: Address)
        ensures
            a@ == self@,
    {
        Address { strkey: copy_bytes(&self.strkey) }
    }
}

} // verus!
