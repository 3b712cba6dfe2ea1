//! Account identities. An account is the opaque byte encoding of a principal
//! handed in by the hosting environment's authentication layer; the ledger
//! reads nothing of it but equality.

use vstd::prelude::*;

verus! {

/// An account identity, held as its raw byte encoding. Two accounts are the
/// same identity exactly when their encodings are equal byte for byte.
#[derive(Debug)]
pub struct Account {
    bytes: Vec<u8>,
}

impl View for Account {
    type V = Seq<u8>;

    closed spec fn view(&self) -> Seq<u8> {
        self.bytes@
    }
}

impl Account {
    /// Builds an account from its raw byte encoding.
    pub fn from_bytes(bytes: Vec<u8>) -> (r: Account)
        ensures
            r@ == bytes@,
    {
        Account { bytes }
    }

    /// The raw byte encoding of this account.
    pub fn as_bytes(&self) -> (r: &Vec<u8>)
        ensures
            r@ == self@,
    {
        &self.bytes
    }

    /// The distinguished anonymous identity (the one-byte encoding 0x04).
    /// It serves as the owner of a ledger that has not been initialized yet
    /// and is never a valid operating owner.
    pub fn anonymous() -> (r: Account)
        ensures
            r@ == seq![4u8],
    {
        let mut bytes: Vec<u8> = Vec::new();
        bytes.push(4u8);
        proof {
            assert(bytes@ =~= seq![4u8]);
        }
        Account { bytes }
    }
}

impl PartialEq for Account {
    fn eq(&self, other: &Account) -> (r: bool) {
        let r = self.bytes == other.bytes;
        proof {
            if r {
                assert(self.bytes@ =~= other.bytes@);
            } else {
                if self.bytes@ == other.bytes@ {
                    assert(forall|i: int|
                        0 <= i < self.bytes@.len() ==> self.bytes@[i] == other.bytes@[i]);
                }
            }
        }
        r
    }
}

impl vstd::std_specs::cmp::PartialEqSpecImpl for Account {
    open spec fn obeys_eq_spec() -> bool {
        true
    }

    open spec fn eq_spec(&self, other: &Account) -> bool {
        self@ == other@
    }
}

impl Eq for Account {}

impl Clone for Account {
    fn clone(&self) -> (r: Account)
        ensures
            r@ == self@,
    {
        let bytes = self.bytes.clone();
        proof {
            assert(bytes@ =~= self.bytes@);
        }
        Account { bytes }
    }
}

} // verus!
