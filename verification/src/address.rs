//! Addresses of accounts and contracts, and lists of them.
use crate::host_list::{
    list_clone, list_contains, list_items, list_len, list_new, list_push_back, listed, readable,
};
use vstd::prelude::*;

verus! {

/// The address of an account or of a contract: which of the two it is, and the 32 bytes of its
/// public key or contract id, as two big-endian halves.
#[derive(Copy, Clone, Debug, PartialEq, Eq, Hash, Structural)]
pub struct Address {
    pub contract: bool,
    pub hi: u128,
    pub lo: u128,
}

impl View for Address {
    type V = Address;

    open spec fn view(&self) -> Address {
        *self
    }
}

/// The form in which an address is an item of a host list.
pub open spec fn packed(a: Address) -> (bool, u128, u128) {
    (a.contract, a.hi, a.lo)
}

/// The address that a list item stands for.
pub open spec fn unpacked(item: (bool, u128, u128)) -> Address {
    Address { contract: item.0, hi: item.1, lo: item.2 }
}

/// A list of addresses, kept by the host.
pub struct AddressList {
    items: soroban_sdk::Vec<(bool, u128, u128)>,
}

impl View for AddressList {
    type V = Seq<Address>;

    closed spec fn view(&self) -> Seq<Address> {
        listed(self.items).map_values(|item: (bool, u128, u128)| unpacked(item))
    }
}

impl AddressList {
    #[verifier::type_invariant]
    spec fn well_typed(self) -> bool {
        readable(self.items)
    }

    /// The empty list.
    pub fn new(host: &soroban_sdk::Env) -> (r: AddressList)
        ensures
            r@ == Seq::<Address>::empty(),
    {
        AddressList { items: list_new(host) }
    }

    /// A list with the same addresses.
    pub fn copied(&self) -> (r: AddressList)
        ensures
            r@ == self@,
    {
        proof {
            use_type_invariant(self);
        }
        AddressList { items: list_clone(&self.items) }
    }

    /// The number of addresses in the list.
    pub fn len(&self) -> (r: u32)
        ensures
            r == self@.len(),
    {
        list_len(&self.items)
    }

    /// Whether the address is in the list.
    pub fn contains(&self, address: &Address) -> (r: bool)
        ensures
            r == self@.contains(*address),
    {
        proof {
            use_type_invariant(self);
            let items = listed(self.items);
            if items.contains(packed(*address)) {
                let i = choose|i: int| 0 <= i < items.len() && items[i] == packed(*address);
                assert(self@[i] == *address);
            }
            if self@.contains(*address) {
                let i = choose|i: int| 0 <= i < self@.len() && self@[i] == *address;
                assert(items[i] == packed(*address));
            }
        }
        list_contains(&self.items, (address.contract, address.hi, address.lo))
    }

    /// Adds the address at the end.
    pub fn push_back(&mut self, address: Address)
        requires
            old(self)@.len() < u32::MAX,
        ensures
            final(self)@ == old(self)@.push(address),
    {
        proof {
            use_type_invariant(&*self);
        }
        let mut items = list_clone(&self.items);
        list_push_back(&mut items, (address.contract, address.hi, address.lo));
        self.items = items;
        assert(self@ =~= old(self)@.push(address));
    }

    /// The addresses of the list, in order.
    pub fn to_vec(&self) -> (r: Vec<Address>)
        ensures
            r@ == self@,
            r@.len() <= u32::MAX,
    {
        proof {
            use_type_invariant(self);
        }
        let items: Vec<(bool, u128, u128)> = list_items(&self.items);
        let count: u32 = self.len();
        let mut out: Vec<Address> = Vec::with_capacity(count as usize);
        let mut i: usize = 0;
        while i < items.len()
            invariant
                i <= items.len(),
                items@ == listed(self.items),
                out@ == self@.take(i as int),
            decreases items.len() - i,
        {
            let item = items[i];
            out.push(Address { contract: item.0, hi: item.1, lo: item.2 });
            i += 1;
            assert(out@ =~= self@.take(i as int));
        }
        assert(self@.take(i as int) =~= self@);
        out
    }
}

} // verus!
