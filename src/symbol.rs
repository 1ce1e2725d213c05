use crate::address::Address;
use vstd::prelude::*;

verus! {

/// A symbol within an executable or library: a named address.
#[derive(Debug)]
pub struct Symbol {
    /// The address of this symbol.
    pub address: Address,
    /// The name of this symbol.
    pub name: Option<String>,
}

impl Symbol {
    /// Construct a `Symbol`.
    pub fn new(address: Address, name: Option<&str>) -> (r: Self)
        ensures
            r.address == address,
            r.name is None <==> name is None,
            name matches Some(n) ==> r.name matches Some(rn) && rn@ == n@,
    {
        let owned = match name {
            Some(n) => Some(n.to_owned()),
            None => None,
        };
        Symbol { address, name: owned }
    }
}

} // verus!
