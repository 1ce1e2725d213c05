use crate::address::Address;
use crate::instruction::Instruction;
use vstd::prelude::*;

verus! {

/// Information about the target of a `CallSite`.
#[derive(Clone, Copy, Debug, PartialEq, Eq, Structural)]
pub enum CallSiteTarget {
    /// The call site directly invokes the function at the `Address`.
    Direct(Address),
    /// The call site is indirect, and no further analysis has been done.
    Indirect,
}

/// Information about a call site.
#[derive(Clone, Copy, Debug, PartialEq, Eq, Structural)]
pub struct CallSite {
    /// The address of the call site.
    pub call_site_address: Address,
    /// Information about the target of the call site.
    pub target: CallSiteTarget,
}

/// The call site that a call instruction forms.
pub open spec fn call_site_of<I: Instruction>(i: I) -> CallSite {
    CallSite {
        call_site_address: i.spec_address(),
        target: match i.spec_target_address() {
            Some(a) => CallSiteTarget::Direct(a),
            None => CallSiteTarget::Indirect,
        },
    }
}

/// The call sites among the first `n` instructions, in program order.
pub open spec fn call_sites<I: Instruction>(s: Seq<I>, n: nat) -> Seq<CallSite>
    decreases n,
{
    if n == 0 {
        Seq::empty()
    } else if s[n - 1].spec_is_call() {
        call_sites(s, (n - 1) as nat).push(call_site_of(s[n - 1]))
    } else {
        call_sites(s, (n - 1) as nat)
    }
}

/// Get information about the function calls made within a set of
/// instructions: one call site for each call instruction, in program order,
/// with no filtering or deduplication.
pub fn identify_call_sites_in_instructions<I: Instruction>(instructions: &[I]) -> (r: Vec<
    CallSite,
>)
    ensures
        r@ == call_sites(instructions@, instructions@.len()),
{
    let mut sites: Vec<CallSite> = Vec::new();
    let mut k: usize = 0;
    while k < instructions.len()
        invariant
            0 <= k <= instructions@.len(),
            sites@ == call_sites(instructions@, k as nat),
        decreases instructions@.len() - k,
    {
        let i = &instructions[k];
        if i.is_call() {
            let target = match i.target_address() {
                Some(a) => CallSiteTarget::Direct(a),
                None => CallSiteTarget::Indirect,
            };
            sites.push(CallSite { call_site_address: i.address(), target });
        }
        k = k + 1;
    }
    sites
}

/// Assist in performing call graph analysis.
pub trait CallGraphAnalysis<I: Instruction> {
    /// Get information about the function calls made.
    fn identify_call_sites(&self) -> Vec<CallSite>;

    /// Get information about the function calls made within a set of
    /// instructions.
    fn identify_call_sites_in_instructions(&self, instructions: &[I]) -> (r: Vec<CallSite>)
        ensures
            r@ == call_sites(instructions@, instructions@.len()),
    {
        identify_call_sites_in_instructions(instructions)
    }
}

} // verus!
