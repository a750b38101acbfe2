use vstd::prelude::*;

verus! {

/// Identifier of an account; the ledger only compares and hashes it.
pub type AccountId = u64;

/// Who is calling an operation.
#[derive(Clone, Copy, Debug, PartialEq, Eq, Structural)]
pub enum Origin {
    /// A caller identified by a verified signature.
    Signed(AccountId),
    /// The privileged system origin, which has no account.
    Root,
    /// An unsigned call.
    Unsigned,
}

/// The account behind an origin, if the origin is a signed one.
pub open spec fn signer_of(origin: Origin) -> Option<AccountId> {
    match origin {
        Origin::Signed(who) => Some(who),
        _ => None,
    }
}

/// Resolves the caller of a signed origin; any other origin yields `None`.
pub fn ensure_signed(origin: &Origin) -> (r: Option<AccountId>)
    ensures
        r == signer_of(*origin),
{
    match origin {
        Origin::Signed(who) => Some(*who),
        _ => None,
    }
}

} // verus!
