//! Extrinsics that have passed the verification stage.
use vstd::prelude::*;

verus! {

/// Why a transaction cannot be included.
#[derive(Clone, Copy, Debug, PartialEq, Eq, Structural)]
pub enum TransactionValidityError {
    /// No extension vouched for an unsigned transaction.
    NoValidityInfo,
    /// An extension rejected the transaction, with its own code.
    Rejected(u8),
}

/// Definition of something that the external world might want to say; its
/// existence implies that it has been checked and is good, particularly with
/// regards to the signature.
#[derive(Clone, Debug, PartialEq, Eq)]
pub struct CheckedExtrinsic<AccountId, Call, Extra> {
    /// Who this purports to be from and the number of extrinsics have come before
    /// from the same signer, if anyone (note this is not a signature).
    pub signed: Option<(AccountId, Extra)>,
    /// The function that should be called.
    pub function: Call,
}

impl<AccountId, Call, Extra> CheckedExtrinsic<AccountId, Call, Extra> {
    /// The signer, who becomes the dispatch origin; none for an unsigned extrinsic.
    pub fn origin(&self) -> (r: Option<&AccountId>)
        ensures
            r == match self.signed {
                Some(s) => Some(&s.0),
                None => None,
            },
    {
        match &self.signed {
            Some(s) => Some(&s.0),
            None => None,
        }
    }

    /// The validity of this extrinsic from what its extensions reported.
    ///
    /// A rejection stands. When no extension vouched for it, a signed extrinsic
    /// gets `default` (for backward compatibility), while an unsigned one is
    /// rejected with `NoValidityInfo`.
    pub fn resolve_validity<V>(
        &self,
        reported: Result<Option<V>, TransactionValidityError>,
        default: V,
    ) -> (r: Result<V, TransactionValidityError>)
        ensures
            r == match reported {
                Err(e) => Err(e),
                Ok(Some(v)) => Ok(v),
                Ok(None) => if self.signed is Some {
                    Ok(default)
                } else {
                    Err(TransactionValidityError::NoValidityInfo)
                },
            },
    {
        match reported {
            Err(e) => Err(e),
            Ok(Some(v)) => Ok(v),
            Ok(None) => match &self.signed {
                Some(_) => Ok(default),
                None => Err(TransactionValidityError::NoValidityInfo),
            },
        }
    }
}

} // verus!
