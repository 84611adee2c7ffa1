//! What every kind of signature header offers to a verifier.

use vstd::prelude::*;
use crate::common::crypto::Algorithm;

verus! {

/// The tags that locate the key of a signature and name what it signed with.
pub trait VerifySignature {
    /// The signature bytes (`b=`).
    fn signature(&self) -> &[u8];

    /// The algorithm (`a=`).
    fn algorithm(&self) -> Algorithm;

    /// The selector (`s=`).
    fn selector(&self) -> &str;

    /// The signing domain (`d=`).
    fn domain(&self) -> &str;
}

} // verus!
