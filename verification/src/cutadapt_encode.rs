//! The encodings that the aligner compares sequences in.
//!
//! These are the functions of [`crate::encode`] under the names that the
//! aligner knows them by.

use crate::encode::{acgt_masks, iupac_letters, iupac_masks};
use vstd::prelude::*;

verus! {

/// Encodes `nts` without IUPAC wildcards into `mask`.
pub fn encode_acgt_vec(nts: &[u8], mask: &mut Vec<u8>)
    ensures
        final(mask)@ == acgt_masks(nts@),
{
    crate::encode::encode_acgt_vec(nts, mask);
}

/// Encodes `nts` with IUPAC wildcards into `mask`.
pub fn encode_iupac_vec(nts: &[u8], mask: &mut Vec<u8>)
    ensures
        final(mask)@ == iupac_masks(nts@),
{
    crate::encode::encode_iupac_vec(nts, mask);
}

/// Decodes `mask` into `nts`, using IUPAC wildcards where a mask holds
/// several bases and `x` where it holds none.
pub fn decode_iupac_vec(mask: &[u8], nts: &mut Vec<u8>)
    ensures
        final(nts)@ == iupac_letters(mask@),
{
    crate::encode::decode_iupac_vec(mask, nts);
}

} // verus!
