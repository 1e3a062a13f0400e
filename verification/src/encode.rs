//! Nucleotide bit masks.
//!
//! A base is one bit of a four-bit mask, an ambiguity code the union of the
//! bases it stands for. Two encoded positions match exactly when their masks
//! share a bit.

use vstd::prelude::*;

verus! {

/// Mask of no base at all: it matches nothing.
pub const NT_0: u8 = 0;

/// Mask of the base A.
pub const NT_A: u8 = 1;

/// Mask of the base C.
pub const NT_C: u8 = 2;

/// Mask of the base G.
pub const NT_G: u8 = 4;

/// Mask of the base T.
pub const NT_T: u8 = 8;

/// The letter that decodes the empty mask.
pub const NO_BASE: u8 = 120;

/// The upper-case form of an ASCII letter; any other byte is unchanged.
pub open spec fn ascii_upper(nt: u8) -> u8 {
    if 97 <= nt <= 122 {
        (nt - 32) as u8
    } else {
        nt
    }
}

/// Mask of a byte read as a plain base: `A`, `C`, `G`, `T` (or `U`) in
/// either case; every other byte has the empty mask.
pub open spec fn acgt_mask(nt: u8) -> u8 {
    let c = ascii_upper(nt);
    if c == 65 {
        NT_A
    } else if c == 67 {
        NT_C
    } else if c == 71 {
        NT_G
    } else if c == 84 || c == 85 {
        NT_T
    } else {
        NT_0
    }
}

/// Mask of a byte read as an IUPAC code, in either case: the bases the code
/// stands for, each by its bit. A byte that is no IUPAC code has the empty mask.
pub open spec fn iupac_mask(nt: u8) -> u8 {
    let c = ascii_upper(nt);
    if c == 65 {
        1  // A
    } else if c == 66 {
        14  // B: C, G or T
    } else if c == 67 {
        2  // C
    } else if c == 68 {
        13  // D: A, G or T
    } else if c == 71 {
        4  // G
    } else if c == 72 {
        11  // H: A, C or T
    } else if c == 75 {
        12  // K: G or T
    } else if c == 77 {
        3  // M: A or C
    } else if c == 78 {
        15  // N: any base
    } else if c == 82 {
        5  // R: A or G
    } else if c == 83 {
        6  // S: C or G
    } else if c == 84 || c == 85 {
        8  // T, U
    } else if c == 86 {
        7  // V: A, C or G
    } else if c == 87 {
        9  // W: A or T
    } else if c == 89 {
        10  // Y: C or T
    } else {
        0
    }
}

/// The letter of a mask: the IUPAC code that stands for exactly the bases whose
/// bits are set among the low four. The empty mask decodes to `x`.
pub open spec fn iupac_letter(mask: u8) -> u8 {
    let low = mask % 16;
    if low == 0 {
        NO_BASE
    } else if low == 1 {
        65  // A
    } else if low == 2 {
        67  // C
    } else if low == 3 {
        77  // M
    } else if low == 4 {
        71  // G
    } else if low == 5 {
        82  // R
    } else if low == 6 {
        83  // S
    } else if low == 7 {
        86  // V
    } else if low == 8 {
        84  // T
    } else if low == 9 {
        87  // W
    } else if low == 10 {
        89  // Y
    } else if low == 11 {
        72  // H
    } else if low == 12 {
        75  // K
    } else if low == 13 {
        68  // D
    } else if low == 14 {
        66  // B
    } else {
        78  // N
    }
}

/// A sequence read base by base as plain nucleotides.
pub open spec fn acgt_masks(nts: Seq<u8>) -> Seq<u8> {
    Seq::new(nts.len(), |i: int| acgt_mask(nts[i]))
}

/// A sequence read position by position as IUPAC codes.
pub open spec fn iupac_masks(nts: Seq<u8>) -> Seq<u8> {
    Seq::new(nts.len(), |i: int| iupac_mask(nts[i]))
}

/// A sequence of masks written out as letters.
pub open spec fn iupac_letters(mask: Seq<u8>) -> Seq<u8> {
    Seq::new(mask.len(), |i: int| iupac_letter(mask[i]))
}

/// A plain base keeps its mask when it is read as an IUPAC code, and a plain
/// mask holds at most one base.
pub proof fn lemma_plain_is_iupac(nt: u8)
    ensures
        acgt_mask(nt) != 0 ==> iupac_mask(nt) == acgt_mask(nt),
        acgt_mask(nt) == 0 || acgt_mask(nt) == 1 || acgt_mask(nt) == 2 || acgt_mask(nt) == 4
            || acgt_mask(nt) == 8,
        iupac_mask(nt) < 16,
{
}

/// Decoding gives back a letter that encodes to the same mask: every
/// non-empty mask has its own IUPAC code.
pub proof fn lemma_letter_encodes_to_mask(mask: u8)
    ensures
        mask % 16 != 0 ==> iupac_mask(iupac_letter(mask)) == mask % 16,
        mask % 16 == 0 ==> iupac_mask(iupac_letter(mask)) == 0,
{
}

/// Encoding does not tell upper case from lower case.
pub proof fn lemma_case_insensitive(nt: u8)
    ensures
        acgt_mask(ascii_upper(nt)) == acgt_mask(nt),
        iupac_mask(ascii_upper(nt)) == iupac_mask(nt),
{
}

/// The plain mask of one byte.
fn encode_acgt(nt: u8) -> (mask: u8)
    ensures
        mask == acgt_mask(nt),
{
    match nt {
        65 | 97 => NT_A,
        67 | 99 => NT_C,
        71 | 103 => NT_G,
        84 | 85 | 116 | 117 => NT_T,
        _ => NT_0,
    }
}

/// The IUPAC mask of one byte.
fn encode_iupac(nt: u8) -> (mask: u8)
    ensures
        mask == iupac_mask(nt),
{
    match nt {
        65 | 97 => 1,
        66 | 98 => 14,
        67 | 99 => 2,
        68 | 100 => 13,
        71 | 103 => 4,
        72 | 104 => 11,
        75 | 107 => 12,
        77 | 109 => 3,
        78 | 110 => 15,
        82 | 114 => 5,
        83 | 115 => 6,
        84 | 85 | 116 | 117 => 8,
        86 | 118 => 7,
        87 | 119 => 9,
        89 | 121 => 10,
        _ => 0,
    }
}

/// The letter of one mask.
fn decode_iupac(mask: u8) -> (nt: u8)
    ensures
        nt == iupac_letter(mask),
{
    let low: u8 = mask & 0x0f;
    assert(low == mask % 16) by (bit_vector)
        requires
            low == mask & 0x0f,
    ;
    match low {
        0 => NO_BASE,
        1 => 65,
        2 => 67,
        3 => 77,
        4 => 71,
        5 => 82,
        6 => 83,
        7 => 86,
        8 => 84,
        9 => 87,
        10 => 89,
        11 => 72,
        12 => 75,
        13 => 68,
        14 => 66,
        _ => 78,
    }
}

/// Encodes `nts` without IUPAC wildcards.
///
/// `nts` is the ASCII text of the sequence; `mask` is overwritten with one
/// mask per position.
pub fn encode_acgt_vec(nts: &[u8], mask: &mut Vec<u8>)
    ensures
        final(mask)@ == acgt_masks(nts@),
{
    mask.clear();
    let mut i: usize = 0;
    while i < nts.len()
        invariant
            i <= nts.len(),
            mask@ == acgt_masks(nts@).subrange(0, i as int),
        decreases nts.len() - i,
    {
        mask.push(encode_acgt(nts[i]));
        i += 1;
        assert(mask@ =~= acgt_masks(nts@).subrange(0, i as int));
    }
    assert(mask@ =~= acgt_masks(nts@));
}

/// Encodes `nts` with IUPAC wildcards.
///
/// The mask of a wildcard shares a bit with the mask of a plain base exactly
/// when the wildcard stands for that base. `mask` is overwritten with one mask
/// per position.
pub fn encode_iupac_vec(nts: &[u8], mask: &mut Vec<u8>)
    ensures
        final(mask)@ == iupac_masks(nts@),
{
    mask.clear();
    let mut i: usize = 0;
    while i < nts.len()
        invariant
            i <= nts.len(),
            mask@ == iupac_masks(nts@).subrange(0, i as int),
        decreases nts.len() - i,
    {
        mask.push(encode_iupac(nts[i]));
        i += 1;
        assert(mask@ =~= iupac_masks(nts@).subrange(0, i as int));
    }
    assert(mask@ =~= iupac_masks(nts@));
}

/// Decodes `mask`, using IUPAC wildcards where a mask holds several bases.
///
/// An empty mask is decoded to `x`. `nts` is overwritten with one letter per
/// position.
pub fn decode_iupac_vec(mask: &[u8], nts: &mut Vec<u8>)
    ensures
        final(nts)@ == iupac_letters(mask@),
{
    nts.clear();
    let mut i: usize = 0;
    while i < mask.len()
        invariant
            i <= mask.len(),
            nts@ == iupac_letters(mask@).subrange(0, i as int),
        decreases mask.len() - i,
    {
        nts.push(decode_iupac(mask[i]));
        i += 1;
        assert(nts@ =~= iupac_letters(mask@).subrange(0, i as int));
    }
    assert(nts@ =~= iupac_letters(mask@));
}

} // verus!
