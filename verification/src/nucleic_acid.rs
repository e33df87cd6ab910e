//! The residue alphabet: a stateless predicate deciding whether a byte is
//! one of the 17 accepted nucleic-acid symbols (the four bases, N, U, the
//! IUPAC ambiguity codes and the gap marker).

use vstd::prelude::*;

verus! {

/// A byte is a valid residue symbol iff it is one of the 17 alphabet
/// symbols `A C G T N U K S Y M W R B D H V -`.
pub open spec fn is_valid_symbol(x: u8) -> bool {
    x == 65u8 || x == 67u8 || x == 71u8 || x == 84u8 || x == 78u8 || x == 85u8
        || x == 75u8 || x == 83u8 || x == 89u8 || x == 77u8 || x == 87u8 || x == 82u8
        || x == 66u8 || x == 68u8 || x == 72u8 || x == 86u8 || x == 45u8
}

/// The alphabet as a sequence, in its conventional order.
pub open spec fn nucleic_acid_set() -> Seq<u8> {
    seq![65u8, 67u8, 71u8, 84u8, 78u8, 85u8, 75u8, 83u8, 89u8, 77u8, 87u8, 82u8, 66u8, 68u8, 72u8, 86u8, 45u8]
}

/// The validator accepts exactly the members of the 17-symbol alphabet:
/// a byte satisfies `is_valid_symbol` iff `nucleic_acid_set` contains it.
pub proof fn lemma_validator_totality(x: u8)
    ensures
        is_valid_symbol(x) <==> nucleic_acid_set().contains(x),
{
    if is_valid_symbol(x) {
        if x == 65u8 { assert(nucleic_acid_set()[0] == x); }
        else if x == 67u8 { assert(nucleic_acid_set()[1] == x); }
        else if x == 71u8 { assert(nucleic_acid_set()[2] == x); }
        else if x == 84u8 { assert(nucleic_acid_set()[3] == x); }
        else if x == 78u8 { assert(nucleic_acid_set()[4] == x); }
        else if x == 85u8 { assert(nucleic_acid_set()[5] == x); }
        else if x == 75u8 { assert(nucleic_acid_set()[6] == x); }
        else if x == 83u8 { assert(nucleic_acid_set()[7] == x); }
        else if x == 89u8 { assert(nucleic_acid_set()[8] == x); }
        else if x == 77u8 { assert(nucleic_acid_set()[9] == x); }
        else if x == 87u8 { assert(nucleic_acid_set()[10] == x); }
        else if x == 82u8 { assert(nucleic_acid_set()[11] == x); }
        else if x == 66u8 { assert(nucleic_acid_set()[12] == x); }
        else if x == 68u8 { assert(nucleic_acid_set()[13] == x); }
        else if x == 72u8 { assert(nucleic_acid_set()[14] == x); }
        else { assert(nucleic_acid_set()[16] == x || nucleic_acid_set()[15] == x); }
    }
}

/// Validation by direct pattern match.
pub fn is_nucleic_acid_match(x: u8) -> (r: bool)
    ensures
        r == is_valid_symbol(x),
{
    match x {
        65u8 | 67u8 | 71u8 | 84u8 | 78u8 | 85u8 => true,
        75u8 | 83u8 | 89u8 | 77u8 | 87u8 | 82u8 | 66u8 | 68u8 | 72u8 | 86u8 | 45u8 => true,
        _ => false,
    }
}

/// Validation by scanning the alphabet for a matching symbol.
pub fn is_nucleic_acid_iter(x: u8) -> (r: bool)
    ensures
        r == is_valid_symbol(x),
{
    let set: [u8; 17] = [
        65u8, 67u8, 71u8, 84u8, 78u8, 85u8, 75u8, 83u8, 89u8, 77u8, 87u8, 82u8, 66u8, 68u8, 72u8,
        86u8, 45u8,
    ];
    let mut i: usize = 0;
    while i < 17
        invariant
            i <= 17,
            set@ == nucleic_acid_set(),
            forall|j: int| 0 <= j < i ==> nucleic_acid_set()[j] != x,
        decreases 17 - i,
    {
        if set[i] == x {
            proof {
                lemma_validator_totality(x);
            }
            return true;
        }
        i += 1;
    }
    proof {
        lemma_validator_totality(x);
        if nucleic_acid_set().contains(x) {
            let j = choose|j: int| 0 <= j < 17 && nucleic_acid_set()[j] == x;
            assert(nucleic_acid_set()[j] != x);
        }
    }
    false
}

/// Validation by constant-time lookup: the alphabet as a 256-entry bitmap
/// packed into four 64-bit words.
pub fn is_nucleic_acid_lut(x: u8) -> (r: bool)
    ensures
        r == is_valid_symbol(x),
{
    // bit 45 (the gap marker) in word 0; bits for the 16 letters (65..=89) in word 1
    let xx: u64 = x as u64;
    let lut: [u64; 4] = [0x2000_0000_0000, 0x02fc_699e, 0, 0];
    proof {
        assert(xx < 256 ==> (xx >> 6) < 4) by (bit_vector);
    }
    let word: u64 = lut[(xx >> 6) as usize];
    proof {
        assert((xx & 63) < 64) by (bit_vector);
    }
    let r = (word >> (xx & 63)) & 1 == 1;
    proof {
        assert(xx < 64 ==> (xx >> 6) == 0) by (bit_vector);
        assert(64 <= xx < 128 ==> (xx >> 6) == 1) by (bit_vector);
        assert(128 <= xx < 256 ==> (xx >> 6) >= 2) by (bit_vector);
        assert(xx < 64 ==> (((0x2000_0000_0000u64 >> (xx & 63)) & 1 == 1) <==> xx == 45))
            by (bit_vector);
        assert(64 <= xx < 128 ==> (((0x02fc_699eu64 >> (xx & 63)) & 1 == 1) <==> (xx == 65
            || xx == 66 || xx == 67 || xx == 68 || xx == 71 || xx == 72 || xx == 75 || xx == 77
            || xx == 78 || xx == 82 || xx == 83 || xx == 84 || xx == 85 || xx == 86 || xx == 87
            || xx == 89))) by (bit_vector);
        assert((0u64 >> (xx & 63)) & 1 == 0) by (bit_vector);
    }
    r
}

} // verus!
