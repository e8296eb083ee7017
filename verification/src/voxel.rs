//! Voxel-grid support: the dimensions record and the textual encoding
//! of voxel data, one decimal value per line, as the SPN format wants
//! it. Reading the source grid and writing the file are the callers'
//! business; the encoding itself is verified here.

use vstd::prelude::*;

verus! {

/// The dimensions of a voxel grid along its three axes.
#[derive(Debug, Clone, Copy, PartialEq, Eq, Structural)]
pub struct VoxelDimensions {
    pub x: usize,
    pub y: usize,
    pub z: usize,
}

/// The ASCII digit for a value below ten.
pub open spec fn digit_char(d: u8) -> u8 {
    (d + 48) as u8
}

/// The shortest decimal numeral of a byte, as ASCII digits.
pub open spec fn decimal_of(n: u8) -> Seq<u8> {
    if n >= 100 {
        seq![digit_char((n / 100) as u8), digit_char(((n / 10) % 10) as u8), digit_char((n % 10) as u8)]
    } else if n >= 10 {
        seq![digit_char((n / 10) as u8), digit_char((n % 10) as u8)]
    } else {
        seq![digit_char(n)]
    }
}

/// The SPN text for a sequence of voxel values: each value's decimal
/// numeral on a line of its own.
pub open spec fn spec_spn_text(s: Seq<u8>) -> Seq<u8>
    decreases s.len(),
{
    if s.len() == 0 {
        Seq::<u8>::empty()
    } else {
        spec_spn_text(s.drop_last()) + decimal_of(s.last()) + seq![10u8]
    }
}

/// The shortest decimal numeral of one byte, as ASCII digits.
fn push_decimal(out: &mut Vec<u8>, n: u8)
    ensures
        final(out)@ == old(out)@ + decimal_of(n),
{
    if n >= 100 {
        out.push(n / 100 + 48);
        out.push((n / 10) % 10 + 48);
        out.push(n % 10 + 48);
        proof {
            assert(out@ =~= old(out)@ + decimal_of(n));
        }
    } else if n >= 10 {
        out.push(n / 10 + 48);
        out.push(n % 10 + 48);
        proof {
            assert(out@ =~= old(out)@ + decimal_of(n));
        }
    } else {
        out.push(n + 48);
        proof {
            assert(out@ =~= old(out)@ + decimal_of(n));
        }
    }
}

/// Encodes flattened voxel data as SPN text: the decimal numeral of
/// each value, in order, one per line.
pub fn spn_text(data: &Vec<u8>) -> (out: Vec<u8>)
    ensures
        out@ == spec_spn_text(data@),
{
    let mut out: Vec<u8> = Vec::new();
    let mut i: usize = 0;
    while i < data.len()
        invariant
            i <= data.len(),
            out@ == spec_spn_text(data@.take(i as int)),
        decreases data.len() - i,
    {
        push_decimal(&mut out, data[i]);
        out.push(10);
        proof {
            assert(data@.take(i as int + 1).drop_last() =~= data@.take(i as int));
            assert(out@ =~= spec_spn_text(data@.take(i as int + 1)));
        }
        i += 1;
    }
    proof {
        assert(data@.take(data@.len() as int) =~= data@);
    }
    out
}

} // verus!
