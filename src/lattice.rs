use vstd::prelude::*;

verus! {

/// Which of a two-color pattern's colors a lattice cell shows.
#[derive(PartialEq, Eq, Structural, Clone, Copy, Debug)]
pub enum Band {
    First,
    Second,
}

/// Cells alternate between the two colors, starting with the first at zero.
pub open spec fn band_of(cell: int) -> Band {
    if cell % 2 == 0 {
        Band::First
    } else {
        Band::Second
    }
}

/// Band of a stripe or ring pattern, given the lattice index along its axis
/// (`|floor(x)|` for stripes, `floor(sqrt(x² + z²))` for rings).
pub fn band(cell: u64) -> (r: Band)
    ensures
        r == band_of(cell as int),
{
    if cell % 2 == 0 {
        Band::First
    } else {
        Band::Second
    }
}

/// Band of a checkers pattern, given the lattice indices `|floor(x)|`,
/// `|floor(y)|` and `|floor(z)|`: cells whose indices sum to an even number
/// show the first color.
pub fn checkers_band(cx: u64, cy: u64, cz: u64) -> (r: Band)
    ensures
        r == band_of(cx + cy + cz),
{
    let parity = (cx % 2 + cy % 2 + cz % 2) % 2;
    proof {
        assert((cx + cy + cz) % 2 == ((cx % 2 + cy % 2 + cz % 2) % 2) as int) by (nonlinear_arith);
    }
    band(parity)
}

} // verus!
