use vstd::prelude::*;

verus! {

/// An RGBA colour, one byte per channel.
#[derive(Clone, Copy, Debug, PartialEq, Eq, Hash, Structural)]
pub struct ResolvedColor {
    pub red: u8,
    pub green: u8,
    pub blue: u8,
    pub alpha: u8,
}

impl ResolvedColor {
    /// The colour of the bytes `[red, green, blue, alpha]`.
    pub fn from_bytes(bytes: [u8; 4]) -> (r: ResolvedColor)
        ensures
            r.red == bytes[0],
            r.green == bytes[1],
            r.blue == bytes[2],
            r.alpha == bytes[3],
    {
        ResolvedColor { red: bytes[0], green: bytes[1], blue: bytes[2], alpha: bytes[3] }
    }

    /// The bytes `[red, green, blue, alpha]`.
    pub fn as_bytes(&self) -> (r: [u8; 4])
        ensures
            r@ == seq![self.red, self.green, self.blue, self.alpha],
    {
        let r = [self.red, self.green, self.blue, self.alpha];
        assert(r@ =~= seq![self.red, self.green, self.blue, self.alpha]);
        r
    }
}

/// The multiplier that spreads the first component of a pair.
pub const PAIR_SPREAD: usize = 1073741827;

/// Combines two numbers into one seed: `1073741827 * x + y`, wrapping at the
/// width of `usize`.
pub fn hash_pair(x: usize, y: usize) -> (r: usize)
    ensures
        r == (PAIR_SPREAD * x + y) % (usize::MAX + 1),
{
    assert(PAIR_SPREAD * x <= PAIR_SPREAD * usize::MAX) by (nonlinear_arith)
        requires
            x <= usize::MAX,
    ;
    let s = PAIR_SPREAD as u128 * x as u128 + y as u128;
    (s % (usize::MAX as u128 + 1)) as usize
}

} // verus!
