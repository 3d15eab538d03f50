use vstd::prelude::*;

verus! {

/// The ports that a run reads from and writes to: an output `o` and an
/// input `i`.
pub struct InOuter<W, R> {
    pub o: W,
    pub i: R,
}

impl<W, R> InOuter<W, R> {
    pub fn new(o: W, i: R) -> (r: Self)
        ensures
            r.o == o,
            r.i == i,
    {
        InOuter { o, i }
    }

    /// Gives the two ports back: output, then input.
    pub fn extract(self) -> (r: (W, R))
        ensures
            r.0 == self.o,
            r.1 == self.i,
    {
        let InOuter { o, i } = self;
        (o, i)
    }
}

} // verus!
