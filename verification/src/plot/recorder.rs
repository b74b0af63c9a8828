//! A sink that keeps every emission it receives.

use vstd::prelude::*;

use crate::plot::coverage::Coverage;
use crate::plot::{absorb, Emission, Plotter};

verus! {

/// One recorded emission.
#[derive(Clone, Copy, Debug, PartialEq, Eq, Structural)]
pub struct Pixel {
    pub x: i64,
    pub y: i64,
    pub coverage: Coverage,
}

impl View for Pixel {
    type V = Emission;

    open spec fn view(&self) -> Emission {
        Emission { x: self.x as int, y: self.y as int, coverage: self.coverage }
    }
}

/// A sink of a given size that records, in order, every emission handed to it,
/// inside its bounds or not.
pub struct Recorder {
    width: u32,
    height: u32,
    pixels: Vec<Pixel>,
}

impl View for Recorder {
    type V = Seq<Emission>;

    closed spec fn view(&self) -> Seq<Emission> {
        self.pixels@.map_values(|p: Pixel| p@)
    }
}

impl Recorder {
    /// An empty recorder of the given size.
    pub fn new(width: u32, height: u32) -> (r: Recorder)
        ensures
            r@ == Seq::<Emission>::empty(),
            r.size() == (width, height),
    {
        let r = Recorder { width, height, pixels: Vec::new() };
        assert(r@ =~= Seq::<Emission>::empty());
        r
    }

    /// The emissions received so far, oldest first.
    pub fn pixels(&self) -> (r: &Vec<Pixel>)
        ensures
            r@.len() == self@.len(),
            forall|i: int| 0 <= i < r@.len() ==> (#[trigger] r@[i])@ == self@[i],
    {
        &self.pixels
    }

    /// How many emissions were received.
    pub fn len(&self) -> (n: usize)
        ensures
            n == self@.len(),
    {
        self.pixels.len()
    }
}

impl Plotter for Recorder {
    type Model = Seq<Emission>;

    open spec fn model(&self) -> Seq<Emission> {
        self@
    }

    open spec fn blend(model: Seq<Emission>, e: Emission) -> Seq<Emission> {
        model.push(e)
    }

    open spec fn inv(&self) -> bool {
        true
    }

    closed spec fn size(&self) -> (u32, u32) {
        (self.width, self.height)
    }

    fn width(&self) -> (w: u32) {
        self.width
    }

    fn height(&self) -> (h: u32) {
        self.height
    }

    fn draw_pixel(&mut self, x: i64, y: i64, alpha: Coverage) {
        self.pixels.push(Pixel { x, y, coverage: alpha });
        assert(self@ =~= old(self)@.push(Emission { x: x as int, y: y as int, coverage: alpha }));
    }
}

/// What a recorder holds after a sequence of emissions is what it held
/// before, followed by the sequence.
pub proof fn lemma_recorder_absorb(model: Seq<Emission>, es: Seq<Emission>)
    ensures
        absorb::<Recorder>(model, es) == model + es,
    decreases es.len(),
{
    if es.len() == 0 {
        assert(model + es =~= model);
    } else {
        lemma_recorder_absorb(model, es.drop_last());
        assert((model + es.drop_last()).push(es.last()) =~= model + es);
    }
}

} // verus!
