//! Append-only per-region output of resolved lines.

use vstd::prelude::*;
use crate::geom::Coord;

verus! {

/// The ordered record sequence of one region's output: each record is the
/// full coordinate sequence of one resolved way, in resolution order. The
/// persistent encoding of these records is outside the library; this type is
/// the exact content and order the encoder receives.
#[derive(Clone, Debug)]
pub struct ShapeSink {
    pub records: Vec<Vec<Coord>>,
}

impl View for ShapeSink {
    type V = Seq<Seq<Coord>>;

    open spec fn view(&self) -> Seq<Seq<Coord>> {
        self.records@.map_values(|line: Vec<Coord>| line@)
    }
}

impl ShapeSink {
    /// A freshly opened sink holds no records.
    pub fn new() -> (s: ShapeSink)
        ensures
            s@ == Seq::<Seq<Coord>>::empty(),
    {
        let s = ShapeSink { records: Vec::new() };
        proof {
            assert(s@ =~= Seq::<Seq<Coord>>::empty());
        }
        s
    }

    /// Appends one line record; earlier records are untouched.
    pub fn append(&mut self, line: Vec<Coord>)
        ensures
            final(self)@ == old(self)@.push(line@),
    {
        let ghost before = self@;
        let ghost line_view = line@;
        self.records.push(line);
        proof {
            assert(self@ =~= before.push(line_view));
        }
    }

    /// How many records have been appended.
    pub fn len(&self) -> (n: usize)
        ensures
            n == self@.len(),
    {
        self.records.len()
    }
}

} // verus!
