//! Texts of the cell values whose rendering is left to the caller: floating
//! point numbers.

use vstd::prelude::*;

verus! {

/// A cell value that has no rendering of its own here. Its text is that of the
/// number as a double, in the shortest decimal form that reads back as it,
/// without an exponent.
#[derive(Debug, Clone, Copy, PartialEq, Eq, Structural)]
pub enum CellKey {
    /// The bits of a finite single-precision number.
    Single(u32),
    /// The bits of a finite double-precision number.
    Double(u64),
}

/// The texts supplied so far, by cell value.
pub struct CellTexts {
    entries: Vec<(CellKey, Vec<u8>)>,
}

/// The first text that `entries` holds for `key`.
pub open spec fn lookup_text(entries: Seq<(CellKey, Seq<u8>)>, key: CellKey) -> Option<Seq<u8>>
    decreases entries.len(),
{
    if entries.len() == 0 {
        None
    } else if entries.last().0 == key {
        Some(entries.last().1)
    } else {
        lookup_text(entries.drop_last(), key)
    }
}

impl View for CellTexts {
    type V = Seq<(CellKey, Seq<u8>)>;

    closed spec fn view(&self) -> Seq<(CellKey, Seq<u8>)> {
        self.entries@.map_values(|e: (CellKey, Vec<u8>)| (e.0, e.1@))
    }
}

impl CellTexts {
    /// No text supplied yet.
    pub fn new() -> (out: Self)
        ensures
            out@ == Seq::<(CellKey, Seq<u8>)>::empty(),
    {
        let out = CellTexts { entries: Vec::new() };
        assert(out@ =~= Seq::<(CellKey, Seq<u8>)>::empty());
        out
    }

    /// Supply the text of `key`; the latest text of a key counts.
    pub fn supply(&mut self, key: CellKey, text: Vec<u8>)
        ensures
            final(self)@ == old(self)@.push((key, text@)),
            lookup_text(final(self)@, key) == Some(text@),
    {
        self.entries.push((key, text));
        proof {
            assert(self@ =~= old(self)@.push((key, text@)));
            assert(self@.last() == (key, text@));
        }
    }

    /// The text of `key`, where it has been supplied.
    pub fn get(&self, key: CellKey) -> (out: Option<Vec<u8>>)
        ensures
            match out {
                Some(t) => lookup_text(self@, key) == Some(t@),
                None => lookup_text(self@, key) is None,
            },
    {
        let mut n: usize = self.entries.len();
        proof {
            assert(self@.take(n as int) =~= self@);
        }
        while n > 0
            invariant
                n <= self.entries.len(),
                self@.len() == self.entries.len(),
                lookup_text(self@.take(n as int), key) == lookup_text(self@, key),
            decreases n,
        {
            let entry = &self.entries[n - 1];
            proof {
                let s = self@.take(n as int);
                assert(s.last() == (entry.0, entry.1@));
                assert(s.drop_last() =~= self@.take(n - 1));
            }
            if entry.0 == key {
                return Some(vstd::slice::slice_to_vec(entry.1.as_slice()));
            }
            n -= 1;
        }
        None
    }
}

} // verus!
