use vstd::prelude::*;

use crate::molecule::Molecule;

verus! {

/// Population counts over time: one column per species, the species of
/// identity `i` in column `i`, and a last column for the timestep.
#[derive(Debug, Clone)]
pub struct ValueBoard {
    pub rows: Vec<Vec<usize>>,
    pub columns: Vec<String>,
}

pub open spec fn of_species(u: int) -> spec_fn(Molecule) -> bool {
    |m: Molecule| m.kind.uuid == u
}

/// How many molecules of `s` belong to the species of identity `u`.
pub open spec fn species_count(s: Seq<Molecule>, u: int) -> nat {
    s.filter(of_species(u)).len()
}

/// The row for `mols` at `time`: the count of each of the first `n`
/// species, then the time.
pub open spec fn census(mols: Seq<Molecule>, n: int, time: usize) -> Seq<usize> {
    Seq::new(n as nat, |i: int| species_count(mols, i) as usize).push(time)
}

/// The comma-separated rendering of one row, as itertools' `join` writes it.
pub uninterp spec fn row_joined(row: Seq<usize>) -> Seq<char>;

/// The comma-separated rendering of the header, as `join` on string slices
/// writes it.
pub uninterp spec fn names_joined(names: Seq<Seq<char>>) -> Seq<char>;

/// The header, then each row on a line of its own.
pub open spec fn csv_text(names: Seq<Seq<char>>, rows: Seq<Seq<usize>>) -> Seq<char>
    decreases rows.len(),
{
    if rows.len() == 0 {
        names_joined(names)
    } else {
        csv_text(names, rows.drop_last()) + seq!['\n'] + row_joined(rows.last())
    }
}

/// Relies on itertools::Itertools::join: the numbers of the row written in
/// decimal, separated by ", ".
#[verifier::external_body]
fn join_row(row: &Vec<usize>) -> (r: String)
    ensures
        r@ == row_joined(row@),
{
    itertools::Itertools::join(&mut row.iter(), ", ")
}

/// Relies on std's `join` on a slice of strings: the names separated by ", ".
#[verifier::external_body]
fn join_names(names: &Vec<String>) -> (r: String)
    ensures
        r@ == names_joined(names@.map_values(|s: String| s@)),
{
    names.join(", ")
}

impl ValueBoard {
    /// An empty board with the given species names and a last column named
    /// `time`.
    pub fn new(species: Vec<String>) -> (r: ValueBoard)
        ensures
            r.rows@.len() == 0,
            r.columns@.len() == species@.len() + 1,
            forall|i: int| 0 <= i < species@.len() ==> #[trigger] r.columns@[i] == species@[i],
            r.columns@.last()@ == "time"@,
    {
        let mut columns = species;
        columns.push(String::from_str("time"));
        ValueBoard { rows: Vec::new(), columns }
    }

    /// Appends the count of each species among `mols`, followed by `time`.
    pub fn add_entry(&mut self, mols: &Vec<Molecule>, time: usize)
        requires
            old(self).columns@.len() >= 1,
        ensures
            final(self).columns == old(self).columns,
            final(self).rows@.len() == old(self).rows@.len() + 1,
            forall|k: int|
                0 <= k < old(self).rows@.len() ==> #[trigger] final(self).rows@[k] == old(
                    self,
                ).rows@[k],
            final(self).rows@.last()@ == census(mols@, old(self).columns@.len() - 1, time),
    {
        let species = self.columns.len() - 1;
        let mut row: Vec<usize> = Vec::new();
        let mut i: usize = 0;
        while i < species
            invariant
                i <= species,
                row@ == Seq::new(i as nat, |k: int| species_count(mols@, k) as usize),
            decreases species - i,
        {
            let mut count: usize = 0;
            let mut k: usize = 0;
            while k < mols.len()
                invariant
                    k <= mols@.len(),
                    count == species_count(mols@.subrange(0, k as int), i as int),
                decreases mols@.len() - k,
            {
                proof {
                    let pre = mols@.subrange(0, k as int);
                    assert(mols@.subrange(0, k + 1) == pre.push(mols@[k as int]));
                    pre.lemma_filter_push(mols@[k as int], of_species(i as int));
                    pre.lemma_filter_len(of_species(i as int));
                }
                if mols[k].kind.uuid == i as u64 {
                    count = count + 1;
                }
                k = k + 1;
            }
            assert(mols@.subrange(0, mols@.len() as int) == mols@);
            row.push(count);
            i = i + 1;
            assert(row@ =~= Seq::new(i as nat, |k: int| species_count(mols@, k) as usize));
        }
        row.push(time);
        self.rows.push(row);
    }

    /// The board as comma-separated text: the header line, then one line per
    /// row.
    pub fn convert_to_csv(&self) -> (r: String)
        ensures
            r@ == csv_text(
                self.columns@.map_values(|s: String| s@),
                self.rows@.map_values(|row: Vec<usize>| row@),
            ),
    {
        let ghost names = self.columns@.map_values(|s: String| s@);
        let ghost rows = self.rows@.map_values(|row: Vec<usize>| row@);
        let mut csv = join_names(&self.columns);
        let mut i: usize = 0;
        while i < self.rows.len()
            invariant
                i <= self.rows@.len(),
                rows == self.rows@.map_values(|row: Vec<usize>| row@),
                csv@ == csv_text(names, rows.subrange(0, i as int)),
            decreases self.rows@.len() - i,
        {
            let line = join_row(&self.rows[i]);
            csv = csv.concat("\n");
            csv = csv.concat(line.as_str());
            proof {
                reveal_strlit("\n");
                assert(rows.subrange(0, i + 1).drop_last() == rows.subrange(0, i as int));
            }
            i = i + 1;
        }
        assert(rows.subrange(0, rows.len() as int) == rows);
        csv
    }
}

} // verus!
