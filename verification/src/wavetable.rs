//! The one-cycle lookup table: a fixed sequence of Q16.16 sample values,
//! immutable once built, read modulo its length.

use vstd::prelude::*;
use vstd::arithmetic::div_mod::lemma_mod_add_multiples_vanish;

verus! {

/// Largest table length the oscillator arithmetic supports.
pub const MAX_TABLE_LEN: usize = 65536;

/// Why a table could not be built.
#[derive(Clone, Copy, PartialEq, Eq, Structural, Debug)]
pub enum ConfigError {
    /// Fewer than two samples: no segment to interpolate over.
    TableTooShort,
}

/// One full period of a waveform, as Q16.16 samples (65536 stands for 1.0).
pub struct WaveTable {
    samples: Vec<i32>,
}

impl WaveTable {
    /// The table is usable: at least two samples, and few enough that a
    /// phase scaled by `FP` fits comfortably in a `u64`.
    pub open spec fn well_formed(self) -> bool {
        2 <= self.samples().len() <= MAX_TABLE_LEN
    }

    /// The sample sequence the table holds.
    pub closed spec fn samples(self) -> Seq<i32> {
        self.samples@
    }

    /// The value at integer index `i`, taken modulo the length.
    pub open spec fn value_at_spec(self, i: int) -> i32
        recommends
            self.samples().len() > 0,
    {
        self.samples()[i % self.samples().len() as int]
    }

    /// Builds a table from precomputed samples.
    /// Fails only when fewer than two samples are given.
    pub fn new(samples: Vec<i32>) -> (r: Result<WaveTable, ConfigError>)
        requires
            samples@.len() <= MAX_TABLE_LEN,
        ensures
            samples@.len() >= 2 ==> (r matches Ok(t) && t.samples() == samples@
                && t.well_formed()),
            samples@.len() < 2 ==> r == Result::<WaveTable, ConfigError>::Err(
                ConfigError::TableTooShort),
    {
        if samples.len() < 2 {
            Err(ConfigError::TableTooShort)
        } else {
            Ok(WaveTable { samples })
        }
    }

    /// Number of samples in one period.
    pub fn len(&self) -> (n: usize)
        ensures
            n == self.samples().len(),
    {
        self.samples.len()
    }

    /// The sample at `index`, taken modulo the length.
    pub fn value_at(&self, index: usize) -> (v: i32)
        requires
            self.samples().len() > 0,
        ensures
            v == self.value_at_spec(index as int),
    {
        let n = self.samples.len();
        self.samples[index % n]
    }

    /// The table is periodic: reading one whole period further lands on the
    /// same sample.
    pub proof fn lemma_periodic(self, i: int)
        requires
            self.samples().len() > 0,
        ensures
            self.value_at_spec(i + self.samples().len()) == self.value_at_spec(i),
    {
        let n = self.samples().len() as int;
        lemma_mod_add_multiples_vanish(i, n);
    }
}

} // verus!
