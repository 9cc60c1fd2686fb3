use vstd::prelude::*;

use crate::runner::BenchmarkResult;

verus! {

/// What a group of measurements varies.
#[derive(Clone, Copy, Debug, PartialEq, Eq, Structural)]
pub enum Dimension {
    /// Time per run against the cache size.
    CacheSize,
    /// Time per run against the number of accesses, with and without a cache.
    AccessCount,
    /// Hits and misses after one sweep against the cache size.
    HitMissRatio,
}

/// The settings that a report was measured under.
#[derive(Clone, Copy, Debug, PartialEq, Eq, Structural)]
pub struct Parameters {
    pub key_count: u64,
    pub access_count: u64,
    pub measurement_rounds: u64,
}

/// One recorded round, kept as measured.
pub struct Measurement {
    pub dimension: Dimension,
    pub test_name: String,
    pub parameter: u64,
    pub elapsed_micros: u64,
    pub hits: u64,
    pub misses: u64,
}

/// Whether a measurement belongs to the group of `dimension`, test `name` and `parameter`.
pub open spec fn in_group(m: Measurement, dimension: Dimension, name: Seq<char>, parameter: u64) -> bool {
    m.dimension == dimension && m.test_name@ == name && m.parameter == parameter
}

/// All measurements in the order they were recorded, with the parameters of
/// the whole run. Groups (dimension, test, parameter) are read back by query.
pub struct Report {
    parameters: Parameters,
    records: Vec<Measurement>,
}

impl Report {
    pub closed spec fn records(&self) -> Seq<Measurement> {
        self.records@
    }

    pub closed spec fn params(&self) -> Parameters {
        self.parameters
    }

    /// An empty report for a run under `parameters`.
    pub fn new(parameters: Parameters) -> (r: Report)
        ensures
            r.records().len() == 0,
            r.params() == parameters,
    {
        Report { parameters, records: Vec::new() }
    }

    /// Appends one round's result under `dimension`, unchanged.
    pub fn record(&mut self, dimension: Dimension, result: BenchmarkResult)
        ensures
            final(self).params() == old(self).params(),
            final(self).records().len() == old(self).records().len() + 1,
            final(self).records().drop_last() == old(self).records(),
            ({
                let m = final(self).records().last();
                &&& m.dimension == dimension
                &&& m.test_name@ == result.test_name@
                &&& m.parameter == result.parameter
                &&& m.elapsed_micros == result.elapsed_micros
                &&& m.hits == result.hits
                &&& m.misses == result.misses
            }),
    {
        let ghost before = self.records@;
        self.records.push(
            Measurement {
                dimension,
                test_name: result.test_name,
                parameter: result.parameter,
                elapsed_micros: result.elapsed_micros,
                hits: result.hits,
                misses: result.misses,
            },
        );
        assert(self.records@.drop_last() =~= before);
    }

    /// The parameters of the run.
    pub fn parameters(&self) -> (r: Parameters)
        ensures
            r == self.params(),
    {
        self.parameters
    }

    /// The number of recorded rounds.
    pub fn len(&self) -> (r: usize)
        ensures
            r == self.records().len(),
    {
        self.records.len()
    }

    /// The round recorded `i`-th.
    pub fn measurement(&self, i: usize) -> (r: &Measurement)
        requires
            i < self.records().len(),
        ensures
            *r == self.records()[i as int],
    {
        &self.records[i]
    }

    /// The positions of the rounds of one group, in the order recorded.
    pub fn rounds_of(&self, dimension: Dimension, test_name: &String, parameter: u64) -> (r: Vec<usize>)
        ensures
            forall|k: int| 0 <= k < r@.len() ==> #[trigger] r@[k] < self.records().len()
                && in_group(self.records()[r@[k] as int], dimension, test_name@, parameter),
            forall|k: int, l: int| 0 <= k < l < r@.len() ==> r@[k] < r@[l],
            forall|i: int| 0 <= i < self.records().len() && #[trigger] in_group(self.records()[i], dimension, test_name@, parameter)
                ==> r@.contains(i as usize),
    {
        let mut found: Vec<usize> = Vec::new();
        let mut i: usize = 0;
        while i < self.records.len()
            invariant
                i <= self.records().len(),
                forall|k: int| 0 <= k < found@.len() ==> #[trigger] found@[k] < i
                    && in_group(self.records()[found@[k] as int], dimension, test_name@, parameter),
                forall|k: int, l: int| 0 <= k < l < found@.len() ==> found@[k] < found@[l],
                forall|j: int| 0 <= j < i && #[trigger] in_group(self.records()[j], dimension, test_name@, parameter)
                    ==> found@.contains(j as usize),
            decreases self.records().len() - i,
        {
            let m = &self.records[i];
            if m.dimension == dimension && m.parameter == parameter && m.test_name.eq(test_name) {
                let ghost before = found@;
                found.push(i);
                assert forall|j: int| 0 <= j < i + 1 && #[trigger] in_group(self.records()[j], dimension, test_name@, parameter)
                    implies found@.contains(j as usize) by {
                    if j < i {
                        let k = choose|k: int| 0 <= k < before.len() && before[k] == j as usize;
                        assert(found@[k] == j as usize);
                    } else {
                        assert(found@[before.len() as int] == i);
                    }
                }
            }
            i += 1;
        }
        found
    }
}

} // verus!
