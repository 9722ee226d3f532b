//! The single point that receives the answer of every batch.
//!
//! Workers finish in any order. The collector counts what arrives, keeps the
//! answers in the order of arrival and remembers the first failure. The run
//! goes on only when as many answers have arrived as batches were handed out.

use crate::chars::{DecodeFailure, UnescapeError};
use vstd::prelude::*;

verus! {

/// The state of the collecting point.
pub struct Collector {
    expected: usize,
    seen: usize,
    results: Vec<Vec<String>>,
    failure: Option<UnescapeError>,
}

/// What one batch answered, as a mathematical value.
pub open spec fn outcome_view(outcome: Result<Vec<String>, UnescapeError>) -> Result<
    Seq<Seq<char>>,
    DecodeFailure,
> {
    match outcome {
        Ok(paths) => Ok(paths.deep_view()),
        Err(e) => Err(e@),
    }
}

impl Collector {
    /// The number of batches that were handed out.
    pub closed spec fn expected(&self) -> nat {
        self.expected as nat
    }

    /// The number of answers that have arrived.
    pub closed spec fn seen(&self) -> nat {
        self.seen as nat
    }

    /// The answers of the batches that succeeded, in the order of arrival.
    pub closed spec fn results(&self) -> Seq<Seq<Seq<char>>> {
        self.results.deep_view()
    }

    /// The failure that arrived first, if any did.
    pub closed spec fn failure(&self) -> Option<DecodeFailure> {
        match self.failure {
            Some(e) => Some(e@),
            None => None,
        }
    }

    /// No more answers have arrived than batches were handed out, and every
    /// answer is accounted for: it is among the results, or a failure is
    /// recorded.
    pub closed spec fn wf(&self) -> bool {
        &&& self.seen <= self.expected
        &&& self.results.len() <= self.seen
        &&& self.failure is None ==> self.results.len() == self.seen
    }

    /// Every batch has answered.
    pub open spec fn complete(&self) -> bool {
        self.seen() == self.expected()
    }

    /// A collector that waits for the answers of `expected` batches.
    pub fn new(expected: usize) -> (collector: Collector)
        ensures
            collector.wf(),
            collector.expected() == expected,
            collector.seen() == 0,
            collector.results() == Seq::<Seq<Seq<char>>>::empty(),
            collector.failure() is None,
    {
        let collector = Collector { expected, seen: 0, results: Vec::new(), failure: None };
        assert(collector.results.deep_view() =~= Seq::<Seq<Seq<char>>>::empty());
        collector
    }

    /// Whether every batch has answered.
    pub fn is_complete(&self) -> (done: bool)
        requires
            self.wf(),
        ensures
            done == self.complete(),
    {
        self.seen == self.expected
    }

    /// Takes in the answer of one more batch.
    ///
    /// A successful answer is added behind those that came before. Of the
    /// failures only the first is kept.
    pub fn accept(&mut self, outcome: Result<Vec<String>, UnescapeError>)
        requires
            old(self).wf(),
            !old(self).complete(),
        ensures
            final(self).wf(),
            final(self).expected() == old(self).expected(),
            final(self).seen() == old(self).seen() + 1,
            match outcome_view(outcome) {
                Ok(paths) => {
                    &&& final(self).results() == old(self).results().push(paths)
                    &&& final(self).failure() == old(self).failure()
                },
                Err(failure) => {
                    &&& final(self).results() == old(self).results()
                    &&& final(self).failure() == if old(self).failure() is Some {
                        old(self).failure()
                    } else {
                        Some(failure)
                    }
                },
            },
    {
        self.seen = self.seen + 1;
        match outcome {
            Ok(paths) => {
                let ghost before = self.results.deep_view();
                self.results.push(paths);
                assert(self.results.deep_view() =~= before.push(paths.deep_view()));
            },
            Err(e) => {
                if self.failure.is_none() {
                    self.failure = Some(e);
                }
            },
        }
    }

    /// The outcome of the run, once every batch has answered: the first
    /// failure where a batch failed, else the answers of all batches.
    pub fn finish(self) -> (r: Result<Vec<Vec<String>>, UnescapeError>)
        requires
            self.wf(),
            self.complete(),
        ensures
            match r {
                Ok(results) => {
                    &&& self.failure() is None
                    &&& results.deep_view() == self.results()
                    &&& results.len() == self.expected()
                },
                Err(e) => self.failure() == Some(e@),
            },
    {
        match self.failure {
            Some(e) => Err(e),
            None => Ok(self.results),
        }
    }
}

} // verus!
