//! A session as a host drives it: dimensions and seed first, the rules
//! later, then the solve, and the grid on request.
use vstd::prelude::*;
use vstd::string::StringExecFns;
use crate::error::WfcError;
use crate::grid::{positive, readout};
use crate::model::{named, obeys, obeys_one_way, ruleless, symmetric, tiling, Model};
use crate::ruleset::{refused_with, rules_of, texts, tiles_of, Rule, RuleSet, TileInfo};

verus! {

/// What a session refuses.
#[derive(Debug)]
pub enum HostError {
    /// The solve was asked for before any rules were loaded.
    NotInitialized,
    /// The grid was asked for without a successful solve.
    NoGrid,
    /// An error of the solver.
    Solver(WfcError),
}

impl HostError {
    /// The message of the error.
    pub open spec fn spec_message(&self) -> Seq<char> {
        match self {
            HostError::NotInitialized => "Model not initialized. Call load_rules() first."@,
            HostError::NoGrid => "No generated grid available. Run successfully first."@,
            HostError::Solver(e) => e.spec_message(),
        }
    }

    /// The message of the error, as a person would read it.
    pub fn message(&self) -> (r: String)
        ensures
            r@ == self.spec_message(),
    {
        match self {
            HostError::NotInitialized => String::from_str(
                "Model not initialized. Call load_rules() first.",
            ),
            HostError::NoGrid => String::from_str(
                "No generated grid available. Run successfully first.",
            ),
            HostError::Solver(e) => e.message(),
        }
    }
}

/// A session: the dimensions and the seed, the model once rules are loaded,
/// and the grid of the last successful solve.
#[derive(Debug)]
pub struct WfcModel {
    model: Option<Model>,
    width: usize,
    height: usize,
    seed: Option<u64>,
    result: Option<Vec<String>>,
}

impl WfcModel {
    /// Whether rules are loaded.
    pub closed spec fn loaded(&self) -> bool {
        self.model is Some
    }

    /// The model of a session with rules.
    pub closed spec fn model(&self) -> Model {
        self.model->0
    }

    /// The grid of the last successful solve, if there is one.
    pub closed spec fn grid(&self) -> Option<Seq<Seq<char>>> {
        match self.result {
            Some(v) => Some(texts(v@)),
            None => None,
        }
    }

    /// The number of columns and of rows.
    pub closed spec fn dimensions(&self) -> (usize, usize) {
        (self.width, self.height)
    }

    /// The seed that models of the session are made with.
    pub closed spec fn seed(&self) -> Option<u64> {
        self.seed
    }

    /// The dimensions are within bounds, and the model, if there is one, is
    /// well-formed and has them.
    pub closed spec fn wf(&self) -> bool {
        &&& 1 <= self.width <= 500
        &&& 1 <= self.height <= 500
        &&& self.model is Some ==> {
            &&& self.model->0.wf()
            &&& self.model->0.setting().width == self.width
            &&& self.model->0.setting().height == self.height
        }
    }

    /// A session of the given dimensions, without rules and without a grid.
    pub fn new(width: usize, height: usize, seed: Option<u64>) -> (r: Result<WfcModel, WfcError>)
        ensures
            match r {
                Ok(m) => {
                    &&& 1 <= width <= 500
                    &&& 1 <= height <= 500
                    &&& m.wf()
                    &&& !m.loaded()
                    &&& m.grid() is None
                    &&& m.dimensions() == (width, height)
                    &&& m.seed() == seed
                },
                Err(WfcError::InvalidDimensions { width: w, height: h }) => {
                    &&& width == 0 || height == 0 || width > 500 || height > 500
                    &&& w == width
                    &&& h == height
                },
                Err(_) => false,
            },
    {
        if width == 0 || height == 0 || width > 500 || height > 500 {
            return Err(WfcError::InvalidDimensions { width, height });
        }
        Ok(WfcModel { model: None, width, height, seed, result: None })
    }

    /// Loads the rules that the lists of tiles and rules declare, and makes
    /// a fresh model over them; the grid of an earlier solve is dropped.
    /// Lists that `RuleSet::from_entries` refuses are refused with its error,
    /// and the session stays as it was.
    pub fn load_rules(&mut self, tiles: Vec<TileInfo>, rules: Vec<Rule>) -> (r: Result<
        (),
        WfcError,
    >)
        requires
            old(self).wf(),
        ensures
            final(self).wf(),
            final(self).dimensions() == old(self).dimensions(),
            final(self).seed() == old(self).seed(),
            match r {
                Ok(()) => {
                    &&& final(self).loaded()
                    &&& final(self).grid() is None
                    &&& final(self).model().rule_set()@.tiles == tiles_of(tiles@)
                    &&& final(self).model().rule_set()@.adjacency == rules_of(rules@)
                    &&& forall|p: int|
                        0 <= p < final(self).model().setting().cells() ==> !(
                        #[trigger] final(self).model().state()[p]).collapsed
                    &&& forall|p: int|
                        0 <= p < final(self).model().setting().cells() ==> #[trigger] final(self).model().possible(p) == tiles_of(tiles@).dom()
                },
                Err(e) => *final(self) == *old(self) && refused_with(tiles@, rules@, e),
            },
    {
        let rule_set = match RuleSet::from_entries(tiles, rules) {
            Ok(rs) => rs,
            Err(e) => {
                return Err(e);
            },
        };
        match Model::new(self.width, self.height, rule_set, self.seed) {
            Ok(model) => {
                self.model = Some(model);
                self.result = None;
                Ok(())
            },
            Err(e) => Err(e),
        }
    }

    /// Solves the model of the session with `score`, as `Model::run` does,
    /// and keeps the grid. Returns whether the solve succeeded; a
    /// contradiction is no error here, and drops the grid of an earlier
    /// solve. A session without rules refuses, and stays as it was.
    ///
    /// The solve succeeds where every weight is positive and some
    /// assignment that obeys every rule fits the model's grid; it does not
    /// where there are no rules and more than one cell.
    pub fn run<F: Fn(&Vec<u32>, u64) -> u64>(&mut self, score: F) -> (r: Result<bool, HostError>)
        requires
            old(self).wf(),
            forall|w: &Vec<u32>, word: u64| call_requires(score, (w, word)),
        ensures
            final(self).wf(),
            final(self).dimensions() == old(self).dimensions(),
            final(self).seed() == old(self).seed(),
            final(self).loaded() == old(self).loaded(),
            match r {
                Ok(true) => {
                    &&& old(self).loaded()
                    &&& final(self).grid() is Some
                    &&& final(self).model().rule_set() == old(self).model().rule_set()
                    &&& final(self).model().setting() == old(self).model().setting()
                    &&& symmetric(old(self).model().rule_set()) ==> obeys(
                        old(self).model().rule_set(),
                        old(self).model().setting(),
                        final(self).grid()->0,
                    )
                    &&& forall|p: int|
                        0 <= p < old(self).model().setting().cells()
                            ==> old(self).model().possible(p).contains(
                            #[trigger] final(self).grid()->0[p],
                        )
                    &&& forall|p: int|
                        0 <= p < old(self).model().setting().cells()
                            ==> (#[trigger] final(self).model().state()[p]).collapsed
                    &&& tiling(
                        old(self).model().rule_set(),
                        old(self).model().setting(),
                        final(self).grid()->0,
                    )
                    &&& obeys_one_way(
                        old(self).model().rule_set(),
                        old(self).model().setting(),
                        final(self).grid()->0,
                    )
                    &&& final(self).grid()->0 == named(
                        old(self).model().rule_set(),
                        readout(final(self).model().state()),
                    )
                },
                Ok(false) => {
                    &&& old(self).loaded()
                    &&& final(self).grid() is None
                    &&& final(self).model().rule_set() == old(self).model().rule_set()
                    &&& final(self).model().setting() == old(self).model().setting()
                },
                Err(HostError::NotInitialized) => !old(self).loaded() && *final(self) == *old(self),
                Err(_) => false,
            },
            (old(self).loaded() && positive(old(self).model().setting().weights)
                && exists|a: Seq<int>|
                old(self).model().setting().strict(a) && old(self).model().setting().fits(
                    a,
                    old(self).model().state(),
                )) ==> r == Ok::<bool, HostError>(true),
            (old(self).loaded() && ruleless(old(self).model().rule_set())
                && old(self).model().setting().cells() > 1) ==> r == Ok::<bool, HostError>(false),
    {
        match self.model.take() {
            Some(mut model) => {
                let outcome = model.run(score);
                self.model = Some(model);
                match outcome {
                    Ok(grid) => {
                        self.result = Some(grid);
                        Ok(true)
                    },
                    Err(WfcError::Contradiction) => {
                        self.result = None;
                        Ok(false)
                    },
                    Err(e) => Err(HostError::Solver(e)),
                }
            },
            None => Err(HostError::NotInitialized),
        }
    }

    /// The grid of the last successful solve, row by row.
    pub fn get_grid(&self) -> (r: Result<&Vec<String>, HostError>)
        ensures
            match r {
                Ok(g) => self.grid() == Some(texts(g@)),
                Err(HostError::NoGrid) => self.grid() is None,
                Err(_) => false,
            },
    {
        match &self.result {
            Some(grid) => Ok(grid),
            None => Err(HostError::NoGrid),
        }
    }
}

} // verus!
