use vstd::prelude::*;

use crate::params::{check_length, check_number, CheckError};

verus! {

/// What an agent is, mathematically: its phenotype and its inheritance
/// weights, each weight the bit pattern of an IEEE-754 binary64 value.
pub struct AgentView {
    pub phe: nat,
    pub weights: Seq<u64>,
}

impl AgentView {
    /// The phenotype is one of `n_phe` and there is one weight per phenotype.
    pub open spec fn valid(self, n_phe: nat) -> bool {
        self.phe < n_phe && self.weights.len() == n_phe
    }
}

/// Why an agent could not be built.
#[derive(Debug, Clone, Copy, PartialEq, Eq)]
pub enum AgentError {
    /// The phenotype is out of range.
    Phenotype(CheckError),
    /// The weight vector has the wrong length.
    Weights(CheckError),
}

/// One member of the population: a phenotype and the weight vector that its
/// offspring inherit. Construction checks the phenotype range and the
/// vector's length; that the weights form a probability vector is a
/// binary64 property, checked by whoever computes them.
#[derive(Debug)]
pub struct AgtData {
    phe: usize,
    prob_phe: Vec<u64>,
}

impl View for AgtData {
    type V = AgentView;

    closed spec fn view(&self) -> AgentView {
        AgentView { phe: self.phe as nat, weights: self.prob_phe@ }
    }
}

impl AgtData {
    /// Builds an agent with phenotype `phe` among `n_phe`, and `n_phe`
    /// weights.
    pub fn new(phe: usize, prob_phe: Vec<u64>, n_phe: usize) -> (r: Result<Self, AgentError>)
        ensures
            r is Ok <==> phe < n_phe && prob_phe@.len() == n_phe,
            r matches Ok(a) ==> a@ == (AgentView { phe: phe as nat, weights: prob_phe@ }),
            !(phe < n_phe) ==> r matches Err(AgentError::Phenotype(_)),
            phe < n_phe && prob_phe@.len() != n_phe ==> r matches Err(AgentError::Weights(_)),
    {
        if let Err(e) = check_number(phe, 0..n_phe) {
            return Err(AgentError::Phenotype(e));
        }
        if let Err(e) = check_length(prob_phe.len(), n_phe) {
            return Err(AgentError::Weights(e));
        }
        Ok(AgtData { phe, prob_phe })
    }

    pub fn phe(&self) -> (r: usize)
        ensures
            r == self@.phe,
    {
        self.phe
    }

    /// The inheritance weights, as binary64 bit patterns.
    pub fn prob_phe(&self) -> (r: &Vec<u64>)
        ensures
            r@ == self@.weights,
    {
        &self.prob_phe
    }
}

/// What a population snapshot is, mathematically.
pub struct SnapshotView {
    pub env: nat,
    pub agents: Seq<AgentView>,
    pub delta: int,
}

/// Every agent is valid for `n_phe` phenotypes.
pub open spec fn agents_valid(agents: Seq<AgentView>, n_phe: nat) -> bool {
    forall|i: int| 0 <= i < agents.len() ==> #[trigger] agents[i].valid(n_phe)
}

impl SnapshotView {
    /// The environment is one of `n_env` and every agent is valid.
    pub open spec fn valid(self, n_env: nat, n_phe: nat) -> bool {
        self.env < n_env && agents_valid(self.agents, n_phe)
    }
}

/// A population snapshot: the environment, the agents, and the net change of
/// the population by reproduction and death during the last step.
#[derive(Debug)]
pub struct SimData {
    pub env: usize,
    pub agt_vec: Vec<AgtData>,
    pub n_agt_diff: i32,
}

/// The views of a sequence of agents.
pub open spec fn agent_views(agents: Seq<AgtData>) -> Seq<AgentView> {
    agents.map_values(|a: AgtData| a@)
}

impl View for SimData {
    type V = SnapshotView;

    open spec fn view(&self) -> SnapshotView {
        SnapshotView {
            env: self.env as nat,
            agents: agent_views(self.agt_vec@),
            delta: self.n_agt_diff as int,
        }
    }
}

impl SimData {
    /// An empty population in environment 0 with a zero counter.
    pub fn new(n_agt_init: usize) -> (r: Self)
        ensures
            r@ == (SnapshotView { env: 0, agents: Seq::empty(), delta: 0 }),
    {
        let r = SimData { env: 0, agt_vec: Vec::with_capacity(n_agt_init), n_agt_diff: 0 };
        assert(r@.agents =~= Seq::<AgentView>::empty());
        r
    }
}

} // verus!
