use vstd::prelude::*;
use vstd::multiset::Multiset;

use crate::data::{agent_views, agents_valid, AgentError, AgentView, AgtData, SimData, SnapshotView};
use crate::params::{check_number, CheckError};
use crate::removal::{
    ascending_positions, picked, remove_at, remove_descending, remove_sorted, selected_positions,
    strictly_increasing,
};
use crate::rng::{draw_below, sample_indices, trial};

verus! {

/// `after` is `before` cut down to `cap` agents by removing agents at
/// distinct positions, or `before` itself when it is within `cap`.
pub open spec fn trimmed(before: Seq<AgentView>, cap: nat, after: Seq<AgentView>) -> bool {
    if before.len() > cap {
        after.len() == cap && after.to_multiset().subset_of(before.to_multiset())
    } else {
        after == before
    }
}

/// The agents left when the agents at positions `deaths` of `old` die and
/// `offspring` are born.
pub open spec fn survivors(old: Seq<AgentView>, offspring: Seq<AgentView>, deaths: Seq<usize>) -> Multiset<
    AgentView,
> {
    (old + offspring).to_multiset().sub(picked(old, deaths).to_multiset())
}

/// `new` is what a step makes of `old` when `offspring` are born, the agents
/// at positions `deaths` die, and the population is capped at `cap`: the
/// environment stays, the counter is births minus deaths whatever the
/// capping removed, and the agents are the survivors, cut down to `cap` by
/// removals at distinct positions.
pub open spec fn step_outcome(
    old: SnapshotView,
    offspring: Seq<AgentView>,
    deaths: Seq<usize>,
    cap: nat,
    new: SnapshotView,
) -> bool {
    let n_mid = old.agents.len() + offspring.len() - deaths.len();
    &&& new.env == old.env
    &&& new.delta == offspring.len() - deaths.len()
    &&& new.agents.len() == if n_mid > cap {
        cap as int
    } else {
        n_mid
    }
    &&& new.agents.to_multiset().subset_of(survivors(old.agents, offspring, deaths))
    &&& n_mid <= cap ==> new.agents.to_multiset() == survivors(old.agents, offspring, deaths)
}

/// `after` is `before` with the distinct positions `chosen` removed by
/// swap-with-last, highest position first, leaving `cap` agents.
pub open spec fn trimmed_at(
    before: Seq<AgentView>,
    cap: nat,
    chosen: Seq<usize>,
    after: Seq<AgentView>,
) -> bool {
    &&& chosen.no_duplicates()
    &&& chosen.len() + cap == before.len()
    &&& forall|i: int| 0 <= i < chosen.len() ==> #[trigger] chosen[i] < before.len()
    &&& after == remove_descending(before, ascending_positions(chosen, before.len()))
}

/// The order a step leaves the agents in: offspring appended in order, the
/// dead removed by swap-with-last from the highest position down, and, above
/// `cap`, the positions drawn for trimming removed the same way.
pub open spec fn step_sequence(
    old: SnapshotView,
    offspring: Seq<AgentView>,
    deaths: Seq<usize>,
    cap: nat,
    new: SnapshotView,
) -> bool {
    let mid = remove_descending(old.agents + offspring, deaths);
    if mid.len() > cap {
        exists|chosen: Seq<usize>| #[trigger] trimmed_at(mid, cap, chosen, new.agents)
    } else {
        new.agents == mid
    }
}

/// Cuts the population down to `cap` agents, removing agents at distinct
/// positions drawn uniformly at random.
fn trim(agents: &mut Vec<AgtData>, cap: usize, rng: &mut rand_chacha::ChaCha12Rng)
    ensures
        trimmed(agent_views(old(agents)@), cap as nat, agent_views(final(agents)@)),
        old(agents)@.len() > cap ==> exists|chosen: Seq<usize>|
            #[trigger] trimmed_at(
                agent_views(old(agents)@),
                cap as nat,
                chosen,
                agent_views(final(agents)@),
            ),
        old(agents)@.len() <= cap ==> final(agents)@ == old(agents)@,
{
    let n = agents.len();
    if n <= cap {
        return;
    }
    let chosen = sample_indices(rng, n, n - cap);
    let ghost before = agent_views(agents@);
    remove_at(agents, &chosen);
    proof {
        broadcast use vstd::multiset::group_multiset_axioms;

        let after = agent_views(agents@);
        let gone = picked(before, chosen@).to_multiset();
        assert forall|v: AgentView| after.to_multiset().count(v) <= before.to_multiset().count(v) by {
            assert(after.to_multiset().add(gone).count(v) == after.to_multiset().count(v)
                + gone.count(v));
        }
        assert(trimmed_at(before, cap as nat, chosen@, after));
    }
}

/// Why an initial condition could not be made.
#[derive(Debug, Clone, Copy, PartialEq, Eq)]
pub enum InitError {
    /// No environment or no phenotype to draw from.
    EmptyRange,
    /// The starting weights do not fit the phenotype count.
    Agent(AgentError),
}

impl SimData {
    /// Draws the starting environment uniformly from `[0, n_env)`, then
    /// makes `n_agt_init` agents, each with a phenotype drawn uniformly from
    /// `[0, n_phe)` and the weights `prob_phe`.
    pub fn generate_initial_condition(
        &mut self,
        n_env: usize,
        n_phe: usize,
        n_agt_init: usize,
        prob_phe: &Vec<u64>,
        rng: &mut rand_chacha::ChaCha12Rng,
    ) -> (r: Result<(), InitError>)
        ensures
            r is Ok <==> n_env > 0 && n_phe > 0 && prob_phe@.len() == n_phe,
            n_env == 0 || n_phe == 0 ==> r == Err::<(), InitError>(InitError::EmptyRange),
            r is Err ==> *final(self) == *old(self),
            r is Ok ==> {
                &&& final(self)@.env < n_env
                &&& final(self)@.agents.len() == n_agt_init
                &&& agents_valid(final(self)@.agents, n_phe as nat)
                &&& forall|i: int|
                    0 <= i < final(self)@.agents.len() ==> (#[trigger] final(self)@.agents[i]).weights
                        == prob_phe@
                &&& final(self)@.delta == old(self)@.delta
            },
    {
        if n_env == 0 || n_phe == 0 {
            return Err(InitError::EmptyRange);
        }
        if let Err(e) = crate::params::check_length(prob_phe.len(), n_phe) {
            return Err(InitError::Agent(AgentError::Weights(e)));
        }
        let env = match draw_below(n_env, rng) {
            Ok(v) => v,
            Err(_) => {
                return Err(InitError::EmptyRange);
            },
        };
        let mut agt_vec: Vec<AgtData> = Vec::with_capacity(n_agt_init);
        let mut i: usize = 0;
        while i < n_agt_init
            invariant
                i <= n_agt_init,
                n_phe > 0,
                prob_phe@.len() == n_phe,
                agt_vec@.len() == i,
                agents_valid(agent_views(agt_vec@), n_phe as nat),
                forall|k: int| 0 <= k < i ==> (#[trigger] agt_vec@[k])@.weights == prob_phe@,
            decreases n_agt_init - i,
        {
            let phe = match draw_below(n_phe, rng) {
                Ok(v) => v,
                Err(_) => {
                    return Err(InitError::EmptyRange);
                },
            };
            let mut weights: Vec<u64> = Vec::with_capacity(n_phe);
            let mut j: usize = 0;
            while j < n_phe
                invariant
                    j <= n_phe == prob_phe@.len(),
                    weights@ == prob_phe@.subrange(0, j as int),
                decreases n_phe - j,
            {
                weights.push(prob_phe[j]);
                proof {
                    assert(prob_phe@.subrange(0, j + 1) =~= prob_phe@.subrange(0, j as int).push(prob_phe@[j as int]));
                }
                j = j + 1;
            }
            proof {
                assert(prob_phe@.subrange(0, n_phe as int) =~= prob_phe@);
            }
            let agt = match AgtData::new(phe, weights, n_phe) {
                Ok(a) => a,
                Err(e) => {
                    return Err(InitError::Agent(e));
                },
            };
            let ghost prev = agt_vec@;
            agt_vec.push(agt);
            proof {
                assert forall|k: int| 0 <= k < agt_vec@.len() implies #[trigger] agent_views(agt_vec@)[k].valid(n_phe as nat) by {
                    if k < prev.len() {
                        assert(agent_views(prev)[k] == agent_views(agt_vec@)[k]);
                    }
                }
            }
            i = i + 1;
        }
        self.env = env;
        self.agt_vec = agt_vec;
        Ok(())
    }

    /// First part of a step: moves to the environment `env`, one of `n_env`,
    /// and resets the counter.
    pub fn begin_step(&mut self, env: usize, n_env: usize) -> (r: Result<(), CheckError>)
        ensures
            r is Ok <==> env < n_env,
            r is Err ==> *final(self) == *old(self),
            r is Ok ==> final(self)@ == (SnapshotView { env: env as nat, delta: 0, ..old(self)@ }),
    {
        check_number(env, 0..n_env)?;
        self.env = env;
        self.n_agt_diff = 0;
        Ok(())
    }

    /// Selection: for every agent, in order, one reproduction trial and then
    /// one death trial, each with the distribution of its phenotype. The
    /// positions of the selected agents are written to `i_agt_rep` and
    /// `i_agt_dec`, which are cleared first.
    pub fn select_agents(
        &self,
        rep_dist: &Vec<rand::distr::Bernoulli>,
        dec_dist: &Vec<rand::distr::Bernoulli>,
        rng: &mut rand_chacha::ChaCha12Rng,
        i_agt_rep: &mut Vec<usize>,
        i_agt_dec: &mut Vec<usize>,
    )
        requires
            forall|i: int|
                0 <= i < self@.agents.len() ==> #[trigger] self@.agents[i].phe < rep_dist@.len()
                    && self@.agents[i].phe < dec_dist@.len(),
        ensures
            strictly_increasing(final(i_agt_rep)@),
            strictly_increasing(final(i_agt_dec)@),
            forall|k: int|
                0 <= k < final(i_agt_rep)@.len() ==> #[trigger] final(i_agt_rep)@[k]
                    < self@.agents.len(),
            forall|k: int|
                0 <= k < final(i_agt_dec)@.len() ==> #[trigger] final(i_agt_dec)@[k]
                    < self@.agents.len(),
    {
        let n = self.agt_vec.len();
        let mut rep_flags: Vec<bool> = Vec::with_capacity(n);
        let mut dec_flags: Vec<bool> = Vec::with_capacity(n);
        let mut i: usize = 0;
        while i < n
            invariant
                i <= n == self@.agents.len(),
                forall|j: int|
                    0 <= j < self@.agents.len() ==> #[trigger] self@.agents[j].phe < rep_dist@.len()
                        && self@.agents[j].phe < dec_dist@.len(),
                rep_flags@.len() == i,
                dec_flags@.len() == i,
            decreases n - i,
        {
            let phe = self.agt_vec[i].phe();
            assert(self@.agents[i as int].phe == phe);
            rep_flags.push(trial(&rep_dist[phe], rng));
            dec_flags.push(trial(&dec_dist[phe], rng));
            i = i + 1;
        }
        selected_positions(&rep_flags, i_agt_rep);
        selected_positions(&dec_flags, i_agt_dec);
    }

    /// Removes the agents at the distinct positions `positions`, highest
    /// position first, each by moving the last agent into its place: the
    /// population loses exactly those agents.
    pub fn remove_agents(&mut self, positions: &Vec<usize>)
        requires
            positions@.no_duplicates(),
            forall|i: int|
                0 <= i < positions@.len() ==> #[trigger] positions@[i] < old(self)@.agents.len(),
        ensures
            final(self)@.env == old(self)@.env,
            final(self)@.delta == old(self)@.delta,
            final(self)@.agents.len() + positions@.len() == old(self)@.agents.len(),
            final(self)@.agents.to_multiset().add(picked(old(self)@.agents, positions@).to_multiset())
                == old(self)@.agents.to_multiset(),
            final(self)@.agents == remove_descending(
                old(self)@.agents,
                ascending_positions(positions@, old(self)@.agents.len()),
            ),
    {
        remove_at(&mut self.agt_vec, positions);
    }

    /// Last part of a step: `offspring` join the population, the agents at
    /// positions `i_agt_dec` die, the population is capped at `n_agt_init`
    /// by removing agents at distinct positions drawn uniformly at random,
    /// and the counter records births minus deaths.
    pub fn complete_step(
        &mut self,
        offspring: Vec<AgtData>,
        i_agt_dec: &Vec<usize>,
        n_agt_init: usize,
        rng: &mut rand_chacha::ChaCha12Rng,
    )
        requires
            strictly_increasing(i_agt_dec@),
            forall|k: int|
                0 <= k < i_agt_dec@.len() ==> #[trigger] i_agt_dec@[k] < old(self)@.agents.len(),
            i32::MIN <= offspring@.len() - i_agt_dec@.len() <= i32::MAX,
        ensures
            step_outcome(
                old(self)@,
                agent_views(offspring@),
                i_agt_dec@,
                n_agt_init as nat,
                final(self)@,
            ),
            step_sequence(
                old(self)@,
                agent_views(offspring@),
                i_agt_dec@,
                n_agt_init as nat,
                final(self)@,
            ),
    {
        broadcast use vstd::multiset::group_multiset_axioms;

        let births = offspring.len();
        let deaths = i_agt_dec.len();
        let ghost old_views = self@.agents;
        let ghost off_views = agent_views(offspring@);
        let mut offspring = offspring;
        self.agt_vec.append(&mut offspring);
        proof {
            assert(agent_views(self.agt_vec@) =~= old_views + off_views);
            assert(picked(old_views + off_views, i_agt_dec@) =~= picked(old_views, i_agt_dec@));
        }
        remove_sorted(&mut self.agt_vec, i_agt_dec);
        let ghost mid = agent_views(self.agt_vec@);
        proof {
            assert(mid == remove_descending(old_views + off_views, i_agt_dec@));
            let gone = picked(old_views, i_agt_dec@).to_multiset();
            assert(mid.to_multiset() =~= survivors(old_views, off_views, i_agt_dec@)) by {
                assert forall|v: AgentView| #[trigger] mid.to_multiset().count(v) == survivors(
                    old_views,
                    off_views,
                    i_agt_dec@,
                ).count(v) by {
                    assert(mid.to_multiset().add(gone).count(v) == mid.to_multiset().count(v)
                        + gone.count(v));
                }
            }
        }
        trim(&mut self.agt_vec, n_agt_init, rng);
        let diff: i32 = if births >= deaths {
            (births - deaths) as i32
        } else {
            -1 - ((deaths - births - 1) as i32)
        };
        self.n_agt_diff = diff;
        proof {
            let fin = agent_views(self.agt_vec@);
            if mid.len() > n_agt_init {
                assert forall|v: AgentView| #[trigger] fin.to_multiset().count(v) <= survivors(
                    old_views,
                    off_views,
                    i_agt_dec@,
                ).count(v) by {
                    assert(fin.to_multiset().count(v) <= mid.to_multiset().count(v));
                }
                let chosen = choose|chosen: Seq<usize>|
                    #[trigger] trimmed_at(mid, n_agt_init as nat, chosen, fin);
                assert(trimmed_at(mid, n_agt_init as nat, chosen, fin));
            } else {
                assert(fin == mid);
            }
        }
    }
}

/// After a step the population holds at most `cap` agents.
pub proof fn lemma_step_within_cap(
    old: SnapshotView,
    offspring: Seq<AgentView>,
    deaths: Seq<usize>,
    cap: nat,
    new: SnapshotView,
)
    requires
        step_outcome(old, offspring, deaths, cap, new),
    ensures
        new.agents.len() <= cap,
{
}

/// The counter of a step is births minus deaths, the same whatever the cap
/// and whichever agents the capping removed.
pub proof fn lemma_counter_ignores_trimming(
    old: SnapshotView,
    offspring: Seq<AgentView>,
    deaths: Seq<usize>,
    cap1: nat,
    new1: SnapshotView,
    cap2: nat,
    new2: SnapshotView,
)
    requires
        step_outcome(old, offspring, deaths, cap1, new1),
        step_outcome(old, offspring, deaths, cap2, new2),
    ensures
        new1.delta == new2.delta,
        new1.delta == offspring.len() - deaths.len(),
{
}

/// A step keeps the snapshot valid: its environment stays in range, and
/// every agent left is an agent of the valid population or a valid
/// offspring.
pub proof fn lemma_step_keeps_valid(
    old: SnapshotView,
    offspring: Seq<AgentView>,
    deaths: Seq<usize>,
    cap: nat,
    new: SnapshotView,
    n_env: nat,
    n_phe: nat,
)
    requires
        step_outcome(old, offspring, deaths, cap, new),
        old.valid(n_env, n_phe),
        agents_valid(offspring, n_phe),
    ensures
        new.valid(n_env, n_phe),
{
    broadcast use vstd::seq_lib::group_to_multiset_ensures;
    broadcast use vstd::multiset::group_multiset_axioms;

    let all = old.agents + offspring;
    assert forall|i: int| 0 <= i < new.agents.len() implies #[trigger] new.agents[i].valid(n_phe) by {
        let x = new.agents[i];
        assert(new.agents.contains(x));
        new.agents.to_multiset_ensures();
        all.to_multiset_ensures();
        assert(survivors(old.agents, offspring, deaths).count(x) > 0);
        assert(all.to_multiset().count(x) > 0);
        assert(all.contains(x));
        let j = choose|j: int| 0 <= j < all.len() && all[j] == x;
        if j < old.agents.len() {
            assert(old.agents[j].valid(n_phe));
        } else {
            assert(offspring[j - old.agents.len()].valid(n_phe));
        }
    }
}

} // verus!
