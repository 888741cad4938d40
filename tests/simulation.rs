use phenosim::{AgtData, InitError, SimData};
use rand::distr::Bernoulli;
use rand::SeedableRng;
use rand_chacha::ChaCha12Rng;
use rand_distr::{weighted::WeightedIndex, Distribution, LogNormal};

fn bits(v: &[f64]) -> Vec<u64> {
    v.iter().map(|x| x.to_bits()).collect()
}

fn uniform(n: usize) -> Vec<u64> {
    vec![(1.0 / n as f64).to_bits(); n]
}

#[test]
fn initial_condition_has_requested_size_and_ranges() {
    let mut rng = ChaCha12Rng::seed_from_u64(7);
    let mut s = SimData::new(50);
    s.generate_initial_condition(3, 4, 50, &uniform(4), &mut rng).unwrap();
    assert!(s.env < 3);
    assert_eq!(s.agt_vec.len(), 50);
    assert!(s.agt_vec.iter().all(|a| a.phe() < 4 && a.prob_phe() == &uniform(4)));
    assert_eq!(s.n_agt_diff, 0);
}

#[test]
fn initial_condition_draws_vary() {
    let mut rng = ChaCha12Rng::seed_from_u64(11);
    let mut s = SimData::new(200);
    s.generate_initial_condition(1, 5, 200, &uniform(5), &mut rng).unwrap();
    assert_eq!(s.env, 0);
    let distinct = (0..5).filter(|p| s.agt_vec.iter().any(|a| a.phe() == *p)).count();
    assert!(distinct > 1);
}

#[test]
fn initial_condition_rejects_empty_ranges_and_bad_weights() {
    let mut rng = ChaCha12Rng::seed_from_u64(1);
    let mut s = SimData::new(3);
    assert_eq!(
        s.generate_initial_condition(0, 2, 3, &uniform(2), &mut rng),
        Err(InitError::EmptyRange)
    );
    assert_eq!(
        s.generate_initial_condition(2, 0, 3, &Vec::new(), &mut rng),
        Err(InitError::EmptyRange)
    );
    assert!(matches!(
        s.generate_initial_condition(2, 2, 3, &uniform(3), &mut rng),
        Err(InitError::Agent(_))
    ));
    assert!(s.agt_vec.is_empty());
}

#[test]
fn begin_step_sets_environment_and_resets_counter() {
    let mut s = SimData::new(0);
    s.n_agt_diff = 5;
    assert!(s.begin_step(2, 2).is_err());
    assert_eq!(s.n_agt_diff, 5);
    s.begin_step(1, 2).unwrap();
    assert_eq!(s.env, 1);
    assert_eq!(s.n_agt_diff, 0);
}

fn population(n: usize, phe: usize, w: &[f64]) -> SimData {
    let mut s = SimData::new(n);
    for _ in 0..n {
        s.agt_vec.push(AgtData::new(phe, bits(w), w.len()).unwrap());
    }
    s
}

#[test]
fn selection_follows_certain_trials() {
    let mut rng = ChaCha12Rng::seed_from_u64(3);
    let s = population(4, 0, &[1.0, 0.0]);
    let always = Bernoulli::new(1.0).unwrap();
    let never = Bernoulli::new(0.0).unwrap();
    let mut rep = vec![99];
    let mut dec = vec![99];
    s.select_agents(&vec![always, never], &vec![never, always], &mut rng, &mut rep, &mut dec);
    assert_eq!(rep, vec![0, 1, 2, 3]);
    assert!(dec.is_empty());
    s.select_agents(&vec![never, never], &vec![always, always], &mut rng, &mut rep, &mut dec);
    assert!(rep.is_empty());
    assert_eq!(dec, vec![0, 1, 2, 3]);
}

#[test]
fn deaths_without_trimming_remove_exactly_the_dead() {
    let mut rng = ChaCha12Rng::seed_from_u64(5);
    let mut s = SimData::new(4);
    for p in 0..4 {
        s.agt_vec.push(AgtData::new(p, bits(&[0.25; 4]), 4).unwrap());
    }
    s.complete_step(Vec::new(), &vec![0, 2], 10, &mut rng);
    let left: Vec<usize> = s.agt_vec.iter().map(|a| a.phe()).collect();
    assert_eq!(left, vec![3, 1]);
    assert_eq!(s.n_agt_diff, -2);
}

#[test]
fn births_and_deaths_set_counter() {
    let mut rng = ChaCha12Rng::seed_from_u64(9);
    let mut s = population(3, 0, &[1.0, 0.0]);
    let offspring = vec![AgtData::new(1, bits(&[0.0, 1.0]), 2).unwrap()];
    s.complete_step(offspring, &vec![1], 10, &mut rng);
    assert_eq!(s.agt_vec.len(), 3);
    assert_eq!(s.n_agt_diff, 0);
    assert_eq!(s.agt_vec.iter().filter(|a| a.phe() == 1).count(), 1);
}

#[test]
fn trimming_caps_population_and_keeps_counter() {
    let mut rng = ChaCha12Rng::seed_from_u64(13);
    let mut s = SimData::new(10);
    for p in 0..10 {
        s.agt_vec.push(AgtData::new(p, bits(&[0.1; 10]), 10).unwrap());
    }
    let offspring: Vec<AgtData> =
        (0..5).map(|p| AgtData::new(p, bits(&[0.1; 10]), 10).unwrap()).collect();
    s.complete_step(offspring, &vec![9], 6, &mut rng);
    assert_eq!(s.agt_vec.len(), 6);
    assert_eq!(s.n_agt_diff, 4);
    assert!(s.agt_vec.iter().all(|a| a.phe() < 9));
}

// Three agents of phenotype 0 that always reproduce and never die, capped at three.
#[test]
fn certain_reproduction_is_trimmed_back_to_cap() {
    let mut rng = ChaCha12Rng::seed_from_u64(21);
    let mut s = population(3, 0, &[1.0, 0.0]);
    s.begin_step(0, 2).unwrap();
    let rep_dist = vec![Bernoulli::new(1.0).unwrap(), Bernoulli::new(0.0).unwrap()];
    let dec_dist = vec![Bernoulli::new(0.0).unwrap(), Bernoulli::new(0.0).unwrap()];
    let mut rep = Vec::new();
    let mut dec = Vec::new();
    s.select_agents(&rep_dist, &dec_dist, &mut rng, &mut rep, &mut dec);
    assert_eq!(rep, vec![0, 1, 2]);
    assert!(dec.is_empty());
    let mut offspring = Vec::new();
    for &i in &rep {
        let w: Vec<f64> = s.agt_vec[i].prob_phe().iter().map(|b| f64::from_bits(*b)).collect();
        let phe = WeightedIndex::new(&w).unwrap().sample(&mut rng);
        offspring.push(AgtData::new(phe, bits(&w), 2).unwrap());
    }
    s.complete_step(offspring, &dec, 3, &mut rng);
    assert_eq!(s.env, 0);
    assert_eq!(s.agt_vec.len(), 3);
    assert_eq!(s.n_agt_diff, 3);
    assert!(s.agt_vec.iter().all(|a| a.phe() == 0 && a.prob_phe() == &bits(&[1.0, 0.0])));
}

// With zero mutation spread every log-normal factor is exactly one.
#[test]
fn zero_spread_mutation_copies_weights() {
    let mut rng = ChaCha12Rng::seed_from_u64(2);
    let parent = AgtData::new(0, bits(&[0.5, 0.5]), 2).unwrap();
    let mut_dist = LogNormal::new(0.0, 0.0).unwrap();
    let w: Vec<f64> = parent.prob_phe().iter().map(|b| f64::from_bits(*b)).collect();
    let mut child: Vec<f64> = w.iter().map(|x| x * mut_dist.sample(&mut rng)).collect();
    let norm: f64 = child.iter().sum();
    for x in &mut child {
        *x /= norm;
    }
    let child = AgtData::new(1, bits(&child), 2).unwrap();
    assert_eq!(child.prob_phe(), parent.prob_phe());
}

fn run(seed: u64, steps: usize) -> Vec<u8> {
    let mut rng = ChaCha12Rng::seed_from_u64(seed);
    let mut s = SimData::new(20);
    s.generate_initial_condition(2, 3, 20, &uniform(3), &mut rng).unwrap();
    let rep_dist: Vec<Bernoulli> = [0.3, 0.5, 0.7].iter().map(|p| Bernoulli::new(*p).unwrap()).collect();
    let dec_dist: Vec<Bernoulli> = [0.2, 0.2, 0.4].iter().map(|p| Bernoulli::new(*p).unwrap()).collect();
    let mut out = Vec::new();
    let mut rep = Vec::new();
    let mut dec = Vec::new();
    for k in 0..steps {
        s.begin_step(k % 2, 2).unwrap();
        s.select_agents(&rep_dist, &dec_dist, &mut rng, &mut rep, &mut dec);
        let offspring: Vec<AgtData> = rep
            .iter()
            .map(|&i| AgtData::new(s.agt_vec[i].phe(), s.agt_vec[i].prob_phe().clone(), 3).unwrap())
            .collect();
        s.complete_step(offspring, &dec, 20, &mut rng);
        assert!(s.agt_vec.len() <= 20);
        assert!(s.env < 2);
        assert!(s.agt_vec.iter().all(|a| a.phe() < 3 && a.prob_phe().len() == 3));
        assert_eq!(s.n_agt_diff, rep.len() as i32 - dec.len() as i32);
        s.write_frame(&mut out);
    }
    out
}

#[test]
fn same_seed_gives_identical_frames() {
    let a = run(42, 10);
    let b = run(42, 10);
    assert_eq!(a, b);
    assert!(!a.is_empty());
}

#[test]
fn selected_positions_lists_set_flags_in_order() {
    let mut out = vec![7, 7, 7];
    phenosim::selected_positions(&vec![true, false, true, true, false], &mut out);
    assert_eq!(out, vec![0, 2, 3]);
    phenosim::selected_positions(&Vec::new(), &mut out);
    assert!(out.is_empty());
}

#[test]
fn remove_agents_moves_last_into_gaps() {
    let mut s = SimData::new(5);
    for p in 0..5 {
        s.agt_vec.push(AgtData::new(p, bits(&[0.2; 5]), 5).unwrap());
    }
    s.n_agt_diff = 4;
    s.remove_agents(&vec![3, 0]);
    let left: Vec<usize> = s.agt_vec.iter().map(|a| a.phe()).collect();
    assert_eq!(left, vec![4, 1, 2]);
    assert_eq!(s.n_agt_diff, 4);
}
