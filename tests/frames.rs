use phenosim::{AgentError, AgtData, CheckError, FrameError, SimData};

fn bits(v: &[f64]) -> Vec<u64> {
    v.iter().map(|x| x.to_bits()).collect()
}

fn agent(phe: usize, w: &[f64], n_phe: usize) -> AgtData {
    AgtData::new(phe, bits(w), n_phe).unwrap()
}

fn snapshot() -> SimData {
    let mut s = SimData::new(4);
    s.env = 1;
    s.agt_vec.push(agent(0, &[0.25, 0.75], 2));
    s.agt_vec.push(agent(1, &[0.5, 0.5], 2));
    s.agt_vec.push(agent(1, &[1.0, 0.0], 2));
    s.n_agt_diff = -2;
    s
}

fn same(a: &SimData, b: &SimData) -> bool {
    a.env == b.env
        && a.n_agt_diff == b.n_agt_diff
        && a.agt_vec.len() == b.agt_vec.len()
        && a.agt_vec.iter().zip(b.agt_vec.iter()).all(|(x, y)| x.phe() == y.phe() && x.prob_phe() == y.prob_phe())
}

#[test]
fn agent_new_validates_phenotype_and_length() {
    let a = agent(1, &[0.5, 0.5], 2);
    assert_eq!(a.phe(), 1);
    assert_eq!(a.prob_phe(), &bits(&[0.5, 0.5]));
    assert_eq!(
        AgtData::new(2, bits(&[0.5, 0.5]), 2).unwrap_err(),
        AgentError::Phenotype(CheckError::OutOfRange { val: 2, start: 0, end: 2 })
    );
    assert_eq!(
        AgtData::new(0, bits(&[1.0]), 2).unwrap_err(),
        AgentError::Weights(CheckError::WrongLength { len: 1, exp_len: 2 })
    );
}

#[test]
fn new_snapshot_is_empty() {
    let s = SimData::new(10);
    assert_eq!(s.env, 0);
    assert!(s.agt_vec.is_empty());
    assert_eq!(s.n_agt_diff, 0);
}

#[test]
fn frame_layout_is_little_endian_fixed_width() {
    let mut s = SimData::new(1);
    s.env = 1;
    s.agt_vec.push(agent(0, &[1.0], 1));
    s.n_agt_diff = -2;
    let mut buf = Vec::new();
    s.write_frame(&mut buf);
    let mut expected = vec![1, 0, 0, 0, 0, 0, 0, 0];
    expected.extend_from_slice(&[1, 0, 0, 0, 0, 0, 0, 0]);
    expected.extend_from_slice(&[0, 0, 0, 0, 0, 0, 0, 0]);
    expected.extend_from_slice(&[0, 0, 0, 0, 0, 0, 0xF0, 0x3F]);
    expected.extend_from_slice(&[0xFE, 0xFF, 0xFF, 0xFF]);
    assert_eq!(buf, expected);
}

#[test]
fn frame_size_follows_population_and_phenotypes() {
    let mut buf = Vec::new();
    snapshot().write_frame(&mut buf);
    assert_eq!(buf.len(), 8 + 8 + 3 * (8 + 2 * 8) + 4);
}

#[test]
fn write_then_read_gives_same_snapshot() {
    let s = snapshot();
    let mut buf = Vec::new();
    s.write_frame(&mut buf);
    let (d, k) = SimData::read_frame(&buf, 2).unwrap();
    assert_eq!(k, buf.len());
    assert!(same(&s, &d));
}

#[test]
fn frames_concatenate_and_read_back_in_order() {
    let s = snapshot();
    let mut t = SimData::new(0);
    t.env = 0;
    t.n_agt_diff = 7;
    let mut buf = Vec::new();
    s.write_frame(&mut buf);
    t.write_frame(&mut buf);
    let (d1, k1) = SimData::read_frame(&buf, 2).unwrap();
    assert!(same(&s, &d1));
    let (d2, k2) = SimData::read_frame(&buf[k1..], 2).unwrap();
    assert!(same(&t, &d2));
    assert_eq!(k1 + k2, buf.len());
    assert_eq!(k2, 20);
}

#[test]
fn extreme_counters_round_trip() {
    for delta in [i32::MIN, -1, 0, 1, i32::MAX] {
        let mut s = SimData::new(0);
        s.n_agt_diff = delta;
        let mut buf = Vec::new();
        s.write_frame(&mut buf);
        let (d, _) = SimData::read_frame(&buf, 3).unwrap();
        assert_eq!(d.n_agt_diff, delta);
    }
}

#[test]
fn truncated_frame_is_rejected() {
    let mut buf = Vec::new();
    snapshot().write_frame(&mut buf);
    for cut in [0, 7, 15, 16, 20, 40, buf.len() - 1] {
        assert_eq!(SimData::read_frame(&buf[..cut], 2).unwrap_err(), FrameError::Truncated);
    }
}

#[test]
fn wrong_phenotype_count_is_rejected() {
    let mut buf = Vec::new();
    snapshot().write_frame(&mut buf);
    // Read with more phenotypes than were written: the weights run out.
    assert_eq!(SimData::read_frame(&buf, 5).unwrap_err(), FrameError::Truncated);
    // Read with a single phenotype: agent 1 has phenotype 1.
    assert!(matches!(
        SimData::read_frame(&buf, 1).unwrap_err(),
        FrameError::Phenotype { .. }
    ));
}

#[test]
fn out_of_range_phenotype_is_rejected() {
    let mut buf = Vec::new();
    let mut s = SimData::new(1);
    s.agt_vec.push(agent(0, &[1.0], 1));
    s.write_frame(&mut buf);
    buf[16] = 3;
    assert_eq!(
        SimData::read_frame(&buf, 1).unwrap_err(),
        FrameError::Phenotype { val: 3, n_phe: 1 }
    );
}
