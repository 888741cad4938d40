use vstd::prelude::*;

use crate::bytes::{
    lemma_bytes_of_le_value, lemma_le_bytes_injective, lemma_le_bytes_len, lemma_le_value_bound,
    lemma_le_value_of_bytes, lemma_pow256_values, le_bytes, le_value, pow256,
    push_le, read_le,
};
use crate::data::{agent_views, agents_valid, AgentView, AgtData, SimData, SnapshotView};

verus! {

/// Width in bytes of a platform-width unsigned integer in a frame.
pub const WORD_BYTES: usize = 8;

/// Width in bytes of one weight in a frame.
pub const WEIGHT_BYTES: usize = 8;

/// Width in bytes of the population counter in a frame.
pub const DELTA_BYTES: usize = 4;

/// The 32-bit two's complement pattern of `d`.
pub open spec fn i32_bits(d: int) -> nat {
    if d >= 0 {
        d as nat
    } else {
        (d + 0x1_0000_0000) as nat
    }
}

/// The weights, each as 8 little-endian bytes.
pub open spec fn weights_bytes(w: Seq<u64>) -> Seq<u8>
    decreases w.len(),
{
    if w.len() == 0 {
        Seq::empty()
    } else {
        weights_bytes(w.drop_last()) + le_bytes(w.last() as nat, 8)
    }
}

/// One agent: its phenotype, then its weights.
pub open spec fn agent_bytes(a: AgentView) -> Seq<u8> {
    le_bytes(a.phe, 8) + weights_bytes(a.weights)
}

/// The agents, one after the other.
pub open spec fn agents_bytes(s: Seq<AgentView>) -> Seq<u8>
    decreases s.len(),
{
    if s.len() == 0 {
        Seq::empty()
    } else {
        agents_bytes(s.drop_last()) + agent_bytes(s.last())
    }
}

/// The frame of a snapshot: environment, agent count, the agents, and the
/// counter, all little-endian.
pub open spec fn frame_bytes(s: SnapshotView) -> Seq<u8> {
    le_bytes(s.env, 8) + le_bytes(s.agents.len(), 8) + agents_bytes(s.agents) + le_bytes(
        i32_bits(s.delta),
        4,
    )
}

/// The snapshot can be held by a `SimData`.
pub open spec fn encodable(s: SnapshotView) -> bool {
    &&& s.env <= usize::MAX
    &&& s.agents.len() <= usize::MAX
    &&& forall|i: int| 0 <= i < s.agents.len() ==> #[trigger] s.agents[i].phe <= usize::MAX
    &&& i32::MIN <= s.delta <= i32::MAX
}

/// `b` begins with `f`.
pub open spec fn starts_with(b: Seq<u8>, f: Seq<u8>) -> bool {
    f.len() <= b.len() && b.subrange(0, f.len() as int) == f
}

/// `b` begins with the frame of some snapshot whose agents are valid for
/// `n_phe` phenotypes.
pub open spec fn holds_frame(b: Seq<u8>, n_phe: nat) -> bool {
    exists|s: SnapshotView|
        #[trigger] starts_with(b, frame_bytes(s)) && encodable(s) && agents_valid(s.agents, n_phe)
}

/// Bytes taken by one agent with `n_phe` weights.
pub open spec fn agent_len(n_phe: nat) -> int {
    8 + 8 * (n_phe as int)
}

proof fn lemma_weights_bytes_len(w: Seq<u64>)
    ensures
        weights_bytes(w).len() == 8 * w.len(),
    decreases w.len(),
{
    if w.len() > 0 {
        lemma_weights_bytes_len(w.drop_last());
        lemma_le_bytes_len(w.last() as nat, 8);
    }
}

proof fn lemma_agent_bytes_len(a: AgentView, n_phe: nat)
    requires
        a.valid(n_phe),
    ensures
        agent_bytes(a).len() == agent_len(n_phe),
{
    lemma_weights_bytes_len(a.weights);
    lemma_le_bytes_len(a.phe, 8);
}

proof fn lemma_agents_bytes_len(s: Seq<AgentView>, n_phe: nat)
    requires
        agents_valid(s, n_phe),
    ensures
        agents_bytes(s).len() == s.len() * agent_len(n_phe),
    decreases s.len(),
{
    if s.len() > 0 {
        let l = agent_len(n_phe);
        let m = s.len() as int;
        lemma_agents_bytes_len(s.drop_last(), n_phe);
        lemma_agent_bytes_len(s.last(), n_phe);
        assert((m - 1) * l + l == m * l) by (nonlinear_arith);
    }
}

proof fn lemma_frame_bytes_len(s: SnapshotView, n_phe: nat)
    requires
        agents_valid(s.agents, n_phe),
    ensures
        frame_bytes(s).len() == 20 + s.agents.len() * agent_len(n_phe),
{
    lemma_le_bytes_len(s.env, 8);
    lemma_le_bytes_len(s.agents.len(), 8);
    lemma_le_bytes_len(i32_bits(s.delta), 4);
    lemma_agents_bytes_len(s.agents, n_phe);
}

/// Agent `i` occupies bytes `i * L .. (i + 1) * L` of the agents' bytes.
proof fn lemma_agents_bytes_at(s: Seq<AgentView>, n_phe: nat, i: int)
    requires
        agents_valid(s, n_phe),
        0 <= i < s.len(),
    ensures
        agents_bytes(s).subrange(i * agent_len(n_phe), i * agent_len(n_phe) + agent_len(n_phe))
            == agent_bytes(s[i]),
    decreases s.len(),
{
    let l = agent_len(n_phe);
    let d = s.drop_last();
    lemma_agents_bytes_len(d, n_phe);
    lemma_agent_bytes_len(s.last(), n_phe);
    if i == s.len() - 1 {
        assert(agents_bytes(s).subrange(i * l, i * l + l) =~= agent_bytes(s[i]));
    } else {
        lemma_agents_bytes_at(d, n_phe, i);
        assert(i * l + l <= (s.len() - 1) * l) by (nonlinear_arith)
            requires
                i < s.len() - 1,
                l >= 8,
        ;
        assert(agents_bytes(s).subrange(i * l, i * l + l) =~= agents_bytes(d).subrange(
            i * l,
            i * l + l,
        ));
    }
}

proof fn lemma_weights_bytes_injective(v: Seq<u64>, w: Seq<u64>)
    requires
        v.len() == w.len(),
        weights_bytes(v) == weights_bytes(w),
    ensures
        v == w,
    decreases v.len(),
{
    if v.len() > 0 {
        let (dv, dw) = (v.drop_last(), w.drop_last());
        lemma_weights_bytes_len(dv);
        lemma_weights_bytes_len(dw);
        let k = 8 * dv.len() as int;
        assert(weights_bytes(v).subrange(0, k) =~= weights_bytes(dv));
        assert(weights_bytes(w).subrange(0, k) =~= weights_bytes(dw));
        lemma_weights_bytes_injective(dv, dw);
        lemma_le_bytes_len(v.last() as nat, 8);
        lemma_le_bytes_len(w.last() as nat, 8);
        assert(weights_bytes(v).subrange(k, k + 8) =~= le_bytes(v.last() as nat, 8));
        assert(weights_bytes(w).subrange(k, k + 8) =~= le_bytes(w.last() as nat, 8));
        lemma_pow256_values();
        lemma_le_bytes_injective(v.last() as nat, w.last() as nat, 8);
        assert forall|i: int| 0 <= i < v.len() implies v[i] == w[i] by {
            if i < v.len() - 1 {
                assert(v[i] == dv[i] && w[i] == dw[i]);
            }
        }
        assert(v =~= w);
    }
}

proof fn lemma_agent_bytes_injective(a: AgentView, b: AgentView, n_phe: nat)
    requires
        a.valid(n_phe),
        b.valid(n_phe),
        a.phe < pow256(8),
        b.phe < pow256(8),
        agent_bytes(a) == agent_bytes(b),
    ensures
        a == b,
{
    lemma_le_bytes_len(a.phe, 8);
    lemma_le_bytes_len(b.phe, 8);
    assert(agent_bytes(a).subrange(0, 8) =~= le_bytes(a.phe, 8));
    assert(agent_bytes(b).subrange(0, 8) =~= le_bytes(b.phe, 8));
    lemma_le_bytes_injective(a.phe, b.phe, 8);
    let n = agent_bytes(a).len() as int;
    assert(agent_bytes(a).subrange(8, n) =~= weights_bytes(a.weights));
    assert(agent_bytes(b).subrange(8, n) =~= weights_bytes(b.weights));
    lemma_weights_bytes_injective(a.weights, b.weights);
}


proof fn lemma_frame_layout(b: Seq<u8>, s: SnapshotView, n_phe: nat)
    requires
        starts_with(b, frame_bytes(s)),
        encodable(s),
        agents_valid(s.agents, n_phe),
    ensures
        b.len() >= 20 + s.agents.len() * agent_len(n_phe),
        0 <= s.agents.len() * agent_len(n_phe),
        le_value(b.subrange(0, 8)) == s.env,
        le_value(b.subrange(8, 16)) == s.agents.len(),
        b.subrange(16 + s.agents.len() * agent_len(n_phe), 20 + s.agents.len() * agent_len(n_phe))
            == le_bytes(i32_bits(s.delta), 4),
{
    let f = frame_bytes(s);
    let m = s.agents.len() * agent_len(n_phe);
    lemma_frame_bytes_len(s, n_phe);
    lemma_le_bytes_len(s.env, 8);
    lemma_le_bytes_len(s.agents.len(), 8);
    lemma_le_bytes_len(i32_bits(s.delta), 4);
    lemma_agents_bytes_len(s.agents, n_phe);
    lemma_pow256_values();
    assert(b.subrange(0, 8) =~= f.subrange(0, 8));
    assert(f.subrange(0, 8) =~= le_bytes(s.env, 8));
    lemma_le_value_of_bytes(s.env, 8);
    assert(b.subrange(8, 16) =~= f.subrange(8, 16));
    assert(f.subrange(8, 16) =~= le_bytes(s.agents.len(), 8));
    lemma_le_value_of_bytes(s.agents.len(), 8);
    assert(b.subrange(16 + m, 20 + m) =~= f.subrange(16 + m, 20 + m));
    assert(f.subrange(16 + m, 20 + m) =~= le_bytes(i32_bits(s.delta), 4));
}

proof fn lemma_frame_agent(b: Seq<u8>, s: SnapshotView, n_phe: nat, i: int)
    requires
        starts_with(b, frame_bytes(s)),
        encodable(s),
        agents_valid(s.agents, n_phe),
        0 <= i < s.agents.len(),
    ensures
        b.subrange(16 + i * agent_len(n_phe), 16 + i * agent_len(n_phe) + agent_len(n_phe))
            == agent_bytes(s.agents[i]),
        le_value(b.subrange(16 + i * agent_len(n_phe), 16 + i * agent_len(n_phe) + 8))
            == s.agents[i].phe,
{
    let f = frame_bytes(s);
    let l = agent_len(n_phe);
    let m = s.agents.len() * l;
    lemma_frame_layout(b, s, n_phe);
    lemma_le_bytes_len(s.env, 8);
    lemma_le_bytes_len(s.agents.len(), 8);
    lemma_agents_bytes_len(s.agents, n_phe);
    lemma_agents_bytes_at(s.agents, n_phe, i);
    assert(i * l + l <= m) by (nonlinear_arith)
        requires
            i < s.agents.len(),
            l >= 8,
            m == s.agents.len() * l,
    ;
    assert(0 <= i * l) by (nonlinear_arith)
        requires
            i >= 0,
            l >= 8,
    ;
    assert(b.subrange(16 + i * l, 16 + i * l + l) =~= f.subrange(16 + i * l, 16 + i * l + l));
    assert(f.subrange(16 + i * l, 16 + i * l + l) =~= agents_bytes(s.agents).subrange(
        i * l,
        i * l + l,
    ));
    let a = s.agents[i];
    lemma_le_bytes_len(a.phe, 8);
    assert(b.subrange(16 + i * l, 16 + i * l + 8) =~= le_bytes(a.phe, 8));
    lemma_pow256_values();
    lemma_le_value_of_bytes(a.phe, 8);
}

/// Two valid snapshots whose frames both start `b` are the same snapshot.
proof fn lemma_frame_unique(b: Seq<u8>, s: SnapshotView, t: SnapshotView, n_phe: nat)
    requires
        starts_with(b, frame_bytes(s)),
        encodable(s),
        agents_valid(s.agents, n_phe),
        starts_with(b, frame_bytes(t)),
        encodable(t),
        agents_valid(t.agents, n_phe),
    ensures
        s == t,
{
    lemma_frame_layout(b, s, n_phe);
    lemma_frame_layout(b, t, n_phe);
    lemma_pow256_values();
    assert forall|i: int| 0 <= i < s.agents.len() implies s.agents[i] == t.agents[i] by {
        lemma_frame_agent(b, s, n_phe, i);
        lemma_frame_agent(b, t, n_phe, i);
        assert(s.agents[i].valid(n_phe) && t.agents[i].valid(n_phe));
        assert(s.agents[i].phe <= usize::MAX && t.agents[i].phe <= usize::MAX);
        lemma_agent_bytes_injective(s.agents[i], t.agents[i], n_phe);
    }
    assert(s.agents =~= t.agents);
    assert(i32_bits(s.delta) < pow256(4) && i32_bits(t.delta) < pow256(4));
    lemma_le_bytes_injective(i32_bits(s.delta), i32_bits(t.delta), 4);
}

/// Reading back a written frame gives the snapshot that was written: bytes
/// that begin with the frame of a valid snapshot hold a frame, whatever
/// follows it, and the only valid snapshot whose frame they begin with is
/// the one written.
pub proof fn lemma_read_after_write(s: SnapshotView, rest: Seq<u8>, n_phe: nat)
    requires
        encodable(s),
        agents_valid(s.agents, n_phe),
    ensures
        holds_frame(frame_bytes(s) + rest, n_phe),
        forall|t: SnapshotView|
            #[trigger] starts_with(frame_bytes(s) + rest, frame_bytes(t)) && encodable(t)
                && agents_valid(t.agents, n_phe) ==> t == s,
{
    let b = frame_bytes(s) + rest;
    assert(b.subrange(0, frame_bytes(s).len() as int) =~= frame_bytes(s));
    assert(starts_with(b, frame_bytes(s)));
    assert forall|t: SnapshotView|
        #[trigger] starts_with(b, frame_bytes(t)) && encodable(t) && agents_valid(
            t.agents,
            n_phe,
        ) implies t == s by {
        lemma_frame_unique(b, s, t, n_phe);
    }
}

/// A byte string too short to reach position `need`, where a frame with
/// `count` agents would reach past it, holds no frame.
proof fn lemma_short_no_frame(b: Seq<u8>, n_phe: nat, need: int)
    requires
        b.len() >= 16,
        b.len() < need,
        need <= 20 + le_value(b.subrange(8, 16)) * agent_len(n_phe),
    ensures
        !holds_frame(b, n_phe),
{
    if holds_frame(b, n_phe) {
        let s = choose|s: SnapshotView|
            #[trigger] starts_with(b, frame_bytes(s)) && encodable(s) && agents_valid(
                s.agents,
                n_phe,
            );
        lemma_frame_layout(b, s, n_phe);
    }
}

proof fn lemma_header_no_frame(b: Seq<u8>, n_phe: nat)
    requires
        b.len() < 16 || (b.len() >= 16 && le_value(b.subrange(0, 8)) > usize::MAX),
    ensures
        !holds_frame(b, n_phe),
{
    if holds_frame(b, n_phe) {
        let s = choose|s: SnapshotView|
            #[trigger] starts_with(b, frame_bytes(s)) && encodable(s) && agents_valid(
                s.agents,
                n_phe,
            );
        lemma_frame_layout(b, s, n_phe);
    }
}

proof fn lemma_phenotype_no_frame(b: Seq<u8>, n_phe: nat, i: int)
    requires
        b.len() >= 16,
        0 <= i < le_value(b.subrange(8, 16)),
        16 + i * agent_len(n_phe) + 8 <= b.len(),
        le_value(b.subrange(16 + i * agent_len(n_phe), 16 + i * agent_len(n_phe) + 8)) >= n_phe,
    ensures
        !holds_frame(b, n_phe),
{
    if holds_frame(b, n_phe) {
        let s = choose|s: SnapshotView|
            #[trigger] starts_with(b, frame_bytes(s)) && encodable(s) && agents_valid(
                s.agents,
                n_phe,
            );
        lemma_frame_layout(b, s, n_phe);
        lemma_frame_agent(b, s, n_phe, i);
        assert(s.agents[i].valid(n_phe));
    }
}

/// Why a frame could not be read.
#[derive(Debug, Clone, Copy, PartialEq, Eq)]
pub enum FrameError {
    /// The bytes end before the frame does.
    Truncated,
    /// The environment index does not fit a platform-width integer.
    Environment,
    /// An agent's phenotype `val` is not below `n_phe`.
    Phenotype { val: u64, n_phe: usize },
}

impl SimData {
    /// Appends the frame of this snapshot to `buf`.
    pub fn write_frame(&self, buf: &mut Vec<u8>)
        ensures
            final(buf)@ == old(buf)@ + frame_bytes(self@),
            encodable(self@),
    {
        push_le(buf, self.env as u64, WORD_BYTES);
        push_le(buf, self.agt_vec.len() as u64, WORD_BYTES);
        let ghost head = buf@;
        let mut i: usize = 0;
        assert(agent_views(self.agt_vec@.subrange(0, 0)) =~= Seq::<AgentView>::empty());
        while i < self.agt_vec.len()
            invariant
                i <= self.agt_vec@.len(),
                buf@ == head + agents_bytes(agent_views(self.agt_vec@.subrange(0, i as int))),
                forall|k: int| 0 <= k < i ==> #[trigger] self@.agents[k].phe <= usize::MAX,
            decreases self.agt_vec@.len() - i,
        {
            let ghost before = buf@;
            let a = &self.agt_vec[i];
            push_le(buf, a.phe() as u64, WORD_BYTES);
            let w = a.prob_phe();
            let ghost mid = buf@;
            let mut j: usize = 0;
            assert(w@.subrange(0, 0) =~= Seq::<u64>::empty());
            while j < w.len()
                invariant
                    j <= w@.len(),
                    buf@ == mid + weights_bytes(w@.subrange(0, j as int)),
                decreases w@.len() - j,
            {
                push_le(buf, w[j], WEIGHT_BYTES);
                proof {
                    assert(w@.subrange(0, j + 1).drop_last() =~= w@.subrange(0, j as int));
                }
                j = j + 1;
            }
            proof {
                assert(w@.subrange(0, j as int) =~= w@);
                let vs = agent_views(self.agt_vec@.subrange(0, i + 1));
                assert(vs.drop_last() =~= agent_views(self.agt_vec@.subrange(0, i as int)));
                assert(vs.last() == self.agt_vec@[i as int]@);
                assert(buf@ =~= before + agent_bytes(a@));
                assert(self@.agents[i as int].phe <= usize::MAX);
            }
            i = i + 1;
        }
        let d = self.n_agt_diff;
        let bits: u64 = if d >= 0 {
            d as u64
        } else {
            (d as i64 + 0x1_0000_0000i64) as u64
        };
        push_le(buf, bits, DELTA_BYTES);
        proof {
            assert(self.agt_vec@.subrange(0, i as int) =~= self.agt_vec@);
            assert(buf@ =~= old(buf)@ + frame_bytes(self@));
            assert(self@.agents.len() == i);
        }
    }
    /// Reads the frame at the start of `bytes`, for agents with `n_phe`
    /// phenotypes, and returns the snapshot with the number of bytes the
    /// frame takes.
    pub fn read_frame(bytes: &[u8], n_phe: usize) -> (r: Result<(SimData, usize), FrameError>)
        ensures
            r is Ok <==> holds_frame(bytes@, n_phe as nat),
            r matches Ok((d, k)) ==> {
                &&& agents_valid(d@.agents, n_phe as nat)
                &&& encodable(d@)
                &&& k == frame_bytes(d@).len()
                &&& starts_with(bytes@, frame_bytes(d@))
            },
            r == Err::<(SimData, usize), FrameError>(FrameError::Environment) ==> bytes@.len() >= 16
                && le_value(bytes@.subrange(0, 8)) > usize::MAX,
            r matches Err(FrameError::Phenotype { val, n_phe: m }) ==> m == n_phe && val >= n_phe,
            bytes@.len() < 16 ==> r == Err::<(SimData, usize), FrameError>(FrameError::Truncated),
    {
        let len = bytes.len();
        let ghost n = n_phe as nat;
        let ghost l = agent_len(n);
        if len < 2 * WORD_BYTES {
            proof {
                lemma_header_no_frame(bytes@, n);
            }
            return Err(FrameError::Truncated);
        }
        let env = read_le(bytes, 0, WORD_BYTES);
        let count = read_le(bytes, WORD_BYTES, WORD_BYTES);
        if env > usize::MAX as u64 {
            proof {
                lemma_header_no_frame(bytes@, n);
            }
            return Err(FrameError::Environment);
        }
        proof {
            lemma_bytes_of_le_value(bytes@.subrange(0, 8));
            lemma_bytes_of_le_value(bytes@.subrange(8, 16));
            assert(bytes@.subrange(0, 16) =~= bytes@.subrange(0, 8) + bytes@.subrange(8, 16));
            assert(agent_views(Seq::<AgtData>::empty()) =~= Seq::<AgentView>::empty());
        }
        let mut agt_vec: Vec<AgtData> = Vec::new();
        let mut pos: usize = 2 * WORD_BYTES;
        let mut i: u64 = 0;
        while i < count
            invariant
                len == bytes@.len(),
                16 <= pos <= len,
                i <= count,
                l == agent_len(n),
                n == n_phe,
                env as nat == le_value(bytes@.subrange(0, 8)),
                count as nat == le_value(bytes@.subrange(8, 16)),
                env <= usize::MAX,
                agt_vec@.len() == i,
                agents_valid(agent_views(agt_vec@), n),
                pos == 16 + i * l,
                bytes@.subrange(0, pos as int) == le_bytes(env as nat, 8) + le_bytes(count as nat, 8)
                    + agents_bytes(agent_views(agt_vec@)),
            decreases count - i,
        {
            proof {
                assert(i * l + l <= count * l) by (nonlinear_arith)
                    requires
                        i < count,
                        l >= 8,
                ;
            }
            if len - pos < WORD_BYTES {
                proof {
                    lemma_short_no_frame(bytes@, n, pos + 8);
                }
                return Err(FrameError::Truncated);
            }
            let phe_bits = read_le(bytes, pos, WORD_BYTES);
            if phe_bits >= n_phe as u64 {
                proof {
                    lemma_phenotype_no_frame(bytes@, n, i as int);
                }
                return Err(FrameError::Phenotype { val: phe_bits, n_phe });
            }
            let phe = phe_bits as usize;
            proof {
                lemma_bytes_of_le_value(bytes@.subrange(pos as int, pos + 8));
            }
            let mut w: Vec<u64> = Vec::new();
            let mut q: usize = pos + WORD_BYTES;
            let mut j: usize = 0;
            while j < n_phe
                invariant
                    len == bytes@.len(),
                    pos + 8 <= q <= len,
                    j <= n_phe,
                    w@.len() == j,
                    q == pos + 8 + 8 * j,
                    pos == 16 + i * l,
                    i * l + l <= count * l,
                    l == agent_len(n),
                    n == n_phe,
                    count as nat == le_value(bytes@.subrange(8, 16)),
                    bytes@.subrange(pos as int, q as int) == le_bytes(phe as nat, 8)
                        + weights_bytes(w@),
                decreases n_phe - j,
            {
                if len - q < WEIGHT_BYTES {
                    proof {
                        lemma_short_no_frame(bytes@, n, q + 8);
                    }
                    return Err(FrameError::Truncated);
                }
                let x = read_le(bytes, q, WEIGHT_BYTES);
                proof {
                    lemma_bytes_of_le_value(bytes@.subrange(q as int, q + 8));
                    assert(bytes@.subrange(pos as int, q + 8) =~= bytes@.subrange(pos as int, q as int)
                        + bytes@.subrange(q as int, q + 8));
                }
                let ghost w_old = w@;
                w.push(x);
                proof {
                    assert(w@.drop_last() =~= w_old);
                }
                q = q + WEIGHT_BYTES;
                j = j + 1;
            }
            let a = match AgtData::new(phe, w, n_phe) {
                Ok(a) => a,
                Err(_) => {
                    return Err(FrameError::Phenotype { val: phe_bits, n_phe });
                },
            };
            let ghost before = agt_vec@;
            agt_vec.push(a);
            proof {
                assert(agent_views(agt_vec@).drop_last() =~= agent_views(before));
                assert(agent_views(agt_vec@).last() == a@);
                assert(bytes@.subrange(0, q as int) =~= bytes@.subrange(0, pos as int)
                    + bytes@.subrange(pos as int, q as int));
                assert(q == 16 + (i + 1) * l) by (nonlinear_arith)
                    requires
                        q == pos + 8 + 8 * n,
                        pos == 16 + i * l,
                        l == 8 + 8 * n,
                ;
                assert forall|k: int| 0 <= k < agent_views(agt_vec@).len() implies #[trigger] agent_views(agt_vec@)[k].valid(n) by {
                    if k < before.len() {
                        assert(agent_views(agt_vec@)[k] == agent_views(before)[k]);
                    }
                }
            }
            pos = q;
            i = i + 1;
        }
        if len - pos < DELTA_BYTES {
            proof {
                lemma_short_no_frame(bytes@, n, pos + 4);
            }
            return Err(FrameError::Truncated);
        }
        let bits = read_le(bytes, pos, DELTA_BYTES);
        proof {
            lemma_le_value_bound(bytes@.subrange(pos as int, pos + 4));
            lemma_pow256_values();
            lemma_bytes_of_le_value(bytes@.subrange(pos as int, pos + 4));
        }
        let d: i32 = if bits < 0x8000_0000 {
            bits as i32
        } else {
            ((bits - 0x8000_0000) as i32) - 0x7fff_ffff - 1
        };
        let sim = SimData { env: env as usize, agt_vec, n_agt_diff: d };
        proof {
            assert(i32_bits(d as int) == bits);
            assert(bytes@.subrange(0, pos + 4) =~= bytes@.subrange(0, pos as int)
                + bytes@.subrange(pos as int, pos + 4));
            assert(sim@.agents.len() == count);
            assert(frame_bytes(sim@) =~= bytes@.subrange(0, pos + 4));
            assert(starts_with(bytes@, frame_bytes(sim@)));
            assert(agents_valid(sim@.agents, n));
            assert forall|k: int| 0 <= k < sim@.agents.len() implies #[trigger] sim@.agents[k].phe <= usize::MAX by {
                assert(sim@.agents[k].valid(n));
            }
            assert(i <= i * l) by (nonlinear_arith)
                requires
                    l >= 8,
            ;
            assert(encodable(sim@));
            assert(holds_frame(bytes@, n));
        }
        Ok((sim, pos + DELTA_BYTES))
    }
}

} // verus!
