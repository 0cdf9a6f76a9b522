use vstd::prelude::*;

use crate::beam::{
    Beam,
    Hypothesis,
    checked_power,
    child_of,
    lemma_extend_non_increasing,
    lemma_power_base_monotone,
    lemma_power_positive,
    power,
};
use crate::rank::{is_top_k, lemma_top_k_unique, rankable, top_k};

verus! {

/// Ways in which a decode fails.
#[derive(Clone, Copy, Debug, PartialEq, Eq, Structural)]
pub enum DecodeError {
    /// A scoring call failed, or handed back scores of the wrong shape.
    OracleError,
    /// A step left neither live nor finished hypotheses.
    DecodeExhausted,
    /// The configuration cannot be decoded with.
    InvalidConfig,
    /// The caller cancelled the decode between two steps.
    Cancelled,
}

/// Where a decode stands.
#[derive(Clone, Copy, Debug, PartialEq, Eq, Structural)]
pub enum Phase {
    /// The frontier waits for its next scores.
    Running,
    /// The finished pool reached the beam width.
    EarlyStopped,
    /// The step budget ran out.
    Exhausted,
    /// A step produced no live candidate.
    CandidatesEmpty,
    /// The decode ended in an error.
    Failed(DecodeError),
}

/// Parameters of one decode.
#[derive(Clone, Copy, Debug, PartialEq, Eq, Structural)]
pub struct DecodeConfig {
    /// Number of token ids that a score row covers.
    pub vocab_size: usize,
    pub start_token: usize,
    pub end_token: usize,
    /// Live hypotheses kept per step, and tokens expanded per hypothesis.
    pub beam_width: usize,
    /// Most scoring rounds a decode runs.
    pub max_steps: usize,
    /// The normalized score of a hypothesis is its log-probability divided by its
    /// length raised to this power.
    pub length_exponent: u32,
}

impl DecodeConfig {
    /// A configuration can be decoded with: a positive width and step budget,
    /// distinct start and end ids inside the vocabulary, and length weights that
    /// fit in a `u64`.
    pub open spec fn valid(self) -> bool {
        &&& self.beam_width >= 1
        &&& self.max_steps >= 1
        &&& self.max_steps < usize::MAX
        &&& self.start_token < self.vocab_size
        &&& self.end_token < self.vocab_size
        &&& self.start_token != self.end_token
        &&& power((self.max_steps + 1) as nat, self.length_exponent as nat) <= u64::MAX
    }

    /// The usual settings: width 4, at most 300 steps, lengths squared.
    pub fn with_defaults(vocab_size: usize, start_token: usize, end_token: usize) -> (r:
        DecodeConfig)
        ensures
            r.vocab_size == vocab_size,
            r.start_token == start_token,
            r.end_token == end_token,
            r.beam_width == 4,
            r.max_steps == 300,
            r.length_exponent == 2,
    {
        DecodeConfig {
            vocab_size,
            start_token,
            end_token,
            beam_width: 4,
            max_steps: 300,
            length_exponent: 2,
        }
    }

    /// Checks the configuration before any scoring takes place.
    pub fn validate(&self) -> (r: Result<(), DecodeError>)
        ensures
            r is Ok <==> self.valid(),
            r is Err ==> r == Err::<(), DecodeError>(DecodeError::InvalidConfig),
    {
        if self.beam_width == 0 || self.max_steps == 0 || self.max_steps == usize::MAX
            || self.start_token >= self.vocab_size || self.end_token >= self.vocab_size
            || self.start_token == self.end_token {
            return Err(DecodeError::InvalidConfig);
        }
        match checked_power((self.max_steps + 1) as u64, self.length_exponent) {
            Some(_) => Ok(()),
            None => Err(DecodeError::InvalidConfig),
        }
    }
}

/// The hypotheses that a sequence of beams stands for.
pub open spec fn models(bs: Seq<Beam>) -> Seq<Hypothesis> {
    bs.map_values(|b: Beam| b@)
}

/// Score rows as sequences.
pub open spec fn rows_view(rows: Seq<Vec<i64>>) -> Seq<Seq<i64>> {
    rows.map_values(|r: Vec<i64>| r@)
}

/// Cumulative log-probabilities of hypotheses, in order.
pub open spec fn scores_of(hs: Seq<Hypothesis>) -> Seq<i64> {
    hs.map_values(|h: Hypothesis| h.log_prob)
}

/// Length weights of hypotheses, in order: each length raised to the power `p`.
pub open spec fn weights_of(hs: Seq<Hypothesis>, p: nat) -> Seq<u64> {
    hs.map_values(|h: Hypothesis| power(h.tokens.len(), p) as u64)
}

/// A weight of one for each of `n` positions: ranking by the score alone.
pub open spec fn unit_weights(n: nat) -> Seq<u64> {
    Seq::new(n, |i: int| 1u64)
}

/// `i` is the position of the hypothesis with the highest normalized score,
/// the earliest among equals.
pub open spec fn is_best(hs: Seq<Hypothesis>, p: nat, i: usize) -> bool {
    is_top_k(scores_of(hs), weights_of(hs, p), 1, seq![i])
}

/// One row of log-probabilities per live hypothesis, each covering the vocabulary,
/// none above zero.
pub open spec fn well_formed_rows(rows: Seq<Seq<i64>>, n: nat, vocab_size: nat) -> bool {
    &&& rows.len() == n
    &&& forall|a: int| 0 <= a < n ==> #[trigger] rows[a].len() == vocab_size
    &&& forall|a: int, t: int|
        0 <= a < n && 0 <= t < vocab_size ==> #[trigger] rows[a][t] <= 0
}

/// The children of `h` for the selected tokens `sel`, in selection order.
pub open spec fn children(h: Hypothesis, row: Seq<i64>, sel: Seq<usize>) -> Seq<Hypothesis> {
    sel.map_values(|t: usize| child_of(h, t, row[t as int]))
}

/// The children of the first `n` frontier hypotheses, frontier order first.
pub open spec fn expansions(
    front: Seq<Hypothesis>,
    rows: Seq<Seq<i64>>,
    sels: Seq<Seq<usize>>,
    n: nat,
) -> Seq<Hypothesis>
    decreases n,
{
    if n == 0 {
        Seq::empty()
    } else {
        expansions(front, rows, sels, (n - 1) as nat) + children(
            front[n - 1],
            rows[n - 1],
            sels[n - 1],
        )
    }
}

/// Whether a hypothesis ends with the token `end`.
pub open spec fn ends_with(h: Hypothesis, end: usize) -> bool {
    h.tokens.last() == end
}

/// The hypotheses of `hs` that end with `end`, in order.
pub open spec fn done_part(hs: Seq<Hypothesis>, end: usize) -> Seq<Hypothesis> {
    hs.filter(|h: Hypothesis| ends_with(h, end))
}

/// The hypotheses of `hs` that do not end with `end`, in order.
pub open spec fn live_part(hs: Seq<Hypothesis>, end: usize) -> Seq<Hypothesis> {
    hs.filter(|h: Hypothesis| !ends_with(h, end))
}

/// The state of a decode.
pub ghost struct DecoderModel {
    pub config: DecodeConfig,
    pub frontier: Seq<Hypothesis>,
    pub finished: Seq<Hypothesis>,
    pub steps: nat,
    pub phase: Phase,
}

impl DecoderModel {
    /// Invariant of every decode state.
    pub open spec fn well_formed(self) -> bool {
        let cfg = self.config;
        &&& cfg.valid()
        &&& self.steps <= cfg.max_steps
        &&& self.frontier.len() <= cfg.beam_width
        &&& forall|i: int|
            0 <= i < self.frontier.len() ==> {
                let f = #[trigger] self.frontier[i];
                &&& f.tokens.len() == self.steps + 1 || (self.phase == Phase::EarlyStopped
                    && f.tokens.len() == self.steps)
                &&& f.tokens.len() >= 1
                &&& f.tokens[0] == cfg.start_token
                &&& f.log_prob <= 0
            }
        &&& forall|i: int|
            0 <= i < self.finished.len() ==> {
                let h = #[trigger] self.finished[i];
                &&& 2 <= h.tokens.len() <= self.steps + 1
                &&& h.tokens[0] == cfg.start_token
                &&& ends_with(h, cfg.end_token)
                &&& h.log_prob <= 0
            }
        &&& self.phase == Phase::Running ==> {
            &&& self.steps < cfg.max_steps
            &&& self.frontier.len() >= 1
            &&& self.finished.len() < cfg.beam_width
        }
    }

    /// This state with its phase replaced.
    pub open spec fn with_phase(self, phase: Phase) -> DecoderModel {
        DecoderModel { phase, ..self }
    }

    /// The state in which a decode with configuration `cfg` begins.
    pub open spec fn initial(cfg: DecodeConfig) -> DecoderModel {
        DecoderModel {
            config: cfg,
            frontier: seq![Hypothesis { tokens: seq![cfg.start_token], log_prob: 0 }],
            finished: Seq::empty(),
            steps: 0,
            phase: Phase::Running,
        }
    }

    /// One scoring round, for the token selections `sels` (one per frontier
    /// hypothesis) and the kept candidate positions `keep`.
    pub open spec fn step_with(
        self,
        rows: Seq<Seq<i64>>,
        sels: Seq<Seq<usize>>,
        keep: Seq<usize>,
        next: DecoderModel,
    ) -> bool {
        let cfg = self.config;
        let all = expansions(self.frontier, rows, sels, self.frontier.len());
        let done = done_part(all, cfg.end_token);
        let live = live_part(all, cfg.end_token);
        &&& sels.len() == self.frontier.len()
        &&& forall|a: int|
            0 <= a < sels.len() ==> is_top_k(
                rows[a],
                unit_weights(rows[a].len()),
                cfg.beam_width as int,
                #[trigger] sels[a],
            )
        &&& next.config == cfg
        &&& next.finished == self.finished + done
        &&& next.steps == self.steps + 1
        &&& if next.finished.len() >= cfg.beam_width {
            next.phase == Phase::EarlyStopped && next.frontier == self.frontier
        } else if live.len() == 0 {
            next.phase == Phase::CandidatesEmpty && next.frontier == Seq::<Hypothesis>::empty()
        } else {
            &&& is_top_k(
                scores_of(live),
                weights_of(live, cfg.length_exponent as nat),
                cfg.beam_width as int,
                keep,
            )
            &&& next.frontier == keep.map_values(|i: usize| live[i as int])
            &&& next.phase == if next.steps == cfg.max_steps {
                Phase::Exhausted
            } else {
                Phase::Running
            }
        }
    }

    /// `next` follows from this state by one scoring round over `rows`: each
    /// frontier hypothesis is extended by its `beam_width` best tokens (ties to the
    /// smaller id); children that end with the end token join the finished pool;
    /// the decode stops once that pool holds `beam_width` hypotheses, or when no
    /// live child is left; else the `beam_width` live children with the highest
    /// normalized score (ties to the earlier child) form the next frontier.
    pub open spec fn step(self, rows: Seq<Seq<i64>>, next: DecoderModel) -> bool {
        exists|sels: Seq<Seq<usize>>, keep: Seq<usize>| self.step_with(rows, sels, keep, next)
    }

    /// The outcome that the final selection gives in this state: the error of a
    /// failed decode; else the best finished hypothesis; else the best frontier
    /// hypothesis; else `DecodeExhausted`.
    pub open spec fn picks(self, r: Result<Hypothesis, DecodeError>) -> bool {
        let p = self.config.length_exponent as nat;
        match self.phase {
            Phase::Failed(e) => r == Err::<Hypothesis, DecodeError>(e),
            _ => if self.finished.len() > 0 {
                exists|i: usize|
                    is_best(self.finished, p, i) && r == Ok::<Hypothesis, DecodeError>(
                        self.finished[i as int],
                    )
            } else if self.frontier.len() > 0 {
                exists|i: usize|
                    is_best(self.frontier, p, i) && r == Ok::<Hypothesis, DecodeError>(
                        self.frontier[i as int],
                    )
            } else {
                r == Err::<Hypothesis, DecodeError>(DecodeError::DecodeExhausted)
            },
        }
    }
}

/// Determinism of a scoring round: the same state and the same rows lead to one
/// next state only.
pub proof fn lemma_step_deterministic(
    m: DecoderModel,
    rows: Seq<Seq<i64>>,
    n1: DecoderModel,
    n2: DecoderModel,
)
    requires
        m.step(rows, n1),
        m.step(rows, n2),
    ensures
        n1 == n2,
{
    let (sels1, keep1) = choose|sels: Seq<Seq<usize>>, keep: Seq<usize>|
        m.step_with(rows, sels, keep, n1);
    let (sels2, keep2) = choose|sels: Seq<Seq<usize>>, keep: Seq<usize>|
        m.step_with(rows, sels, keep, n2);
    let cfg = m.config;
    assert forall|a: int| 0 <= a < sels1.len() implies sels1[a] == sels2[a] by {
        lemma_top_k_unique(
            rows[a],
            unit_weights(rows[a].len()),
            cfg.beam_width as int,
            sels1[a],
            sels2[a],
        );
    }
    assert(sels1 =~= sels2);
    let all = expansions(m.frontier, rows, sels1, m.frontier.len());
    let live = live_part(all, cfg.end_token);
    assert(n1.finished == n2.finished);
    if n1.finished.len() < cfg.beam_width && live.len() != 0 {
        lemma_top_k_unique(
            scores_of(live),
            weights_of(live, cfg.length_exponent as nat),
            cfg.beam_width as int,
            keep1,
            keep2,
        );
    }
    assert(n1.frontier == n2.frontier);
}

/// Determinism of the final selection: a state picks one outcome only.
pub proof fn lemma_pick_deterministic(
    m: DecoderModel,
    r1: Result<Hypothesis, DecodeError>,
    r2: Result<Hypothesis, DecodeError>,
)
    requires
        m.picks(r1),
        m.picks(r2),
    ensures
        r1 == r2,
{
    let p = m.config.length_exponent as nat;
    if !(m.phase is Failed) {
        if m.finished.len() > 0 {
            let i = choose|i: usize| is_best(m.finished, p, i) && r1 == Ok::<Hypothesis, DecodeError>(m.finished[i as int]);
            let j = choose|j: usize| is_best(m.finished, p, j) && r2 == Ok::<Hypothesis, DecodeError>(m.finished[j as int]);
            lemma_top_k_unique(scores_of(m.finished), weights_of(m.finished, p), 1, seq![i], seq![j]);
            assert(seq![i][0] == i);
        } else if m.frontier.len() > 0 {
            let i = choose|i: usize| is_best(m.frontier, p, i) && r1 == Ok::<Hypothesis, DecodeError>(m.frontier[i as int]);
            let j = choose|j: usize| is_best(m.frontier, p, j) && r2 == Ok::<Hypothesis, DecodeError>(m.frontier[j as int]);
            lemma_top_k_unique(scores_of(m.frontier), weights_of(m.frontier, p), 1, seq![i], seq![j]);
            assert(seq![i][0] == i);
        }
    }
}

/// Early stop: a round after which the finished pool holds at least
/// `beam_width` hypotheses leaves the decode early-stopped, so that no further
/// prefix is scored, within the step budget.
pub proof fn lemma_early_stop(m: DecoderModel, rows: Seq<Seq<i64>>, next: DecoderModel)
    requires
        m.well_formed(),
        m.phase == Phase::Running,
        m.step(rows, next),
        next.finished.len() >= m.config.beam_width,
    ensures
        next.phase == Phase::EarlyStopped,
        next.steps <= m.config.max_steps,
{
}

/// The size of the frontier never exceeds the beam width.
pub proof fn lemma_frontier_bounded(m: DecoderModel)
    requires
        m.well_formed(),
    ensures
        m.frontier.len() <= m.config.beam_width,
{
}

/// What a call that leaves the decode in `phase` reports.
pub open spec fn reported(phase: Phase) -> Result<Phase, DecodeError> {
    match phase {
        Phase::Failed(e) => Err(e),
        _ => Ok(phase),
    }
}

/// A hypothesis result as a model.
pub open spec fn result_view(r: Result<Beam, DecodeError>) -> Result<Hypothesis, DecodeError> {
    match r {
        Ok(b) => Ok(b@),
        Err(e) => Err(e),
    }
}

/// Filtering a sequence extended by one element.
pub proof fn lemma_filter_push<A>(s: Seq<A>, x: A, pred: spec_fn(A) -> bool)
    ensures
        s.push(x).filter(pred) == if pred(x) {
            s.filter(pred).push(x)
        } else {
            s.filter(pred)
        },
{
    reveal(Seq::filter);
    assert(s.push(x).drop_last() =~= s);
    assert(s.push(x).last() == x);
}

proof fn lemma_parts_push(s: Seq<Hypothesis>, x: Hypothesis, end: usize)
    ensures
        done_part(s.push(x), end) == if ends_with(x, end) {
            done_part(s, end).push(x)
        } else {
            done_part(s, end)
        },
        live_part(s.push(x), end) == if ends_with(x, end) {
            live_part(s, end)
        } else {
            live_part(s, end).push(x)
        },
{
    lemma_filter_push(s, x, |h: Hypothesis| ends_with(h, end));
    lemma_filter_push(s, x, |h: Hypothesis| !ends_with(h, end));
}

proof fn lemma_expansions_frame(
    front: Seq<Hypothesis>,
    rows: Seq<Seq<i64>>,
    s1: Seq<Seq<usize>>,
    s2: Seq<Seq<usize>>,
    n: nat,
)
    requires
        n <= s1.len(),
        n <= s2.len(),
        forall|b: int| 0 <= b < n ==> s1[b] == s2[b],
    ensures
        expansions(front, rows, s1, n) == expansions(front, rows, s2, n),
    decreases n,
{
    if n > 0 {
        lemma_expansions_frame(front, rows, s1, s2, (n - 1) as nat);
    }
}

/// Whether every row covers the vocabulary with log-probabilities of at most zero.
fn rows_ok(rows: &Vec<Vec<i64>>, n: usize, vocab_size: usize) -> (r: bool)
    ensures
        r == well_formed_rows(rows_view(rows@), n as nat, vocab_size as nat),
{
    if rows.len() != n {
        return false;
    }
    let mut a: usize = 0;
    while a < n
        invariant
            rows.len() == n,
            0 <= a <= n,
            forall|b: int| 0 <= b < a ==> #[trigger] rows[b]@.len() == vocab_size,
            forall|b: int, t: int|
                0 <= b < a && 0 <= t < vocab_size ==> #[trigger] rows[b]@[t] <= 0,
        decreases n - a,
    {
        let row = &rows[a];
        assert(rows_view(rows@)[a as int] == row@);
        if row.len() != vocab_size {
            assert(rows_view(rows@)[a as int].len() != vocab_size);
            return false;
        }
        let mut t: usize = 0;
        while t < vocab_size
            invariant
                rows.len() == n,
                a < n,
                row@ == rows[a as int]@,
                row.len() == vocab_size,
                0 <= t <= vocab_size,
                forall|u: int| 0 <= u < t ==> row@[u] <= 0,
            decreases vocab_size - t,
        {
            if row[t] > 0 {
                assert(rows_view(rows@)[a as int][t as int] > 0);
                return false;
            }
            t = t + 1;
        }
        assert forall|b: int, t: int|
            0 <= b < a + 1 && 0 <= t < vocab_size implies #[trigger] rows[b]@[t] <= 0 by {
            if b == a {
                assert(row@[t] <= 0);
            }
        }
        a = a + 1;
    }
    assert(rows_view(rows@).len() == n);
    assert forall|b: int| 0 <= b < n implies #[trigger] rows_view(rows@)[b].len() == vocab_size by {
        assert(rows_view(rows@)[b] == rows[b]@);
    }
    assert forall|b: int, t: int|
        0 <= b < n && 0 <= t < vocab_size implies #[trigger] rows_view(rows@)[b][t] <= 0 by {
        assert(rows_view(rows@)[b] == rows[b]@);
    }
    true
}

/// A weight of one for each of `n` positions.
fn unit_weights_vec(n: usize) -> (r: Vec<u64>)
    ensures
        r@ == unit_weights(n as nat),
{
    let mut r: Vec<u64> = Vec::new();
    let mut i: usize = 0;
    while i < n
        invariant
            0 <= i <= n,
            r@ == unit_weights(i as nat),
        decreases n - i,
    {
        r.push(1u64);
        i = i + 1;
        assert(r@ =~= unit_weights(i as nat));
    }
    r
}

/// The scores and length weights by which `beams` are ranked.
fn rank_inputs(beams: &Vec<Beam>, p: u32, bound: usize) -> (r: (Vec<i64>, Vec<u64>))
    requires
        power(bound as nat, p as nat) <= u64::MAX,
        forall|i: int|
            0 <= i < beams.len() ==> 1 <= #[trigger] beams[i].token_ids.len() <= bound,
    ensures
        r.0@ == scores_of(models(beams@)),
        r.1@ == weights_of(models(beams@), p as nat),
        rankable(r.0@, r.1@),
{
    let mut xs: Vec<i64> = Vec::new();
    let mut ws: Vec<u64> = Vec::new();
    let mut i: usize = 0;
    while i < beams.len()
        invariant
            power(bound as nat, p as nat) <= u64::MAX,
            forall|j: int|
                0 <= j < beams.len() ==> 1 <= #[trigger] beams[j].token_ids.len() <= bound,
            0 <= i <= beams.len(),
            xs@ == scores_of(models(beams@.subrange(0, i as int))),
            ws@ == weights_of(models(beams@.subrange(0, i as int)), p as nat),
            forall|j: int| 0 <= j < i ==> ws[j] > 0,
        decreases beams.len() - i,
    {
        let b = &beams[i];
        let len = b.token_ids.len();
        proof {
            lemma_power_base_monotone(len as nat, bound as nat, p as nat);
            lemma_power_positive(len as nat, p as nat);
        }
        let w: u64 = match checked_power(len as u64, p) {
            Some(v) => v,
            None => 1,
        };
        xs.push(b.log_prob);
        ws.push(w);
        i = i + 1;
        assert(xs@ =~= scores_of(models(beams@.subrange(0, i as int))));
        assert(ws@ =~= weights_of(models(beams@.subrange(0, i as int)), p as nat));
    }
    assert(beams@.subrange(0, i as int) =~= beams@);
    (xs, ws)
}


/// A beam-search decode, advanced one scoring round at a time by its caller, who
/// scores each frontier prefix and hands the rows back.
pub struct Decoder {
    config: DecodeConfig,
    frontier: Vec<Beam>,
    finished: Vec<Beam>,
    steps: usize,
    phase: Phase,
}

impl View for Decoder {
    type V = DecoderModel;

    closed spec fn view(&self) -> DecoderModel {
        DecoderModel {
            config: self.config,
            frontier: models(self.frontier@),
            finished: models(self.finished@),
            steps: self.steps as nat,
            phase: self.phase,
        }
    }
}

impl Decoder {
    /// Starts a decode: fails with `InvalidConfig` exactly when the configuration
    /// is not valid, and otherwise holds the start-token beam alone.
    pub fn new(config: DecodeConfig) -> (r: Result<Decoder, DecodeError>)
        ensures
            r is Ok <==> config.valid(),
            r matches Ok(d) ==> d@ == DecoderModel::initial(config) && d@.well_formed(),
            r is Err ==> r == Err::<Decoder, DecodeError>(DecodeError::InvalidConfig),
    {
        match config.validate() {
            Err(e) => Err(e),
            Ok(()) => {
                let mut frontier: Vec<Beam> = Vec::new();
                frontier.push(Beam::new(config.start_token));
                let d = Decoder {
                    config,
                    frontier,
                    finished: Vec::new(),
                    steps: 0,
                    phase: Phase::Running,
                };
                assert(d@.frontier =~= DecoderModel::initial(config).frontier);
                assert(d@.finished =~= Seq::<Hypothesis>::empty());
                Ok(d)
            },
        }
    }

    /// The prefixes that the next scoring round asks for: the frontier's token
    /// sequences while the decode runs, and none once it has stopped.
    pub fn prefixes(&self) -> (r: Vec<Vec<usize>>)
        ensures
            self@.phase == Phase::Running ==> r@.len() == self@.frontier.len() && forall|i: int|
                0 <= i < r@.len() ==> #[trigger] r@[i]@ == self@.frontier[i].tokens,
            self@.phase != Phase::Running ==> r@.len() == 0,
    {
        let mut r: Vec<Vec<usize>> = Vec::new();
        if self.phase != Phase::Running {
            return r;
        }
        let mut i: usize = 0;
        while i < self.frontier.len()
            invariant
                0 <= i <= self.frontier.len(),
                r@.len() == i,
                forall|j: int| 0 <= j < i ==> #[trigger] r@[j]@ == self@.frontier[j].tokens,
            decreases self.frontier.len() - i,
        {
            let b = self.frontier[i].duplicate();
            r.push(b.token_ids);
            i = i + 1;
        }
        r
    }

    /// Ends a running decode with `cause` (a failed scoring call, or a
    /// cancellation between steps); a decode that has stopped stays as it is.
    pub fn abort(&mut self, cause: DecodeError) -> (r: Result<Phase, DecodeError>)
        requires
            old(self)@.well_formed(),
        ensures
            final(self)@.well_formed(),
            r == reported(final(self)@.phase),
            old(self)@.phase == Phase::Running ==> final(self)@ == old(self)@.with_phase(
                Phase::Failed(cause),
            ),
            old(self)@.phase != Phase::Running ==> final(self)@ == old(self)@,
    {
        if self.phase == Phase::Running {
            self.phase = Phase::Failed(cause);
        }
        match self.phase {
            Phase::Failed(e) => Err(e),
            other => Ok(other),
        }
    }

    /// Runs one scoring round with `rows[i]`, the log-probabilities over the
    /// vocabulary for the `i`-th frontier prefix. Rows of the wrong shape, or with
    /// an entry above zero, end the decode with `OracleError`. A decode that has
    /// stopped stays as it is.
    pub fn advance(&mut self, rows: Vec<Vec<i64>>) -> (r: Result<Phase, DecodeError>)
        requires
            old(self)@.well_formed(),
        ensures
            final(self)@.well_formed(),
            final(self)@.frontier.len() <= final(self)@.config.beam_width,
            final(self)@.finished.len() >= final(self)@.config.beam_width ==> final(self)@.phase
                != Phase::Running,
            r == reported(final(self)@.phase),
            old(self)@.phase != Phase::Running ==> final(self)@ == old(self)@,
            old(self)@.phase == Phase::Running && !well_formed_rows(
                rows_view(rows@),
                old(self)@.frontier.len(),
                old(self)@.config.vocab_size as nat,
            ) ==> final(self)@ == old(self)@.with_phase(Phase::Failed(DecodeError::OracleError)),
            old(self)@.phase == Phase::Running && well_formed_rows(
                rows_view(rows@),
                old(self)@.frontier.len(),
                old(self)@.config.vocab_size as nat,
            ) ==> old(self)@.step(rows_view(rows@), final(self)@),
    {
        if self.phase != Phase::Running {
            return match self.phase {
                Phase::Failed(e) => Err(e),
                other => Ok(other),
            };
        }
        let cfg = self.config;
        let n = self.frontier.len();
        if !rows_ok(&rows, n, cfg.vocab_size) {
            self.phase = Phase::Failed(DecodeError::OracleError);
            return Err(DecodeError::OracleError);
        }
        let ghost old_model = self@;
        let ghost rv = rows_view(rows@);
        let ghost end = cfg.end_token;
        let ghost steps = self.steps as int;
        let ones = unit_weights_vec(cfg.vocab_size);
        let mut done: Vec<Beam> = Vec::new();
        let mut live: Vec<Beam> = Vec::new();
        let ghost mut sels: Seq<Seq<usize>> = Seq::empty();
        let mut a: usize = 0;
        while a < n
            invariant
                self@ == old_model,
                self.config == cfg,
                self.steps == steps,
                n == self.frontier.len(),
                end == cfg.end_token,
                old_model.well_formed(),
                old_model.phase == Phase::Running,
                rv == rows_view(rows@),
                well_formed_rows(rv, n as nat, cfg.vocab_size as nat),
                ones@ == unit_weights(cfg.vocab_size as nat),
                0 <= a <= n,
                sels.len() == a,
                forall|b: int|
                    0 <= b < a ==> is_top_k(
                        rv[b],
                        unit_weights(rv[b].len()),
                        cfg.beam_width as int,
                        #[trigger] sels[b],
                    ),
                models(done@) == done_part(expansions(old_model.frontier, rv, sels, a as nat), end),
                models(live@) == live_part(expansions(old_model.frontier, rv, sels, a as nat), end),
                forall|i: int|
                    0 <= i < done.len() ==> {
                        let h = #[trigger] done[i]@;
                        &&& h.tokens.len() == steps + 2
                        &&& h.tokens[0] == cfg.start_token
                        &&& ends_with(h, end)
                        &&& h.log_prob <= 0
                    },
                forall|i: int|
                    0 <= i < live.len() ==> {
                        let h = #[trigger] live[i]@;
                        &&& h.tokens.len() == steps + 2
                        &&& h.tokens[0] == cfg.start_token
                        &&& h.log_prob <= 0
                    },
            decreases n - a,
        {
            let row = &rows[a];
            assert(rv[a as int] == row@);
            let sel = top_k(row, &ones, cfg.beam_width);
            let ghost base = expansions(old_model.frontier, rv, sels, a as nat);
            let ghost f = old_model.frontier[a as int];
            assert(self.frontier@[a as int]@ == f);
            let mut j: usize = 0;
            while j < sel.len()
                invariant
                    self@ == old_model,
                    self.config == cfg,
                    self.steps == steps,
                    n == self.frontier.len(),
                    a < n,
                    end == cfg.end_token,
                    old_model.well_formed(),
                    old_model.phase == Phase::Running,
                    self.frontier@[a as int]@ == f,
                    f == old_model.frontier[a as int],
                    rv[a as int] == row@,
                    row.len() == cfg.vocab_size,
                    forall|t: int| 0 <= t < cfg.vocab_size ==> row@[t] <= 0,
                    forall|q: int| 0 <= q < sel.len() ==> sel[q] < cfg.vocab_size,
                    0 <= j <= sel.len(),
                    models(done@) == done_part(
                        base + children(f, rv[a as int], sel@.take(j as int)),
                        end,
                    ),
                    models(live@) == live_part(
                        base + children(f, rv[a as int], sel@.take(j as int)),
                        end,
                    ),
                    forall|i: int|
                        0 <= i < done.len() ==> {
                            let h = #[trigger] done[i]@;
                            &&& h.tokens.len() == steps + 2
                            &&& h.tokens[0] == cfg.start_token
                            &&& ends_with(h, end)
                            &&& h.log_prob <= 0
                        },
                    forall|i: int|
                        0 <= i < live.len() ==> {
                            let h = #[trigger] live[i]@;
                            &&& h.tokens.len() == steps + 2
                            &&& h.tokens[0] == cfg.start_token
                            &&& h.log_prob <= 0
                        },
                decreases sel.len() - j,
            {
                let t = sel[j];
                let lp = row[t];
                let c = self.frontier[a].child(t, lp);
                proof {
                    let prev = base + children(f, rv[a as int], sel@.take(j as int));
                    assert(children(f, rv[a as int], sel@.take(j + 1)) =~= children(
                        f,
                        rv[a as int],
                        sel@.take(j as int),
                    ).push(c@));
                    assert(base + children(f, rv[a as int], sel@.take(j + 1)) =~= prev.push(c@));
                    lemma_parts_push(prev, c@, end);
                    lemma_extend_non_increasing(f.log_prob, lp);
                    assert(c@.tokens[0] == f.tokens[0]);
                }
                if t == cfg.end_token {
                    done.push(c);
                    proof {
                        assert(models(done@) =~= models(done@.drop_last()).push(c@));
                    }
                } else {
                    live.push(c);
                    proof {
                        assert(models(live@) =~= models(live@.drop_last()).push(c@));
                    }
                }
                j = j + 1;
            }
            proof {
                let new_sels = sels.push(sel@);
                lemma_expansions_frame(old_model.frontier, rv, sels, new_sels, a as nat);
                assert(sel@.take(sel.len() as int) =~= sel@);
                assert(expansions(old_model.frontier, rv, new_sels, (a + 1) as nat) == base
                    + children(f, rv[a as int], sel@));
                assert(rv[a as int].len() == cfg.vocab_size);
                sels = new_sels;
            }
            a = a + 1;
        }
        let ghost all = expansions(old_model.frontier, rv, sels, n as nat);
        let ghost done_model = models(done@);
        self.finished.append(&mut done);
        self.steps = self.steps + 1;
        assert(models(self.finished@) =~= old_model.finished + done_model);
        if self.finished.len() >= cfg.beam_width {
            self.phase = Phase::EarlyStopped;
            assert(old_model.step_with(rv, sels, Seq::empty(), self@));
            return Ok(Phase::EarlyStopped);
        }
        if live.len() == 0 {
            self.frontier = Vec::new();
            self.phase = Phase::CandidatesEmpty;
            assert(self@.frontier =~= Seq::<Hypothesis>::empty());
            assert(old_model.step_with(rv, sels, Seq::empty(), self@));
            return Ok(Phase::CandidatesEmpty);
        }
        proof {
            lemma_power_base_monotone(
                (self.steps + 1) as nat,
                (cfg.max_steps + 1) as nat,
                cfg.length_exponent as nat,
            );
        }
        assert forall|i: int| 0 <= i < live.len() implies 1 <= #[trigger] live[i].token_ids.len()
            <= self.steps + 1 by {
            assert(live[i]@.tokens.len() == steps + 2);
        }
        let (xs, ws) = rank_inputs(&live, cfg.length_exponent, self.steps + 1);
        let keep = top_k(&xs, &ws, cfg.beam_width);
        let ghost live_model = models(live@);
        let mut next: Vec<Beam> = Vec::new();
        let mut k: usize = 0;
        while k < keep.len()
            invariant
                0 <= k <= keep.len(),
                live_model == models(live@),
                forall|q: int| 0 <= q < keep.len() ==> keep[q] < live.len(),
                models(next@) == keep@.take(k as int).map_values(|i: usize| live_model[i as int]),
            decreases keep.len() - k,
        {
            let b = live[keep[k]].duplicate();
            let ghost prev = next@;
            assert(b@ == live_model[keep[k as int] as int]);
            next.push(b);
            assert(models(next@) =~= models(prev).push(b@));
            k = k + 1;
            assert(models(next@) =~= keep@.take(k as int).map_values(
                |i: usize| live_model[i as int],
            ));
        }
        assert(keep@.take(keep.len() as int) =~= keep@);
        self.frontier = next;
        self.phase = if self.steps == cfg.max_steps {
            Phase::Exhausted
        } else {
            Phase::Running
        };
        assert(old_model.step_with(rv, sels, keep@, self@));
        Ok(self.phase)
    }

    /// The decode's outcome by the final selection rule: a failed decode's error;
    /// else the finished hypothesis with the highest normalized score; else the
    /// frontier hypothesis with the highest normalized score; else
    /// `DecodeExhausted`. Ties go to the earlier hypothesis.
    pub fn result(&self) -> (r: Result<Beam, DecodeError>)
        requires
            self@.well_formed(),
        ensures
            self@.picks(result_view(r)),
    {
        if let Phase::Failed(e) = self.phase {
            return Err(e);
        }
        let cfg = self.config;
        let p = cfg.length_exponent;
        proof {
            lemma_power_base_monotone(
                (self.steps + 1) as nat,
                (cfg.max_steps + 1) as nat,
                p as nat,
            );
        }
        if self.finished.len() > 0 {
            assert forall|i: int| 0 <= i < self.finished.len() implies 1
                <= #[trigger] self.finished[i].token_ids.len() <= self.steps + 1 by {
                assert(self@.finished[i] == self.finished[i]@);
            }
            let (xs, ws) = rank_inputs(&self.finished, p, self.steps + 1);
            let best = top_k(&xs, &ws, 1);
            let i = best[0];
            assert(best@ =~= seq![i]);
            assert(is_best(self@.finished, p as nat, i));
            return Ok(self.finished[i].duplicate());
        }
        if self.frontier.len() > 0 {
            assert forall|i: int| 0 <= i < self.frontier.len() implies 1
                <= #[trigger] self.frontier[i].token_ids.len() <= self.steps + 1 by {
                assert(self@.frontier[i] == self.frontier[i]@);
            }
            let (xs, ws) = rank_inputs(&self.frontier, p, self.steps + 1);
            let best = top_k(&xs, &ws, 1);
            let i = best[0];
            assert(best@ =~= seq![i]);
            assert(is_best(self@.frontier, p as nat, i));
            return Ok(self.frontier[i].duplicate());
        }
        Err(DecodeError::DecodeExhausted)
    }

    pub fn config(&self) -> (r: DecodeConfig)
        ensures
            r == self@.config,
    {
        self.config
    }

    pub fn phase(&self) -> (r: Phase)
        ensures
            r == self@.phase,
    {
        self.phase
    }

    /// Scoring rounds completed so far.
    pub fn steps(&self) -> (r: usize)
        ensures
            r == self@.steps,
    {
        self.steps
    }

    /// The live hypotheses.
    pub fn frontier(&self) -> (r: &Vec<Beam>)
        ensures
            models(r@) == self@.frontier,
    {
        &self.frontier
    }

    /// The hypotheses that ended with the end token, in the order they were found.
    pub fn finished(&self) -> (r: &Vec<Beam>)
        ensures
            models(r@) == self@.finished,
    {
        &self.finished
    }
}

} // verus!
