use vstd::prelude::*;

verus! {

/// `b` raised to the power `e`.
pub open spec fn power(b: nat, e: nat) -> nat
    decreases e,
{
    if e == 0 {
        1
    } else {
        b * power(b, (e - 1) as nat)
    }
}

/// Adding a step's log-probability to a cumulative one, held at the lowest value
/// an `i64` can take rather than wrapping.
pub open spec fn extend_log_prob(acc: i64, lp: i64) -> i64 {
    if acc + lp < i64::MIN {
        i64::MIN
    } else {
        (acc + lp) as i64
    }
}

/// What a beam stands for: its token sequence and its cumulative log-probability
/// (in the fixed-point unit that the scores come in).
pub ghost struct Hypothesis {
    pub tokens: Seq<usize>,
    pub log_prob: i64,
}

/// The hypothesis that one more token, with log-probability `lp`, makes of `h`.
pub open spec fn child_of(h: Hypothesis, token: usize, lp: i64) -> Hypothesis {
    Hypothesis { tokens: h.tokens.push(token), log_prob: extend_log_prob(h.log_prob, lp) }
}

/// One decoding hypothesis: a token sequence and its cumulative log-probability.
pub struct Beam {
    pub token_ids: Vec<usize>,
    pub log_prob: i64,
}

impl View for Beam {
    type V = Hypothesis;

    open spec fn view(&self) -> Hypothesis {
        Hypothesis { tokens: self.token_ids@, log_prob: self.log_prob }
    }
}

impl Beam {
    /// The beam that every decode starts from: the start token alone, log-probability 0.
    pub fn new(start_token_id: usize) -> (r: Beam)
        ensures
            r.token_ids@ == seq![start_token_id],
            r.log_prob == 0,
    {
        Beam { token_ids: vec![start_token_id], log_prob: 0 }
    }

    /// A copy of this beam.
    pub fn duplicate(&self) -> (r: Beam)
        ensures
            r@ == self@,
    {
        let mut tokens: Vec<usize> = Vec::new();
        let mut i: usize = 0;
        while i < self.token_ids.len()
            invariant
                0 <= i <= self.token_ids.len(),
                tokens@ == self.token_ids@.subrange(0, i as int),
            decreases self.token_ids.len() - i,
        {
            tokens.push(self.token_ids[i]);
            i = i + 1;
        }
        assert(tokens@ =~= self.token_ids@);
        Beam { token_ids: tokens, log_prob: self.log_prob }
    }

    /// The child of this beam that appends `token`, whose log-probability is `lp`.
    pub fn child(&self, token: usize, lp: i64) -> (r: Beam)
        requires
            lp <= 0,
        ensures
            r@ == child_of(self@, token, lp),
    {
        let mut r = self.duplicate();
        r.token_ids.push(token);
        r.log_prob = if self.log_prob < i64::MIN - lp {
            i64::MIN
        } else {
            self.log_prob + lp
        };
        r
    }
}

/// A step with a log-probability of at most zero never raises the cumulative one.
pub proof fn lemma_extend_non_increasing(acc: i64, lp: i64)
    requires
        lp <= 0,
    ensures
        extend_log_prob(acc, lp) <= acc,
{
}

/// A beam's cumulative log-probability does not grow as the beam grows: a child,
/// one token longer, has at most its parent's log-probability.
pub proof fn lemma_child_non_increasing(h: Hypothesis, token: usize, lp: i64)
    requires
        lp <= 0,
    ensures
        child_of(h, token, lp).tokens.len() == h.tokens.len() + 1,
        child_of(h, token, lp).log_prob <= h.log_prob,
{
}

/// Powers grow with their base.
pub proof fn lemma_power_base_monotone(a: nat, b: nat, e: nat)
    requires
        a <= b,
    ensures
        power(a, e) <= power(b, e),
    decreases e,
{
    if e > 0 {
        lemma_power_base_monotone(a, b, (e - 1) as nat);
        let pa = power(a, (e - 1) as nat);
        let pb = power(b, (e - 1) as nat);
        assert(a * pa <= b * pb) by (nonlinear_arith)
            requires
                a <= b,
                pa <= pb,
        ;
    }
}

/// Powers of a positive base are positive.
pub proof fn lemma_power_positive(b: nat, e: nat)
    requires
        b >= 1,
    ensures
        power(b, e) >= 1,
    decreases e,
{
    if e > 0 {
        lemma_power_positive(b, (e - 1) as nat);
        let p = power(b, (e - 1) as nat);
        assert(b * p >= 1) by (nonlinear_arith)
            requires
                b >= 1,
                p >= 1,
        ;
    }
}

/// Powers of a positive base grow with the exponent, and stay positive.
pub proof fn lemma_power_exp_monotone(b: nat, e1: nat, e2: nat)
    requires
        b >= 1,
        e1 <= e2,
    ensures
        1 <= power(b, e1) <= power(b, e2),
    decreases e2,
{
    if e2 > e1 {
        lemma_power_exp_monotone(b, e1, (e2 - 1) as nat);
        let p = power(b, (e2 - 1) as nat);
        assert(p <= b * p) by (nonlinear_arith)
            requires
                b >= 1,
                p >= 1,
        ;
    } else {
        lemma_power_positive(b, e1);
    }
}

/// `b` to the power `e`, or `None` where that exceeds `u64::MAX`.
pub fn checked_power(b: u64, e: u32) -> (r: Option<u64>)
    ensures
        r matches Some(v) ==> v == power(b as nat, e as nat),
        r is None <==> power(b as nat, e as nat) > u64::MAX,
{
    let mut acc: u64 = 1;
    let mut i: u32 = 0;
    while i < e
        invariant
            0 <= i <= e,
            acc == power(b as nat, i as nat),
        decreases e - i,
    {
        assert(power(b as nat, (i + 1) as nat) == b * power(b as nat, i as nat));
        assert(acc * b == b * acc) by (nonlinear_arith);
        match acc.checked_mul(b) {
            Some(v) => {
                acc = v;
            },
            None => {
                proof {
                    assert(b >= 1) by (nonlinear_arith)
                        requires
                            acc * b > u64::MAX,
                    ;
                    lemma_power_exp_monotone(b as nat, (i + 1) as nat, e as nat);
                }
                return None;
            },
        }
        i = i + 1;
    }
    Some(acc)
}

} // verus!
