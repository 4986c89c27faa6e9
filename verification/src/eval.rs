use vstd::prelude::*;
use crate::policy::{Hook, Period, Policy};
use crate::sys::now_timestamp;

verus! {

/// The outcome classification of a policy evaluation.  A denial is a normal
/// result, not an error.
#[derive(Clone, Debug, PartialEq, Eq)]
pub enum Verdict {
    Accept,
    Reject,
    Expired,
    NotYetValid,
    PolicyViolation(String),
}

/// An ephemeral snapshot a policy is evaluated against: the current time,
/// the credential's creation and last-use times where known, and how often
/// the credential has been used.  Times are whole seconds since the epoch.
#[derive(Clone, Copy, Debug)]
pub struct EvaluationContext {
    pub now: i64,
    pub created_at: Option<i64>,
    pub last_used_at: Option<i64>,
    pub usage_count: u64,
}

impl Default for EvaluationContext {
    /// The current clock, no creation or last-use anchor, zero usage.
    fn default() -> (r: EvaluationContext)
        ensures
            r.created_at is None,
            r.last_used_at is None,
            r.usage_count == 0,
    {
        EvaluationContext { now: now_timestamp(), created_at: None, last_used_at: None, usage_count: 0 }
    }
}

/// The result of evaluating a policy: the verdict, the indices of the hooks
/// that passed strictly before the first failing one (all of them on accept),
/// and, on a denial, the human-readable reason and the failing hook's index.
#[derive(Clone, Debug)]
pub struct PolicyEvaluation {
    pub verdict: Verdict,
    pub matched_hooks: Vec<usize>,
    pub reason: Option<String>,
    pub failed_hook: Option<usize>,
}

/// Whether one hook passes at time `now` with creation anchor `created_at`.
/// A hook given a period shape its rule does not understand fails, and
/// `OnlyFor` without a creation anchor fails closed.
pub open spec fn spec_hook_passes(h: Hook, now: i64, created_at: Option<i64>) -> bool {
    match h {
        Hook::OnlyBefore { period } => match period {
            Period::Instant { value } => now < value,
            _ => false,
        },
        Hook::OnlyAfter { period } => match period {
            Period::Instant { value } => now > value,
            _ => false,
        },
        Hook::OnlyWithin { period } => match period {
            Period::Range { start, end } => start <= now <= end,
            _ => false,
        },
        Hook::OnlyFor { duration_secs } => match created_at {
            Some(created) => now <= created + duration_secs,
            None => false,
        },
    }
}

/// The index of the first failing hook, or the sequence's length when every
/// hook passes.
pub open spec fn spec_first_fail(hooks: Seq<Hook>, now: i64, created_at: Option<i64>) -> int
    decreases hooks.len(),
{
    if hooks.len() == 0 {
        0
    } else if !spec_hook_passes(hooks[0], now, created_at) {
        0
    } else {
        1 + spec_first_fail(hooks.drop_first(), now, created_at)
    }
}

pub proof fn lemma_first_fail_bounds(hooks: Seq<Hook>, now: i64, created_at: Option<i64>)
    ensures
        0 <= spec_first_fail(hooks, now, created_at) <= hooks.len(),
        forall|j: int|
            0 <= j < spec_first_fail(hooks, now, created_at) ==> spec_hook_passes(
                hooks[j],
                now,
                created_at,
            ),
        spec_first_fail(hooks, now, created_at) < hooks.len() ==> !spec_hook_passes(
            hooks[spec_first_fail(hooks, now, created_at)],
            now,
            created_at,
        ),
    decreases hooks.len(),
{
    if hooks.len() != 0 && spec_hook_passes(hooks[0], now, created_at) {
        lemma_first_fail_bounds(hooks.drop_first(), now, created_at);
        let ff = spec_first_fail(hooks, now, created_at);
        assert forall|j: int| 0 <= j < ff implies spec_hook_passes(hooks[j], now, created_at) by {
            if j > 0 {
                assert(hooks.drop_first()[j - 1] == hooks[j]);
            }
        }
        if ff < hooks.len() {
            assert(hooks.drop_first()[ff - 1] == hooks[ff]);
        }
    }
}

/// The first failing index is the unique `k` such that every hook before `k`
/// passes and hook `k`, if it exists, fails.
pub proof fn lemma_first_fail_is(hooks: Seq<Hook>, now: i64, created_at: Option<i64>, k: int)
    requires
        0 <= k <= hooks.len(),
        forall|j: int| 0 <= j < k ==> spec_hook_passes(hooks[j], now, created_at),
        k < hooks.len() ==> !spec_hook_passes(hooks[k], now, created_at),
    ensures
        spec_first_fail(hooks, now, created_at) == k,
    decreases hooks.len(),
{
    if hooks.len() != 0 && spec_hook_passes(hooks[0], now, created_at) {
        assert(k != 0);
        lemma_first_fail_is(hooks.drop_first(), now, created_at, k - 1);
    }
}

/// The reason text reported when the given hook is the first to fail.
pub open spec fn spec_hook_reason(h: Hook) -> Seq<char> {
    match h {
        Hook::OnlyBefore { .. } => "Expired (After allowed time)"@,
        Hook::OnlyAfter { .. } => "NotYetValid (Before allowed time)"@,
        Hook::OnlyWithin { .. } => "Outside allowed window"@,
        Hook::OnlyFor { .. } => "Expired (Duration elapsed)"@,
    }
}

/// The single-use gate: a single-use policy rejects any context that has
/// already been used.
pub open spec fn spec_gate_single_use(p: Policy, ctx: EvaluationContext) -> bool {
    p.single_use && ctx.usage_count > 0
}

/// The usage ceiling: a policy with a ceiling rejects a context whose usage
/// count has reached it.
pub open spec fn spec_gate_max_attempts(p: Policy, ctx: EvaluationContext) -> bool {
    match p.max_attempts {
        Some(m) => ctx.usage_count >= m as u64,
        None => false,
    }
}

/// The full specification of [`Policy::evaluate`]: the single-use gate is
/// checked first, then the usage ceiling, then the hooks in declared order,
/// all of which must pass; the first failing hook decides the verdict.
pub open spec fn eval_matches(p: Policy, ctx: EvaluationContext, r: PolicyEvaluation) -> bool {
    if spec_gate_single_use(p, ctx) {
        &&& r.verdict == Verdict::Reject
        &&& r.matched_hooks@.len() == 0
        &&& r.reason matches Some(s) && s@ == "Single use policy violation"@
        &&& r.failed_hook is None
    } else if spec_gate_max_attempts(p, ctx) {
        &&& r.verdict == Verdict::Reject
        &&& r.matched_hooks@.len() == 0
        &&& r.reason matches Some(s) && s@ == "Max attempts exceeded"@
        &&& r.failed_hook is None
    } else {
        let ff = spec_first_fail(p.hooks@, ctx.now, ctx.created_at);
        &&& r.matched_hooks@ == Seq::new(ff as nat, |i: int| i as usize)
        &&& if ff == p.hooks@.len() {
            &&& r.verdict == Verdict::Accept
            &&& r.reason is None
            &&& r.failed_hook is None
        } else {
            &&& r.failed_hook == Some(ff as usize)
            &&& r.reason matches Some(s) && s@ == spec_hook_reason(p.hooks@[ff])
            &&& match p.hooks@[ff] {
                Hook::OnlyBefore { .. } | Hook::OnlyFor { .. } => r.verdict == Verdict::Expired,
                Hook::OnlyAfter { .. } => r.verdict == Verdict::NotYetValid,
                Hook::OnlyWithin { .. } => r.verdict matches Verdict::PolicyViolation(s)
                    && s@ == "Outside allowed window"@,
            }
        }
    }
}

/// Whether one hook passes in the given context; matches
/// [`spec_hook_passes`] exactly.
fn hook_passes(h: &Hook, ctx: &EvaluationContext) -> (r: bool)
    ensures
        r == spec_hook_passes(*h, ctx.now, ctx.created_at),
{
    match h {
        Hook::OnlyBefore { period } => match period {
            Period::Instant { value } => ctx.now < *value,
            _ => false,
        },
        Hook::OnlyAfter { period } => match period {
            Period::Instant { value } => ctx.now > *value,
            _ => false,
        },
        Hook::OnlyWithin { period } => match period {
            Period::Range { start, end } => *start <= ctx.now && ctx.now <= *end,
            _ => false,
        },
        Hook::OnlyFor { duration_secs } => match ctx.created_at {
            Some(created) => (ctx.now as i128) <= (created as i128) + (*duration_secs as i128),
            None => false,
        },
    }
}

fn hook_reason(h: &Hook) -> (r: String)
    ensures
        r@ == spec_hook_reason(*h),
{
    match h {
        Hook::OnlyBefore { .. } => String::from_str("Expired (After allowed time)"),
        Hook::OnlyAfter { .. } => String::from_str("NotYetValid (Before allowed time)"),
        Hook::OnlyWithin { .. } => String::from_str("Outside allowed window"),
        Hook::OnlyFor { .. } => String::from_str("Expired (Duration elapsed)"),
    }
}

impl Policy {
    /// Pure evaluation of this policy against a point-in-time context: no
    /// side effects, no access to any store.  The result is pinned down
    /// completely by [`eval_matches`].
    #[verifier::loop_isolation(false)]
    pub fn evaluate(&self, ctx: &EvaluationContext) -> (r: PolicyEvaluation)
        ensures
            eval_matches(*self, *ctx, r),
    {
        let matched: Vec<usize> = Vec::new();
        if self.single_use && ctx.usage_count > 0 {
            return PolicyEvaluation {
                verdict: Verdict::Reject,
                matched_hooks: matched,
                reason: Some(String::from_str("Single use policy violation")),
                failed_hook: None,
            };
        }
        if let Some(m) = self.max_attempts {
            if ctx.usage_count >= m as u64 {
                return PolicyEvaluation {
                    verdict: Verdict::Reject,
                    matched_hooks: matched,
                    reason: Some(String::from_str("Max attempts exceeded")),
                    failed_hook: None,
                };
            }
        }
        let mut matched = matched;
        let n = self.hooks.len();
        let mut i: usize = 0;
        while i < n
            invariant
                i <= n,
                n == self.hooks@.len(),
                forall|j: int| 0 <= j < i ==> spec_hook_passes(self.hooks@[j], ctx.now, ctx.created_at),
                matched@ =~= Seq::new(i as nat, |k: int| k as usize),
            decreases n - i,
        {
            let h = &self.hooks[i];
            if !hook_passes(h, ctx) {
                proof {
                    lemma_first_fail_is(self.hooks@, ctx.now, ctx.created_at, i as int);
                }
                let verdict = match h {
                    Hook::OnlyBefore { .. } | Hook::OnlyFor { .. } => Verdict::Expired,
                    Hook::OnlyAfter { .. } => Verdict::NotYetValid,
                    Hook::OnlyWithin { .. } => Verdict::PolicyViolation(
                        String::from_str("Outside allowed window"),
                    ),
                };
                return PolicyEvaluation {
                    verdict,
                    matched_hooks: matched,
                    reason: Some(hook_reason(h)),
                    failed_hook: Some(i),
                };
            }
            matched.push(i);
            i = i + 1;
            proof {
                assert(matched@ =~= Seq::new(i as nat, |k: int| k as usize));
            }
        }
        proof {
            lemma_first_fail_is(self.hooks@, ctx.now, ctx.created_at, n as int);
        }
        PolicyEvaluation {
            verdict: Verdict::Accept,
            matched_hooks: matched,
            reason: None,
            failed_hook: None,
        }
    }
}

/// A single-use policy rejects any already-used context outright, whatever
/// its hooks say.
pub proof fn lemma_single_use_rejects(p: Policy, ctx: EvaluationContext, r: PolicyEvaluation)
    requires
        eval_matches(p, ctx, r),
        p.single_use,
        ctx.usage_count > 0,
    ensures
        r.verdict == Verdict::Reject,
        r.matched_hooks@.len() == 0,
{
}

/// A policy with a usage ceiling rejects any context at or over the ceiling,
/// whatever its hooks say; under the ceiling the hooks alone decide.
pub proof fn lemma_max_attempts_gate(p: Policy, ctx: EvaluationContext, r: PolicyEvaluation)
    requires
        eval_matches(p, ctx, r),
        !spec_gate_single_use(p, ctx),
        p.max_attempts matches Some(m),
    ensures
        ctx.usage_count >= p.max_attempts.unwrap() as u64 ==> r.verdict == Verdict::Reject,
        ctx.usage_count < p.max_attempts.unwrap() as u64 && r.verdict == Verdict::Reject ==> false,
{
    if ctx.usage_count < p.max_attempts.unwrap() as u64 {
        lemma_first_fail_bounds(p.hooks@, ctx.now, ctx.created_at);
    }
}

/// Hooks combine restrictively: when neither usage gate fires, the verdict is
/// `Accept` exactly when every hook passes, and then every hook index is
/// reported as matched, in order.
pub proof fn lemma_accept_iff_all_hooks_pass(p: Policy, ctx: EvaluationContext, r: PolicyEvaluation)
    requires
        eval_matches(p, ctx, r),
        !spec_gate_single_use(p, ctx),
        !spec_gate_max_attempts(p, ctx),
    ensures
        (r.verdict == Verdict::Accept) <==> (forall|j: int|
            0 <= j < p.hooks@.len() ==> spec_hook_passes(p.hooks@[j], ctx.now, ctx.created_at)),
        r.verdict == Verdict::Accept ==> r.matched_hooks@ == Seq::new(
            p.hooks@.len(),
            |i: int| i as usize,
        ),
{
    lemma_first_fail_bounds(p.hooks@, ctx.now, ctx.created_at);
    let ff = spec_first_fail(p.hooks@, ctx.now, ctx.created_at);
    if forall|j: int| 0 <= j < p.hooks@.len() ==> spec_hook_passes(
        p.hooks@[j],
        ctx.now,
        ctx.created_at,
    ) {
        lemma_first_fail_is(p.hooks@, ctx.now, ctx.created_at, p.hooks@.len() as int);
    }
    if ff < p.hooks@.len() {
        assert(r.verdict != Verdict::Accept);
    }
}

/// An `OnlyFor` hook fails closed: without a creation anchor in the context a
/// policy holding such a hook can never accept.
pub proof fn lemma_only_for_fails_closed(
    p: Policy,
    ctx: EvaluationContext,
    r: PolicyEvaluation,
    i: int,
)
    requires
        eval_matches(p, ctx, r),
        0 <= i < p.hooks@.len(),
        p.hooks@[i] matches Hook::OnlyFor { .. },
        ctx.created_at is None,
    ensures
        r.verdict != Verdict::Accept,
{
    assert(!spec_hook_passes(p.hooks@[i], ctx.now, ctx.created_at));
    if !spec_gate_single_use(p, ctx) && !spec_gate_max_attempts(p, ctx) {
        lemma_accept_iff_all_hooks_pass(p, ctx, r);
    }
}


} // verus!
