use chrono::Utc;
use timely_pass::eval::{EvaluationContext, Verdict};
use timely_pass::policy::{Hook, Period, Policy};

fn ctx_at(now: i64) -> EvaluationContext {
    EvaluationContext { now, created_at: None, last_used_at: None, usage_count: 0 }
}

#[test]
fn window_policy_accepts_inside_and_classifies_outside() {
    let now = Utc::now().timestamp();
    let policy = Policy::new("window".to_string())
        .add_hook(Hook::OnlyAfter { period: Period::Instant { value: now - 3600 } })
        .add_hook(Hook::OnlyBefore { period: Period::Instant { value: now + 3600 } });

    assert_eq!(policy.evaluate(&ctx_at(now)).verdict, Verdict::Accept);
    assert_eq!(policy.evaluate(&ctx_at(now)).matched_hooks, vec![0, 1]);

    let expired = policy.evaluate(&ctx_at(now + 7200));
    assert_eq!(expired.verdict, Verdict::Expired);
    assert_eq!(expired.failed_hook, Some(1));
    assert_eq!(expired.matched_hooks, vec![0]);
    assert_eq!(expired.reason.as_deref(), Some("Expired (After allowed time)"));

    let early = policy.evaluate(&ctx_at(now - 7200));
    assert_eq!(early.verdict, Verdict::NotYetValid);
    assert_eq!(early.failed_hook, Some(0));
    assert!(early.matched_hooks.is_empty());
}

#[test]
fn only_for_fails_closed_without_creation_anchor() {
    let now = Utc::now().timestamp();
    let policy = Policy::new("anchored".to_string())
        .add_hook(Hook::OnlyFor { duration_secs: 3600 });

    // With an anchor half an hour back the hook passes.
    let anchored = EvaluationContext {
        now,
        created_at: Some(now - 1800),
        last_used_at: None,
        usage_count: 0,
    };
    assert_eq!(policy.evaluate(&anchored).verdict, Verdict::Accept);

    // Ninety minutes after creation it is expired.
    let late = EvaluationContext {
        now: now + 3600,
        created_at: Some(now - 1800),
        last_used_at: None,
        usage_count: 0,
    };
    assert_eq!(policy.evaluate(&late).verdict, Verdict::Expired);

    // Without an anchor the hook fails closed: a denial, not a crash.
    let denied = policy.evaluate(&ctx_at(now));
    assert_eq!(denied.verdict, Verdict::Expired);
    assert_eq!(denied.reason.as_deref(), Some("Expired (Duration elapsed)"));
}

#[test]
fn single_use_rejects_any_used_context() {
    let now = Utc::now().timestamp();
    let mut policy = Policy::new("once".to_string());
    policy.single_use = true;

    let fresh = EvaluationContext { now, created_at: None, last_used_at: None, usage_count: 0 };
    assert_eq!(policy.evaluate(&fresh).verdict, Verdict::Accept);

    let used = EvaluationContext { now, created_at: None, last_used_at: None, usage_count: 1 };
    let denied = policy.evaluate(&used);
    assert_eq!(denied.verdict, Verdict::Reject);
    assert_eq!(denied.reason.as_deref(), Some("Single use policy violation"));
    assert!(denied.matched_hooks.is_empty());

    // The single-use check runs before the hooks: even a hook that would
    // pass cannot save a used single-use policy.
    let with_hook = policy
        .clone()
        .add_hook(Hook::OnlyBefore { period: Period::Instant { value: now + 3600 } });
    assert_eq!(with_hook.evaluate(&used).verdict, Verdict::Reject);
}

#[test]
fn max_attempts_gate() {
    let now = Utc::now().timestamp();
    let mut policy = Policy::new("limited".to_string());
    policy.max_attempts = Some(3);

    let at_limit = EvaluationContext { now, created_at: None, last_used_at: None, usage_count: 3 };
    let denied = policy.evaluate(&at_limit);
    assert_eq!(denied.verdict, Verdict::Reject);
    assert_eq!(denied.reason.as_deref(), Some("Max attempts exceeded"));

    let below = EvaluationContext { now, created_at: None, last_used_at: None, usage_count: 2 };
    assert_eq!(policy.evaluate(&below).verdict, Verdict::Accept);
}

#[test]
fn mismatched_period_shapes_fail_closed() {
    let now = Utc::now().timestamp();

    // OnlyBefore over a Range is a defined failure, not a crash.
    let p1 = Policy::new("shape-1".to_string())
        .add_hook(Hook::OnlyBefore { period: Period::Range { start: now - 10, end: now + 10 } });
    assert_eq!(p1.evaluate(&ctx_at(now)).verdict, Verdict::Expired);

    // OnlyWithin needs a Range; an Instant fails it.
    let p2 = Policy::new("shape-2".to_string())
        .add_hook(Hook::OnlyWithin { period: Period::Instant { value: now } });
    let denied = p2.evaluate(&ctx_at(now));
    assert_eq!(denied.verdict, Verdict::PolicyViolation("Outside allowed window".to_string()));

    // OnlyWithin with a real range accepts inside and denies outside.
    let p3 = Policy::new("shape-3".to_string())
        .add_hook(Hook::OnlyWithin { period: Period::Range { start: now - 10, end: now + 10 } });
    assert_eq!(p3.evaluate(&ctx_at(now)).verdict, Verdict::Accept);
    assert!(matches!(
        p3.evaluate(&ctx_at(now + 60)).verdict,
        Verdict::PolicyViolation(_)
    ));
}

#[test]
fn builder_defaults() {
    let policy = Policy::new("fresh".to_string());
    assert_eq!(policy.id, "fresh");
    assert!(policy.hooks.is_empty());
    assert_eq!(policy.timezone.as_deref(), Some("UTC"));
    assert_eq!(policy.clock_skew_secs, 60);
    assert_eq!(policy.max_attempts, None);
    assert!(!policy.single_use);
    assert_eq!(policy.version, 1);

    let generated = Policy::default();
    assert_eq!(generated.id.len(), 36);
}
