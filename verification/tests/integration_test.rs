use chrono::{Duration, Utc};
use timely_pass::crypto::Secret;
use timely_pass::eval::{EvaluationContext, Verdict};
use timely_pass::policy::{Hook, Period, Policy};
use timely_pass::store::{Credential, SecretStore, SecretType};

#[test]
fn test_store_encryption_and_roundtrip() {
    let passphrase = Secret::new(b"correct-horse-battery-staple".to_vec());

    // Init, then add one credential; the container image returned by the
    // mutation is what a caller would have written to disk.
    let cred_id;
    let container;
    {
        let (mut store, _initial) = SecretStore::init(&passphrase).unwrap();
        let cred = Credential::new(
            "test-cred".to_string(),
            SecretType::Password,
            b"super-secret".to_vec(),
        );
        cred_id = cred.id.clone();
        container = store.add_credential(cred).unwrap();
    }

    // Open with correct pass
    {
        let store = SecretStore::open(&container, &passphrase).unwrap();
        let cred = store.get_credential(&cred_id).unwrap();
        assert_eq!(cred.secret.data, b"super-secret");
    }

    // Open with wrong pass
    {
        let wrong_pass = Secret::new(b"wrong".to_vec());
        let res = SecretStore::open(&container, &wrong_pass);
        assert!(res.is_err());
    }
}

#[test]
fn test_policy_evaluation() {
    let now = Utc::now();
    let one_hour = Duration::hours(1);

    let policy = Policy::new("test-policy".to_string())
        .add_hook(Hook::OnlyBefore {
            period: Period::Instant { value: (now + one_hour).timestamp() },
        })
        .add_hook(Hook::OnlyAfter {
            period: Period::Instant { value: (now - one_hour).timestamp() },
        });

    let ctx_valid = EvaluationContext { now: now.timestamp(), ..Default::default() };

    let eval = policy.evaluate(&ctx_valid);
    assert_eq!(eval.verdict, Verdict::Accept);

    let ctx_expired = EvaluationContext {
        now: (now + Duration::hours(2)).timestamp(),
        ..Default::default()
    };
    let eval_expired = policy.evaluate(&ctx_expired);
    assert!(matches!(eval_expired.verdict, Verdict::Expired));
}

#[test]
fn test_only_for_duration() {
    let now = Utc::now();
    let created = now - Duration::minutes(30);

    // Valid for 1 hour after creation
    let policy = Policy::new("duration-policy".to_string())
        .add_hook(Hook::OnlyFor { duration_secs: 3600 });

    let ctx_valid = EvaluationContext {
        now: now.timestamp(),  // 30 mins after creation
        created_at: Some(created.timestamp()),
        ..Default::default()
    };
    assert_eq!(policy.evaluate(&ctx_valid).verdict, Verdict::Accept);

    let ctx_expired = EvaluationContext {
        now: (now + Duration::hours(1)).timestamp(),  // 1h 30m after creation
        created_at: Some(created.timestamp()),
        ..Default::default()
    };
    assert!(matches!(policy.evaluate(&ctx_expired).verdict, Verdict::Expired));
}
