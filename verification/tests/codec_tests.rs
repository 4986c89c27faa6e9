use timely_pass::codec::{
    dec_bool, dec_bytes, dec_credential, dec_hooks, dec_i64, dec_policy, dec_str, dec_u32,
    dec_u64, enc_bool_into, enc_bytes_into, enc_credential_into, enc_hooks_into, enc_i64_into,
    enc_policy_into, enc_str_into, enc_u32_into, enc_u64_into,
};
use timely_pass::policy::{Hook, Period, Policy};
use timely_pass::store::{Credential, SecretType};

#[test]
fn primitive_roundtrips() {
    let mut buf: Vec<u8> = Vec::new();
    enc_u32_into(&mut buf, 0xdead_beef);
    enc_u64_into(&mut buf, u64::MAX);
    enc_i64_into(&mut buf, -42);
    enc_bool_into(&mut buf, true);
    enc_bytes_into(&mut buf, &[9, 8, 7]);
    enc_str_into(&mut buf, "héllo, wörld");

    let (a, p) = dec_u32(&buf, 0).unwrap();
    assert_eq!(a, 0xdead_beef);
    let (b, p) = dec_u64(&buf, p).unwrap();
    assert_eq!(b, u64::MAX);
    let (c, p) = dec_i64(&buf, p).unwrap();
    assert_eq!(c, -42);
    let (d, p) = dec_bool(&buf, p).unwrap();
    assert!(d);
    let (e, p) = dec_bytes(&buf, p).unwrap();
    assert_eq!(e, vec![9, 8, 7]);
    let (f, p) = dec_str(&buf, p).unwrap();
    assert_eq!(f, "héllo, wörld");
    assert_eq!(p, buf.len());
}

#[test]
fn decoding_rejects_malformed_input() {
    // Too short for the announced length.
    let mut buf: Vec<u8> = Vec::new();
    enc_u64_into(&mut buf, 100);
    buf.push(1);
    assert!(dec_bytes(&buf, 0).is_none());

    // A bool tag other than 0 or 1.
    assert!(dec_bool(&[7], 0).is_none());

    // Invalid UTF-8 under a correct length prefix.
    let mut bad: Vec<u8> = Vec::new();
    enc_bytes_into(&mut bad, &[0xff, 0xfe]);
    assert!(dec_str(&bad, 0).is_none());
}

#[test]
fn fresh_credentials_get_distinct_generated_ids() {
    let a = Credential::new("a".to_string(), SecretType::Password, vec![]);
    let b = Credential::new("b".to_string(), SecretType::Password, vec![]);
    assert_eq!(a.id.len(), 36);
    assert_ne!(a.id, b.id);
    assert_eq!(a.created_at, a.updated_at);
    assert_eq!(a.usage_counter, 0);
    assert!(a.policy_id.is_none());
}

#[test]
fn credential_record_roundtrip() {
    let mut cred = Credential::new("label ✓".to_string(), SecretType::Token, vec![0, 1, 254]);
    cred.tags.push("a".to_string());
    cred.tags.push("βeta".to_string());
    cred.policy_id = Some("pol".to_string());
    cred.usage_counter = 7;

    let mut buf: Vec<u8> = Vec::new();
    enc_credential_into(&mut buf, &cred);
    let (back, end) = dec_credential(&buf, 0).unwrap();
    assert_eq!(end, buf.len());
    assert_eq!(back.id, cred.id);
    assert_eq!(back.label, "label ✓");
    assert_eq!(back.tags, vec!["a".to_string(), "βeta".to_string()]);
    assert_eq!(back.created_at, cred.created_at);
    assert_eq!(back.updated_at, cred.updated_at);
    assert_eq!(back.policy_id.as_deref(), Some("pol"));
    assert_eq!(back.secret.type_, SecretType::Token);
    assert_eq!(back.secret.data, vec![0, 1, 254]);
    assert_eq!(back.usage_counter, 7);
}

#[test]
fn policy_record_roundtrip() {
    let mut policy = Policy::new("p-1".to_string())
        .add_hook(Hook::OnlyWithin { period: Period::Range { start: -5, end: 5 } })
        .add_hook(Hook::OnlyFor { duration_secs: 120 })
        .add_hook(Hook::OnlyAfter { period: Period::Duration { seconds: 3 } });
    policy.max_attempts = Some(4);
    policy.single_use = true;
    policy.version = 9;
    policy.timezone = None;

    let mut buf: Vec<u8> = Vec::new();
    enc_policy_into(&mut buf, &policy);
    let (back, end) = dec_policy(&buf, 0).unwrap();
    assert_eq!(end, buf.len());
    assert_eq!(back.id, "p-1");
    assert_eq!(back.hooks.len(), 3);
    assert!(matches!(
        back.hooks[0],
        Hook::OnlyWithin { period: Period::Range { start: -5, end: 5 } }
    ));
    assert!(matches!(back.hooks[1], Hook::OnlyFor { duration_secs: 120 }));
    assert!(matches!(
        back.hooks[2],
        Hook::OnlyAfter { period: Period::Duration { seconds: 3 } }
    ));
    assert_eq!(back.timezone, None);
    assert_eq!(back.clock_skew_secs, 60);
    assert_eq!(back.max_attempts, Some(4));
    assert!(back.single_use);
    assert_eq!(back.version, 9);

    // Hook lists survive on their own as well.
    let mut hooks_buf: Vec<u8> = Vec::new();
    enc_hooks_into(&mut hooks_buf, &policy.hooks);
    let (hooks_back, hend) = dec_hooks(&hooks_buf, 0).unwrap();
    assert_eq!(hend, hooks_buf.len());
    assert_eq!(hooks_back.len(), 3);
}
