//! The store's own binary encoding: little-endian integers, length-prefixed
//! byte strings and UTF-8 text, and the record and payload layouts built from
//! them.  Every decoder is proved to invert its encoder: decoding accepts a
//! byte sequence exactly when it begins with an encoding, and then yields the
//! encoded value.

use vstd::prelude::*;
use vstd::bytes::{
    spec_u32_to_le_bytes, spec_u32_from_le_bytes, spec_u64_to_le_bytes, u32_from_le_bytes,
    u32_to_le_bytes, u64_from_le_bytes, u64_to_le_bytes, lemma_auto_spec_u32_to_from_le_bytes,
    lemma_auto_spec_u64_to_from_le_bytes,
};
use vstd::utf8::{encode_utf8, decode_utf8, valid_utf8, encode_utf8_valid_utf8, encode_utf8_decode_utf8, decode_utf8_encode_utf8};
use vstd::slice::{slice_subrange, slice_to_vec};
use vstd::string::StringSliceAdditionalSpecFns;
use crate::policy::{Hook, Period, Policy, PolicyV};
use crate::store::{Credential, CredentialSecret, CredentialSecretV, CredentialV, SecretType};

verus! {

// ---------------------------------------------------------------------------
// Spec encoders for the primitive shapes.
// ---------------------------------------------------------------------------

pub open spec fn enc_u8(v: u8) -> Seq<u8> {
    seq![v]
}

pub open spec fn enc_u32(v: u32) -> Seq<u8> {
    spec_u32_to_le_bytes(v)
}

pub open spec fn enc_u64(v: u64) -> Seq<u8> {
    spec_u64_to_le_bytes(v)
}

/// A signed timestamp travels as the two's-complement bit pattern of its
/// 64-bit value.
pub open spec fn enc_i64(v: i64) -> Seq<u8> {
    spec_u64_to_le_bytes(v as u64)
}

pub open spec fn enc_bool(v: bool) -> Seq<u8> {
    seq![if v { 1u8 } else { 0u8 }]
}

/// A byte string: its length as a 64-bit prefix, then the bytes themselves.
pub open spec fn enc_bytes(s: Seq<u8>) -> Seq<u8> {
    enc_u64(s.len() as u64) + s
}

/// Text: the UTF-8 encoding of the characters, as a byte string.
pub open spec fn enc_str(s: Seq<char>) -> Seq<u8> {
    enc_bytes(encode_utf8(s))
}

/// What a decoder can hand back: a byte string no longer than the machine's
/// address space.
pub open spec fn wf_bytes(s: Seq<u8>) -> bool {
    s.len() <= usize::MAX
}

/// Text whose UTF-8 encoding fits the machine's address space.
pub open spec fn wf_str(s: Seq<char>) -> bool {
    encode_utf8(s).len() <= usize::MAX
}

// ---------------------------------------------------------------------------
// Sequence helpers shared by the decoder proofs.
// ---------------------------------------------------------------------------

pub proof fn lemma_subrange_split(s: Seq<u8>, a: int, b: int, c: int)
    requires
        0 <= a <= b <= c <= s.len(),
    ensures
        s.subrange(a, c) == s.subrange(a, b) + s.subrange(b, c),
{
    assert(s.subrange(a, c) =~= s.subrange(a, b) + s.subrange(b, c));
}

pub proof fn lemma_skip_skip(s: Seq<u8>, a: int, b: int)
    requires
        0 <= a,
        0 <= b,
        a + b <= s.len(),
    ensures
        s.skip(a).skip(b) == s.skip(a + b),
{
    assert(s.skip(a).skip(b) =~= s.skip(a + b));
}

/// A concatenation is a prefix exactly when its head is one and its tail is a
/// prefix of what the head leaves.
pub proof fn lemma_prefix_concat(a: Seq<u8>, b: Seq<u8>, s: Seq<u8>)
    requires
        (a + b).is_prefix_of(s),
    ensures
        a.is_prefix_of(s),
        b.is_prefix_of(s.skip(a.len() as int)),
{
    assert(a =~= s.subrange(0, a.len() as int));
    assert forall|i: int| 0 <= i < b.len() implies b[i] == s.skip(a.len() as int)[i] by {
        assert((a + b)[a.len() + i] == b[i]);
        assert((a + b)[a.len() + i] == s.subrange(0, (a + b).len() as int)[a.len() + i]);
    }
    assert(b =~= s.skip(a.len() as int).subrange(0, b.len() as int));
}

// ---------------------------------------------------------------------------
// Exec encoders: each appends one encoding to an output buffer.
// ---------------------------------------------------------------------------

pub fn enc_u8_into(out: &mut Vec<u8>, v: u8)
    ensures
        final(out)@ == old(out)@ + enc_u8(v),
{
    out.push(v);
    proof {
        assert(final(out)@ =~= old(out)@ + enc_u8(v));
    }
}

pub fn enc_u32_into(out: &mut Vec<u8>, v: u32)
    ensures
        final(out)@ == old(out)@ + enc_u32(v),
{
    let bytes = u32_to_le_bytes(v);
    out.extend_from_slice(bytes.as_slice());
}

pub fn enc_u64_into(out: &mut Vec<u8>, v: u64)
    ensures
        final(out)@ == old(out)@ + enc_u64(v),
{
    let bytes = u64_to_le_bytes(v);
    out.extend_from_slice(bytes.as_slice());
}

pub fn enc_i64_into(out: &mut Vec<u8>, v: i64)
    ensures
        final(out)@ == old(out)@ + enc_i64(v),
{
    enc_u64_into(out, v as u64);
}

pub fn enc_bool_into(out: &mut Vec<u8>, v: bool)
    ensures
        final(out)@ == old(out)@ + enc_bool(v),
{
    if v {
        enc_u8_into(out, 1);
    } else {
        enc_u8_into(out, 0);
    }
}

pub fn enc_bytes_into(out: &mut Vec<u8>, s: &[u8])
    ensures
        final(out)@ == old(out)@ + enc_bytes(s@),
{
    enc_u64_into(out, s.len() as u64);
    out.extend_from_slice(s);
    proof {
        assert(final(out)@ =~= old(out)@ + enc_bytes(s@));
    }
}

pub fn enc_str_into(out: &mut Vec<u8>, s: &str)
    ensures
        final(out)@ == old(out)@ + enc_str(s@),
{
    enc_bytes_into(out, s.as_bytes());
}

// ---------------------------------------------------------------------------
// Exec decoders.  Each reads one encoding at `pos` inside `inp`, returning
// the value with the position just past it, or `None` when no encoding of
// the expected shape starts there.  The two ensures clauses say, first, that
// whatever is returned really is the encoding of the returned value, and
// second, that any value whose encoding starts at `pos` is found.
// ---------------------------------------------------------------------------

pub fn dec_u8(inp: &[u8], pos: usize) -> (r: Option<(u8, usize)>)
    requires
        pos <= inp@.len(),
    ensures
        r matches Some((v, end)) ==> {
            &&& pos < end <= inp@.len()
            &&& inp@.subrange(pos as int, end as int) == enc_u8(v)
        },
        forall|g: u8| #![trigger enc_u8(g)]
            enc_u8(g).is_prefix_of(inp@.skip(pos as int)) ==> (r matches Some((v, end)) && v == g
                && end == pos + enc_u8(g).len()),
{
    if inp.len() - pos >= 1 {
        let v = *vstd::slice::slice_index_get(inp, pos);
        proof {
            assert(inp@.subrange(pos as int, pos + 1) =~= enc_u8(v));
            assert forall|g: u8| #![trigger enc_u8(g)]
                enc_u8(g).is_prefix_of(inp@.skip(pos as int)) implies g == v by {
                assert(enc_u8(g)[0] == inp@.skip(pos as int)[0]);
            }
        }
        Some((v, pos + 1))
    } else {
        proof {
            assert forall|g: u8| #![trigger enc_u8(g)]
                !enc_u8(g).is_prefix_of(inp@.skip(pos as int)) by {
                assert(inp@.skip(pos as int).len() == 0);
            }
        }
        None
    }
}

pub fn dec_u32(inp: &[u8], pos: usize) -> (r: Option<(u32, usize)>)
    requires
        pos <= inp@.len(),
    ensures
        r matches Some((v, end)) ==> {
            &&& pos < end <= inp@.len()
            &&& inp@.subrange(pos as int, end as int) == enc_u32(v)
        },
        forall|g: u32| #![trigger enc_u32(g)]
            enc_u32(g).is_prefix_of(inp@.skip(pos as int)) ==> (r matches Some((v, end)) && v == g
                && end == pos + enc_u32(g).len()),
{
    proof {
        lemma_auto_spec_u32_to_from_le_bytes();
    }
    if inp.len() - pos >= 4 {
        let sub = slice_subrange(inp, pos, pos + 4);
        let v = u32_from_le_bytes(sub);
        proof {
            assert(inp@.subrange(pos as int, pos + 4) == sub@);
            assert(enc_u32(v) == sub@);
            assert forall|g: u32| #![trigger enc_u32(g)]
                enc_u32(g).is_prefix_of(inp@.skip(pos as int)) implies g == v by {
                assert(enc_u32(g) =~= sub@);
            }
        }
        Some((v, pos + 4))
    } else {
        proof {
            assert forall|g: u32| #![trigger enc_u32(g)]
                !enc_u32(g).is_prefix_of(inp@.skip(pos as int)) by {
                assert(inp@.skip(pos as int).len() < 4);
            }
        }
        None
    }
}

pub fn dec_u64(inp: &[u8], pos: usize) -> (r: Option<(u64, usize)>)
    requires
        pos <= inp@.len(),
    ensures
        r matches Some((v, end)) ==> {
            &&& pos < end <= inp@.len()
            &&& inp@.subrange(pos as int, end as int) == enc_u64(v)
        },
        forall|g: u64| #![trigger enc_u64(g)]
            enc_u64(g).is_prefix_of(inp@.skip(pos as int)) ==> (r matches Some((v, end)) && v == g
                && end == pos + enc_u64(g).len()),
{
    proof {
        lemma_auto_spec_u64_to_from_le_bytes();
    }
    if inp.len() - pos >= 8 {
        let sub = slice_subrange(inp, pos, pos + 8);
        let v = u64_from_le_bytes(sub);
        proof {
            assert(inp@.subrange(pos as int, pos + 8) == sub@);
            assert(enc_u64(v) == sub@);
            assert forall|g: u64| #![trigger enc_u64(g)]
                enc_u64(g).is_prefix_of(inp@.skip(pos as int)) implies g == v by {
                assert(enc_u64(g) =~= sub@);
            }
        }
        Some((v, pos + 8))
    } else {
        proof {
            assert forall|g: u64| #![trigger enc_u64(g)]
                !enc_u64(g).is_prefix_of(inp@.skip(pos as int)) by {
                assert(inp@.skip(pos as int).len() < 8);
            }
        }
        None
    }
}

pub fn dec_i64(inp: &[u8], pos: usize) -> (r: Option<(i64, usize)>)
    requires
        pos <= inp@.len(),
    ensures
        r matches Some((v, end)) ==> {
            &&& pos < end <= inp@.len()
            &&& inp@.subrange(pos as int, end as int) == enc_i64(v)
        },
        forall|g: i64| #![trigger enc_i64(g)]
            enc_i64(g).is_prefix_of(inp@.skip(pos as int)) ==> (r matches Some((v, end)) && v == g
                && end == pos + enc_i64(g).len()),
{
    proof {
        lemma_auto_spec_u64_to_from_le_bytes();
    }
    match dec_u64(inp, pos) {
        Some((u, end)) => {
            let v = #[verifier::truncate] (u as i64);
            proof {
                assert(((u as i64) as u64) == u) by (bit_vector);
                assert(v as u64 == u);
                assert forall|g: i64| #![trigger enc_i64(g)]
                    enc_i64(g).is_prefix_of(inp@.skip(pos as int)) implies g == v && end == pos
                    + enc_i64(g).len() by {
                    assert(enc_u64(g as u64) == enc_i64(g));
                    assert(enc_u64(g as u64).is_prefix_of(inp@.skip(pos as int)));
                    assert(g as u64 == u);
                    assert((g as u64) == ((u as i64) as u64) ==> g == (u as i64)) by (bit_vector);
                }
            }
            Some((v, end))
        },
        None => {
            proof {
                assert forall|g: i64| #![trigger enc_i64(g)]
                    !enc_i64(g).is_prefix_of(inp@.skip(pos as int)) by {
                    assert(enc_i64(g) == enc_u64(g as u64));
                }
            }
            None
        },
    }
}

pub fn dec_bool(inp: &[u8], pos: usize) -> (r: Option<(bool, usize)>)
    requires
        pos <= inp@.len(),
    ensures
        r matches Some((v, end)) ==> {
            &&& pos < end <= inp@.len()
            &&& inp@.subrange(pos as int, end as int) == enc_bool(v)
        },
        forall|g: bool| #![trigger enc_bool(g)]
            enc_bool(g).is_prefix_of(inp@.skip(pos as int)) ==> (r matches Some((v, end)) && v == g
                && end == pos + enc_bool(g).len()),
{
    proof {
        assert(enc_bool(false) == enc_u8(0));
        assert(enc_bool(true) == enc_u8(1));
    }
    match dec_u8(inp, pos) {
        Some((b, end)) => {
            if b == 0 {
                Some((false, end))
            } else if b == 1 {
                Some((true, end))
            } else {
                None
            }
        },
        None => None,
    }
}

pub fn dec_bytes(inp: &[u8], pos: usize) -> (r: Option<(Vec<u8>, usize)>)
    requires
        pos <= inp@.len(),
    ensures
        r matches Some((v, end)) ==> {
            &&& pos < end <= inp@.len()
            &&& inp@.subrange(pos as int, end as int) == enc_bytes(v@)
            &&& wf_bytes(v@)
        },
        forall|g: Seq<u8>| #![trigger enc_bytes(g)]
            wf_bytes(g) && enc_bytes(g).is_prefix_of(inp@.skip(pos as int)) ==> (r matches Some(
                (v, end),
            ) && v@ == g && end == pos + enc_bytes(g).len()),
{
    proof {
        lemma_auto_spec_u64_to_from_le_bytes();
    }
    match dec_u64(inp, pos) {
        Some((n, p2)) => {
            if n <= (inp.len() - p2) as u64 {
                let nn = n as usize;
                let v = slice_to_vec(slice_subrange(inp, p2, p2 + nn));
                proof {
                    lemma_subrange_split(inp@, pos as int, p2 as int, p2 + nn);
                    assert(inp@.subrange(pos as int, p2 + nn) == enc_bytes(v@));
                    assert forall|g: Seq<u8>| #![trigger enc_bytes(g)]
                        wf_bytes(g) && enc_bytes(g).is_prefix_of(inp@.skip(pos as int))
                        implies v@ == g && p2 + nn == pos + enc_bytes(g).len() by {
                        lemma_prefix_concat(enc_u64(g.len() as u64), g, inp@.skip(pos as int));
                        assert(g.len() as u64 == n);
                        assert(g =~= inp@.skip(pos as int).skip(8).subrange(0, g.len() as int));
                        lemma_skip_skip(inp@, pos as int, 8);
                        assert(g =~= inp@.subrange(p2 as int, p2 + nn));
                    }
                }
                Some((v, p2 + nn))
            } else {
                proof {
                    assert forall|g: Seq<u8>| #![trigger enc_bytes(g)]
                        !(wf_bytes(g) && enc_bytes(g).is_prefix_of(inp@.skip(pos as int))) by {
                        if wf_bytes(g) && enc_bytes(g).is_prefix_of(inp@.skip(pos as int)) {
                            lemma_prefix_concat(enc_u64(g.len() as u64), g, inp@.skip(pos as int));
                            assert(g.len() as u64 == n);
                            lemma_skip_skip(inp@, pos as int, 8);
                            assert(g.len() <= inp@.skip(p2 as int).len());
                        }
                    }
                }
                None
            }
        },
        None => {
            proof {
                assert forall|g: Seq<u8>| #![trigger enc_bytes(g)]
                    !(wf_bytes(g) && enc_bytes(g).is_prefix_of(inp@.skip(pos as int))) by {
                    if wf_bytes(g) && enc_bytes(g).is_prefix_of(inp@.skip(pos as int)) {
                        lemma_prefix_concat(enc_u64(g.len() as u64), g, inp@.skip(pos as int));
                    }
                }
            }
            None
        },
    }
}

/// Relies on std's `String::from_utf8`: it succeeds exactly on valid UTF-8
/// and then yields the decoded characters, as vstd's UTF-8 model states them.
#[verifier::external_body]
fn string_from_utf8(v: Vec<u8>) -> (r: Option<String>)
    ensures
        r matches Some(s) ==> valid_utf8(v@) && s@ == decode_utf8(v@),
        r is None ==> !valid_utf8(v@),
{
    match String::from_utf8(v) {
        Ok(s) => Some(s),
        Err(_) => None,
    }
}

pub fn dec_str(inp: &[u8], pos: usize) -> (r: Option<(String, usize)>)
    requires
        pos <= inp@.len(),
    ensures
        r matches Some((v, end)) ==> {
            &&& pos < end <= inp@.len()
            &&& inp@.subrange(pos as int, end as int) == enc_str(v@)
            &&& wf_str(v@)
        },
        forall|g: Seq<char>| #![trigger enc_str(g)]
            wf_str(g) && enc_str(g).is_prefix_of(inp@.skip(pos as int)) ==> (r matches Some(
                (v, end),
            ) && v@ == g && end == pos + enc_str(g).len()),
{
    match dec_bytes(inp, pos) {
        Some((b, end)) => {
            let ghost bv = b@;
            match string_from_utf8(b) {
                Some(s) => {
                    proof {
                        decode_utf8_encode_utf8(bv);
                        assert(enc_str(s@) == enc_bytes(bv));
                        assert forall|g: Seq<char>| #![trigger enc_str(g)]
                            wf_str(g) && enc_str(g).is_prefix_of(inp@.skip(pos as int))
                            implies s@ == g && end == pos + enc_str(g).len() by {
                            encode_utf8_valid_utf8(g);
                            assert(encode_utf8(g) == bv);
                            encode_utf8_decode_utf8(g);
                        }
                    }
                    Some((s, end))
                },
                None => {
                    proof {
                        assert forall|g: Seq<char>| #![trigger enc_str(g)]
                            !(wf_str(g) && enc_str(g).is_prefix_of(inp@.skip(pos as int))) by {
                            if wf_str(g) && enc_str(g).is_prefix_of(inp@.skip(pos as int)) {
                                encode_utf8_valid_utf8(g);
                                assert(encode_utf8(g) == bv);
                            }
                        }
                    }
                    None
                },
            }
        },
        None => {
            proof {
                assert forall|g: Seq<char>| #![trigger enc_str(g)]
                    !(wf_str(g) && enc_str(g).is_prefix_of(inp@.skip(pos as int))) by {
                    if wf_str(g) && enc_str(g).is_prefix_of(inp@.skip(pos as int)) {
                        encode_utf8_valid_utf8(g);
                    }
                }
            }
            None
        },
    }
}

// ---------------------------------------------------------------------------
// Spec encoders for the store's record shapes.  Multi-field encodings are
// written right-associated so that decoders can peel one field at a time.
// ---------------------------------------------------------------------------

pub open spec fn enc_opt_str(o: Option<Seq<char>>) -> Seq<u8> {
    match o {
        None => enc_u8(0),
        Some(s) => enc_u8(1) + enc_str(s),
    }
}

pub open spec fn wf_opt_str(o: Option<Seq<char>>) -> bool {
    o matches Some(s) ==> wf_str(s)
}

pub open spec fn enc_opt_u32(o: Option<u32>) -> Seq<u8> {
    match o {
        None => enc_u8(0),
        Some(v) => enc_u8(1) + enc_u32(v),
    }
}

pub open spec fn enc_secret_type(t: SecretType) -> Seq<u8> {
    match t {
        SecretType::Password => enc_u8(0),
        SecretType::Key => enc_u8(1),
        SecretType::Token => enc_u8(2),
    }
}

pub open spec fn enc_period(p: Period) -> Seq<u8> {
    match p {
        Period::Instant { value } => enc_u8(0) + enc_i64(value),
        Period::Range { start, end } => enc_u8(1) + (enc_i64(start) + enc_i64(end)),
        Period::Duration { seconds } => enc_u8(2) + enc_u64(seconds),
    }
}

pub open spec fn enc_hook(h: Hook) -> Seq<u8> {
    match h {
        Hook::OnlyBefore { period } => enc_u8(0) + enc_period(period),
        Hook::OnlyAfter { period } => enc_u8(1) + enc_period(period),
        Hook::OnlyWithin { period } => enc_u8(2) + enc_period(period),
        Hook::OnlyFor { duration_secs } => enc_u8(3) + enc_u64(duration_secs),
    }
}

pub open spec fn enc_cred_secret(s: CredentialSecretV) -> Seq<u8> {
    enc_secret_type(s.type_) + enc_bytes(s.data)
}

pub open spec fn wf_cred_secret(s: CredentialSecretV) -> bool {
    wf_bytes(s.data)
}

// ---------------------------------------------------------------------------
// Homogeneous lists: an element count as a 64-bit prefix, then the elements'
// encodings in order.
// ---------------------------------------------------------------------------

pub open spec fn enc_list<T>(s: Seq<T>, f: spec_fn(T) -> Seq<u8>) -> Seq<u8>
    decreases s.len(),
{
    if s.len() == 0 {
        Seq::empty()
    } else {
        f(s[0]) + enc_list(s.drop_first(), f)
    }
}

pub proof fn lemma_enc_list_snoc<T>(s: Seq<T>, f: spec_fn(T) -> Seq<u8>, i: int)
    requires
        0 <= i < s.len(),
    ensures
        enc_list(s.take(i + 1), f) == enc_list(s.take(i), f) + f(s[i]),
    decreases i,
{
    if i == 0 {
        assert(s.take(1)[0] == s[0]);
        assert(s.take(1).drop_first() =~= Seq::<T>::empty());
        assert(s.take(0) =~= Seq::<T>::empty());
        assert(enc_list(s.take(1), f) =~= enc_list(s.take(0), f) + f(s[0]));
    } else {
        let s1 = s.drop_first();
        lemma_enc_list_snoc(s1, f, i - 1);
        assert(s.take(i + 1).drop_first() =~= s1.take(i));
        assert(s.take(i).drop_first() =~= s1.take(i - 1));
        assert(s.take(i + 1)[0] == s[0]);
        assert(s.take(i)[0] == s[0]);
        assert(s1[i - 1] == s[i]);
        assert(enc_list(s.take(i + 1), f) =~= enc_list(s.take(i), f) + f(s[i]));
    }
}

pub proof fn lemma_enc_list_skip_unfold<T>(s: Seq<T>, f: spec_fn(T) -> Seq<u8>, i: int)
    requires
        0 <= i < s.len(),
    ensures
        enc_list(s.skip(i), f) == f(s[i]) + enc_list(s.skip(i + 1), f),
{
    assert(s.skip(i)[0] == s[i]);
    assert(s.skip(i).drop_first() =~= s.skip(i + 1));
}

pub open spec fn hook_f() -> spec_fn(Hook) -> Seq<u8> {
    |h: Hook| enc_hook(h)
}

pub open spec fn str_f() -> spec_fn(Seq<char>) -> Seq<u8> {
    |s: Seq<char>| enc_str(s)
}

pub open spec fn cred_f() -> spec_fn(CredentialV) -> Seq<u8> {
    |c: CredentialV| enc_credential(c)
}

pub open spec fn policy_f() -> spec_fn(PolicyV) -> Seq<u8> {
    |p: PolicyV| enc_policy(p)
}

pub open spec fn enc_hooks(s: Seq<Hook>) -> Seq<u8> {
    enc_u64(s.len() as u64) + enc_list(s, hook_f())
}

pub open spec fn wf_hooks(s: Seq<Hook>) -> bool {
    s.len() <= usize::MAX
}

pub open spec fn enc_strs(s: Seq<Seq<char>>) -> Seq<u8> {
    enc_u64(s.len() as u64) + enc_list(s, str_f())
}

pub open spec fn wf_strs(s: Seq<Seq<char>>) -> bool {
    &&& s.len() <= usize::MAX
    &&& forall|i: int| 0 <= i < s.len() ==> wf_str(#[trigger] s[i])
}

pub open spec fn enc_creds(s: Seq<CredentialV>) -> Seq<u8> {
    enc_u64(s.len() as u64) + enc_list(s, cred_f())
}

pub open spec fn wf_creds(s: Seq<CredentialV>) -> bool {
    &&& s.len() <= usize::MAX
    &&& forall|i: int| 0 <= i < s.len() ==> wf_cred(#[trigger] s[i])
}

pub open spec fn enc_pols(s: Seq<PolicyV>) -> Seq<u8> {
    enc_u64(s.len() as u64) + enc_list(s, policy_f())
}

pub open spec fn wf_pols(s: Seq<PolicyV>) -> bool {
    &&& s.len() <= usize::MAX
    &&& forall|i: int| 0 <= i < s.len() ==> wf_policy(#[trigger] s[i])
}

/// The view of a vector of strings as a sequence of character sequences.
pub open spec fn strs_view(v: Seq<String>) -> Seq<Seq<char>> {
    v.map_values(|s: String| s@)
}

/// The view of a vector of credentials.
pub open spec fn creds_view(v: Seq<Credential>) -> Seq<CredentialV> {
    v.map_values(|c: Credential| c@)
}

/// The view of a vector of policies.
pub open spec fn pols_view(v: Seq<Policy>) -> Seq<PolicyV> {
    v.map_values(|p: Policy| p@)
}

pub open spec fn enc_credential(c: CredentialV) -> Seq<u8> {
    enc_str(c.id) + (enc_str(c.label) + (enc_strs(c.tags) + (enc_i64(c.created_at) + (enc_i64(
        c.updated_at,
    ) + (enc_opt_str(c.policy_id) + (enc_cred_secret(c.secret) + enc_u64(c.usage_counter)))))))
}

pub open spec fn wf_cred(c: CredentialV) -> bool {
    &&& wf_str(c.id)
    &&& wf_str(c.label)
    &&& wf_strs(c.tags)
    &&& wf_opt_str(c.policy_id)
    &&& wf_cred_secret(c.secret)
}

pub open spec fn enc_policy(p: PolicyV) -> Seq<u8> {
    enc_str(p.id) + (enc_hooks(p.hooks) + (enc_opt_str(p.timezone) + (enc_u64(p.clock_skew_secs)
        + (enc_opt_u32(p.max_attempts) + (enc_bool(p.single_use) + enc_u32(p.version))))))
}

pub open spec fn wf_policy(p: PolicyV) -> bool {
    &&& wf_str(p.id)
    &&& wf_hooks(p.hooks)
    &&& wf_opt_str(p.timezone)
}

/// The store's payload: all credentials, then all policies.
pub open spec fn enc_payload(creds: Seq<CredentialV>, pols: Seq<PolicyV>) -> Seq<u8> {
    enc_creds(creds) + enc_pols(pols)
}

pub open spec fn wf_payload(creds: Seq<CredentialV>, pols: Seq<PolicyV>) -> bool {
    wf_creds(creds) && wf_pols(pols)
}

/// The container's plaintext header: a format version and the key-derivation
/// salt.
pub open spec fn enc_header(version: u32, salt: Seq<u8>) -> Seq<u8> {
    enc_u32(version) + enc_bytes(salt)
}

// ---------------------------------------------------------------------------
// Exec encoders for the record shapes.
// ---------------------------------------------------------------------------

pub fn enc_opt_str_into(out: &mut Vec<u8>, o: &Option<String>)
    ensures
        final(out)@ == old(out)@ + enc_opt_str(match *o {
            Some(s) => Some(s@),
            None => None,
        }),
{
    match o {
        None => enc_u8_into(out, 0),
        Some(s) => {
            enc_u8_into(out, 1);
            enc_str_into(out, s.as_str());
            proof {
                assert(final(out)@ =~= old(out)@ + (enc_u8(1) + enc_str(s@)));
            }
        },
    }
}

pub fn enc_opt_u32_into(out: &mut Vec<u8>, o: &Option<u32>)
    ensures
        final(out)@ == old(out)@ + enc_opt_u32(*o),
{
    match o {
        None => enc_u8_into(out, 0),
        Some(v) => {
            enc_u8_into(out, 1);
            enc_u32_into(out, *v);
            proof {
                assert(final(out)@ =~= old(out)@ + (enc_u8(1) + enc_u32(*v)));
            }
        },
    }
}

pub fn enc_secret_type_into(out: &mut Vec<u8>, t: &SecretType)
    ensures
        final(out)@ == old(out)@ + enc_secret_type(*t),
{
    match t {
        SecretType::Password => enc_u8_into(out, 0),
        SecretType::Key => enc_u8_into(out, 1),
        SecretType::Token => enc_u8_into(out, 2),
    }
}

pub fn enc_period_into(out: &mut Vec<u8>, p: &Period)
    ensures
        final(out)@ == old(out)@ + enc_period(*p),
{
    match p {
        Period::Instant { value } => {
            enc_u8_into(out, 0);
            enc_i64_into(out, *value);
            proof {
                assert(final(out)@ =~= old(out)@ + (enc_u8(0) + enc_i64(*value)));
            }
        },
        Period::Range { start, end } => {
            enc_u8_into(out, 1);
            enc_i64_into(out, *start);
            enc_i64_into(out, *end);
            proof {
                assert(final(out)@ =~= old(out)@ + (enc_u8(1) + (enc_i64(*start) + enc_i64(
                    *end,
                ))));
            }
        },
        Period::Duration { seconds } => {
            enc_u8_into(out, 2);
            enc_u64_into(out, *seconds);
            proof {
                assert(final(out)@ =~= old(out)@ + (enc_u8(2) + enc_u64(*seconds)));
            }
        },
    }
}

pub fn enc_hook_into(out: &mut Vec<u8>, h: &Hook)
    ensures
        final(out)@ == old(out)@ + enc_hook(*h),
{
    match h {
        Hook::OnlyBefore { period } => {
            enc_u8_into(out, 0);
            enc_period_into(out, period);
            proof {
                assert(final(out)@ =~= old(out)@ + (enc_u8(0) + enc_period(*period)));
            }
        },
        Hook::OnlyAfter { period } => {
            enc_u8_into(out, 1);
            enc_period_into(out, period);
            proof {
                assert(final(out)@ =~= old(out)@ + (enc_u8(1) + enc_period(*period)));
            }
        },
        Hook::OnlyWithin { period } => {
            enc_u8_into(out, 2);
            enc_period_into(out, period);
            proof {
                assert(final(out)@ =~= old(out)@ + (enc_u8(2) + enc_period(*period)));
            }
        },
        Hook::OnlyFor { duration_secs } => {
            enc_u8_into(out, 3);
            enc_u64_into(out, *duration_secs);
            proof {
                assert(final(out)@ =~= old(out)@ + (enc_u8(3) + enc_u64(*duration_secs)));
            }
        },
    }
}

pub fn enc_hooks_into(out: &mut Vec<u8>, hooks: &Vec<Hook>)
    ensures
        final(out)@ == old(out)@ + enc_hooks(hooks@),
{
    enc_u64_into(out, hooks.len() as u64);
    let ghost base = out@;
    let n = hooks.len();
    let mut i: usize = 0;
    while i < n
        invariant
            i <= n,
            n == hooks@.len(),
            out@ == base + enc_list(hooks@.take(i as int), hook_f()),
        decreases n - i,
    {
        enc_hook_into(out, &hooks[i]);
        proof {
            lemma_enc_list_snoc(hooks@, hook_f(), i as int);
            assert(hook_f()(hooks@[i as int]) == enc_hook(hooks@[i as int]));
            assert(out@ =~= base + enc_list(hooks@.take(i + 1), hook_f()));
        }
        i = i + 1;
    }
    proof {
        assert(hooks@.take(n as int) =~= hooks@);
        assert(final(out)@ =~= old(out)@ + enc_hooks(hooks@));
    }
}

pub fn enc_strs_into(out: &mut Vec<u8>, tags: &Vec<String>)
    ensures
        final(out)@ == old(out)@ + enc_strs(strs_view(tags@)),
{
    enc_u64_into(out, tags.len() as u64);
    let ghost base = out@;
    let n = tags.len();
    let mut i: usize = 0;
    while i < n
        invariant
            i <= n,
            n == tags@.len(),
            out@ == base + enc_list(strs_view(tags@).take(i as int), str_f()),
        decreases n - i,
    {
        enc_str_into(out, tags[i].as_str());
        proof {
            lemma_enc_list_snoc(strs_view(tags@), str_f(), i as int);
            assert(strs_view(tags@)[i as int] == tags@[i as int]@);
            assert(str_f()(tags@[i as int]@) == enc_str(tags@[i as int]@));
            assert(out@ =~= base + enc_list(strs_view(tags@).take(i + 1), str_f()));
        }
        i = i + 1;
    }
    proof {
        assert(strs_view(tags@).take(n as int) =~= strs_view(tags@));
        assert(final(out)@ =~= old(out)@ + enc_strs(strs_view(tags@)));
    }
}

pub fn enc_cred_secret_into(out: &mut Vec<u8>, s: &CredentialSecret)
    ensures
        final(out)@ == old(out)@ + enc_cred_secret(s@),
{
    enc_secret_type_into(out, &s.type_);
    enc_bytes_into(out, s.data.as_slice());
    proof {
        assert(final(out)@ =~= old(out)@ + enc_cred_secret(s@));
    }
}

pub fn enc_credential_into(out: &mut Vec<u8>, c: &Credential)
    ensures
        final(out)@ == old(out)@ + enc_credential(c@),
{
    enc_str_into(out, c.id.as_str());
    enc_str_into(out, c.label.as_str());
    enc_strs_into(out, &c.tags);
    enc_i64_into(out, c.created_at);
    enc_i64_into(out, c.updated_at);
    enc_opt_str_into(out, &c.policy_id);
    enc_cred_secret_into(out, &c.secret);
    enc_u64_into(out, c.usage_counter);
    proof {
        assert(final(out)@ =~= old(out)@ + enc_credential(c@));
    }
}

pub fn enc_policy_into(out: &mut Vec<u8>, p: &Policy)
    ensures
        final(out)@ == old(out)@ + enc_policy(p@),
{
    enc_str_into(out, p.id.as_str());
    enc_hooks_into(out, &p.hooks);
    enc_opt_str_into(out, &p.timezone);
    enc_u64_into(out, p.clock_skew_secs);
    enc_opt_u32_into(out, &p.max_attempts);
    enc_bool_into(out, p.single_use);
    enc_u32_into(out, p.version);
    proof {
        assert(final(out)@ =~= old(out)@ + enc_policy(p@));
    }
}

pub fn enc_creds_into(out: &mut Vec<u8>, creds: &Vec<Credential>)
    ensures
        final(out)@ == old(out)@ + enc_creds(creds_view(creds@)),
{
    let ghost cv = creds_view(creds@);
    enc_u64_into(out, creds.len() as u64);
    let ghost base = out@;
    let n = creds.len();
    let mut i: usize = 0;
    while i < n
        invariant
            i <= n,
            n == creds@.len(),
            cv == creds_view(creds@),
            out@ == base + enc_list(cv.take(i as int), cred_f()),
        decreases n - i,
    {
        enc_credential_into(out, &creds[i]);
        proof {
            lemma_enc_list_snoc(cv, cred_f(), i as int);
            assert(cv[i as int] == creds@[i as int]@);
            assert(cred_f()(creds@[i as int]@) == enc_credential(creds@[i as int]@));
            assert(out@ =~= base + enc_list(cv.take(i + 1), cred_f()));
        }
        i = i + 1;
    }
    proof {
        assert(cv.take(n as int) =~= cv);
        assert(final(out)@ =~= old(out)@ + enc_creds(cv));
    }
}

pub fn enc_pols_into(out: &mut Vec<u8>, pols: &Vec<Policy>)
    ensures
        final(out)@ == old(out)@ + enc_pols(pols_view(pols@)),
{
    let ghost pv = pols_view(pols@);
    enc_u64_into(out, pols.len() as u64);
    let ghost base = out@;
    let n = pols.len();
    let mut i: usize = 0;
    while i < n
        invariant
            i <= n,
            n == pols@.len(),
            pv == pols_view(pols@),
            out@ == base + enc_list(pv.take(i as int), policy_f()),
        decreases n - i,
    {
        enc_policy_into(out, &pols[i]);
        proof {
            lemma_enc_list_snoc(pv, policy_f(), i as int);
            assert(pv[i as int] == pols@[i as int]@);
            assert(policy_f()(pols@[i as int]@) == enc_policy(pols@[i as int]@));
            assert(out@ =~= base + enc_list(pv.take(i + 1), policy_f()));
        }
        i = i + 1;
    }
    proof {
        assert(pv.take(n as int) =~= pv);
        assert(final(out)@ =~= old(out)@ + enc_pols(pv));
    }
}

pub fn enc_payload_into(out: &mut Vec<u8>, creds: &Vec<Credential>, pols: &Vec<Policy>)
    ensures
        final(out)@ == old(out)@ + enc_payload(creds_view(creds@), pols_view(pols@)),
{
    enc_creds_into(out, creds);
    enc_pols_into(out, pols);
    proof {
        assert(final(out)@ =~= old(out)@ + enc_payload(creds_view(creds@), pols_view(pols@)));
    }
}

pub fn enc_header_into(out: &mut Vec<u8>, version: u32, salt: &[u8])
    ensures
        final(out)@ == old(out)@ + enc_header(version, salt@),
{
    enc_u32_into(out, version);
    enc_bytes_into(out, salt);
    proof {
        assert(final(out)@ =~= old(out)@ + enc_header(version, salt@));
    }
}

// ---------------------------------------------------------------------------
// Decoders for the tagged record shapes.
// ---------------------------------------------------------------------------

pub fn dec_secret_type(inp: &[u8], pos: usize) -> (r: Option<(SecretType, usize)>)
    requires
        pos <= inp@.len(),
    ensures
        r matches Some((v, end)) ==> {
            &&& pos < end <= inp@.len()
            &&& inp@.subrange(pos as int, end as int) == enc_secret_type(v)
        },
        forall|g: SecretType| #![trigger enc_secret_type(g)]
            enc_secret_type(g).is_prefix_of(inp@.skip(pos as int)) ==> (r matches Some((v, end))
                && v == g && end == pos + enc_secret_type(g).len()),
{
    proof {
        assert(enc_secret_type(SecretType::Password) == enc_u8(0));
        assert(enc_secret_type(SecretType::Key) == enc_u8(1));
        assert(enc_secret_type(SecretType::Token) == enc_u8(2));
    }
    match dec_u8(inp, pos) {
        Some((t, end)) => {
            if t == 0 {
                Some((SecretType::Password, end))
            } else if t == 1 {
                Some((SecretType::Key, end))
            } else if t == 2 {
                Some((SecretType::Token, end))
            } else {
                None
            }
        },
        None => None,
    }
}

pub fn dec_opt_u32(inp: &[u8], pos: usize) -> (r: Option<(Option<u32>, usize)>)
    requires
        pos <= inp@.len(),
    ensures
        r matches Some((v, end)) ==> {
            &&& pos < end <= inp@.len()
            &&& inp@.subrange(pos as int, end as int) == enc_opt_u32(v)
        },
        forall|g: Option<u32>| #![trigger enc_opt_u32(g)]
            enc_opt_u32(g).is_prefix_of(inp@.skip(pos as int)) ==> (r matches Some((v, end))
                && v == g && end == pos + enc_opt_u32(g).len()),
{
    proof {
        assert(enc_opt_u32(None) == enc_u8(0));
        assert forall|w: u32| #[trigger] enc_opt_u32(Some(w)) == enc_u8(1) + enc_u32(w) by {}
        assert forall|g: Option<u32>| #![trigger enc_opt_u32(g)]
            enc_opt_u32(g).is_prefix_of(inp@.skip(pos as int)) implies match g {
            None => enc_u8(0).is_prefix_of(inp@.skip(pos as int)),
            Some(w) => enc_u8(1).is_prefix_of(inp@.skip(pos as int)) && enc_u32(
                w,
            ).is_prefix_of(inp@.skip(pos + 1)),
        } by {
            match g {
                None => {},
                Some(w) => {
                    lemma_prefix_concat(enc_u8(1), enc_u32(w), inp@.skip(pos as int));
                    lemma_skip_skip(inp@, pos as int, 1);
                },
            }
        }
    }
    match dec_u8(inp, pos) {
        Some((t, p1)) => {
            if t == 0 {
                Some((None, p1))
            } else if t == 1 {
                match dec_u32(inp, p1) {
                    Some((w, end)) => {
                        proof {
                            lemma_subrange_split(inp@, pos as int, p1 as int, end as int);
                        }
                        Some((Some(w), end))
                    },
                    None => None,
                }
            } else {
                None
            }
        },
        None => None,
    }
}

pub fn dec_opt_str(inp: &[u8], pos: usize) -> (r: Option<(Option<String>, usize)>)
    requires
        pos <= inp@.len(),
    ensures
        r matches Some((v, end)) ==> {
            &&& pos < end <= inp@.len()
            &&& inp@.subrange(pos as int, end as int) == enc_opt_str(match v {
                Some(s) => Some(s@),
                None => None,
            })
            &&& wf_opt_str(match v {
                Some(s) => Some(s@),
                None => None,
            })
        },
        forall|g: Option<Seq<char>>| #![trigger enc_opt_str(g)]
            wf_opt_str(g) && enc_opt_str(g).is_prefix_of(inp@.skip(pos as int)) ==> (r matches Some(
                (v, end),
            ) && (match v {
                Some(s) => Some(s@),
                None => None,
            }) == g && end == pos + enc_opt_str(g).len()),
{
    proof {
        assert(enc_opt_str(None) == enc_u8(0));
        assert forall|g: Option<Seq<char>>| #![trigger enc_opt_str(g)]
            enc_opt_str(g).is_prefix_of(inp@.skip(pos as int)) implies match g {
            None => enc_u8(0).is_prefix_of(inp@.skip(pos as int)),
            Some(w) => enc_u8(1).is_prefix_of(inp@.skip(pos as int)) && enc_str(
                w,
            ).is_prefix_of(inp@.skip(pos + 1)),
        } by {
            match g {
                None => {},
                Some(w) => {
                    assert(enc_opt_str(g) == enc_u8(1) + enc_str(w));
                    lemma_prefix_concat(enc_u8(1), enc_str(w), inp@.skip(pos as int));
                    lemma_skip_skip(inp@, pos as int, 1);
                },
            }
        }
    }
    match dec_u8(inp, pos) {
        Some((t, p1)) => {
            if t == 0 {
                Some((None, p1))
            } else if t == 1 {
                match dec_str(inp, p1) {
                    Some((s, end)) => {
                        proof {
                            lemma_subrange_split(inp@, pos as int, p1 as int, end as int);
                        }
                        Some((Some(s), end))
                    },
                    None => None,
                }
            } else {
                None
            }
        },
        None => None,
    }
}

pub fn dec_period(inp: &[u8], pos: usize) -> (r: Option<(Period, usize)>)
    requires
        pos <= inp@.len(),
    ensures
        r matches Some((v, end)) ==> {
            &&& pos < end <= inp@.len()
            &&& inp@.subrange(pos as int, end as int) == enc_period(v)
        },
        forall|g: Period| #![trigger enc_period(g)]
            enc_period(g).is_prefix_of(inp@.skip(pos as int)) ==> (r matches Some((v, end))
                && v == g && end == pos + enc_period(g).len()),
{
    proof {
        lemma_auto_spec_u64_to_from_le_bytes();
        assert forall|g: Period| #![trigger enc_period(g)]
            enc_period(g).is_prefix_of(inp@.skip(pos as int)) implies match g {
            Period::Instant { value } => enc_u8(0).is_prefix_of(inp@.skip(pos as int)) && enc_i64(
                value,
            ).is_prefix_of(inp@.skip(pos + 1)),
            Period::Range { start, end } => enc_u8(1).is_prefix_of(inp@.skip(pos as int))
                && enc_i64(start).is_prefix_of(inp@.skip(pos + 1)) && enc_i64(
                end,
            ).is_prefix_of(inp@.skip(pos + 9)),
            Period::Duration { seconds } => enc_u8(2).is_prefix_of(inp@.skip(pos as int))
                && enc_u64(seconds).is_prefix_of(inp@.skip(pos + 1)),
        } by {
            match g {
                Period::Instant { value } => {
                    assert(enc_period(g) == enc_u8(0) + enc_i64(value));
                    lemma_prefix_concat(enc_u8(0), enc_i64(value), inp@.skip(pos as int));
                    lemma_skip_skip(inp@, pos as int, 1);
                },
                Period::Range { start, end } => {
                    assert(enc_period(g) == enc_u8(1) + (enc_i64(start) + enc_i64(end)));
                    lemma_prefix_concat(
                        enc_u8(1),
                        enc_i64(start) + enc_i64(end),
                        inp@.skip(pos as int),
                    );
                    lemma_skip_skip(inp@, pos as int, 1);
                    lemma_prefix_concat(enc_i64(start), enc_i64(end), inp@.skip(pos + 1));
                    lemma_skip_skip(inp@, pos + 1, 8);
                },
                Period::Duration { seconds } => {
                    assert(enc_period(g) == enc_u8(2) + enc_u64(seconds));
                    lemma_prefix_concat(enc_u8(2), enc_u64(seconds), inp@.skip(pos as int));
                    lemma_skip_skip(inp@, pos as int, 1);
                },
            }
        }
    }
    match dec_u8(inp, pos) {
        Some((t, p1)) => {
            if t == 0 {
                match dec_i64(inp, p1) {
                    Some((value, end)) => {
                        proof {
                            lemma_subrange_split(inp@, pos as int, p1 as int, end as int);
                        }
                        Some((Period::Instant { value }, end))
                    },
                    None => None,
                }
            } else if t == 1 {
                match dec_i64(inp, p1) {
                    Some((start, p2)) => match dec_i64(inp, p2) {
                        Some((end_t, end)) => {
                            proof {
                                lemma_subrange_split(inp@, p1 as int, p2 as int, end as int);
                                lemma_subrange_split(inp@, pos as int, p1 as int, end as int);
                            }
                            Some((Period::Range { start, end: end_t }, end))
                        },
                        None => None,
                    },
                    None => None,
                }
            } else if t == 2 {
                match dec_u64(inp, p1) {
                    Some((seconds, end)) => {
                        proof {
                            lemma_subrange_split(inp@, pos as int, p1 as int, end as int);
                        }
                        Some((Period::Duration { seconds }, end))
                    },
                    None => None,
                }
            } else {
                None
            }
        },
        None => None,
    }
}

pub fn dec_hook(inp: &[u8], pos: usize) -> (r: Option<(Hook, usize)>)
    requires
        pos <= inp@.len(),
    ensures
        r matches Some((v, end)) ==> {
            &&& pos < end <= inp@.len()
            &&& inp@.subrange(pos as int, end as int) == enc_hook(v)
        },
        forall|g: Hook| #![trigger enc_hook(g)]
            enc_hook(g).is_prefix_of(inp@.skip(pos as int)) ==> (r matches Some((v, end)) && v == g
                && end == pos + enc_hook(g).len()),
{
    proof {
        assert forall|g: Hook| #![trigger enc_hook(g)]
            enc_hook(g).is_prefix_of(inp@.skip(pos as int)) implies match g {
            Hook::OnlyBefore { period } => enc_u8(0).is_prefix_of(inp@.skip(pos as int))
                && enc_period(period).is_prefix_of(inp@.skip(pos + 1)),
            Hook::OnlyAfter { period } => enc_u8(1).is_prefix_of(inp@.skip(pos as int))
                && enc_period(period).is_prefix_of(inp@.skip(pos + 1)),
            Hook::OnlyWithin { period } => enc_u8(2).is_prefix_of(inp@.skip(pos as int))
                && enc_period(period).is_prefix_of(inp@.skip(pos + 1)),
            Hook::OnlyFor { duration_secs } => enc_u8(3).is_prefix_of(inp@.skip(pos as int))
                && enc_u64(duration_secs).is_prefix_of(inp@.skip(pos + 1)),
        } by {
            match g {
                Hook::OnlyBefore { period } => {
                    lemma_prefix_concat(enc_u8(0), enc_period(period), inp@.skip(pos as int));
                    lemma_skip_skip(inp@, pos as int, 1);
                },
                Hook::OnlyAfter { period } => {
                    lemma_prefix_concat(enc_u8(1), enc_period(period), inp@.skip(pos as int));
                    lemma_skip_skip(inp@, pos as int, 1);
                },
                Hook::OnlyWithin { period } => {
                    lemma_prefix_concat(enc_u8(2), enc_period(period), inp@.skip(pos as int));
                    lemma_skip_skip(inp@, pos as int, 1);
                },
                Hook::OnlyFor { duration_secs } => {
                    lemma_prefix_concat(enc_u8(3), enc_u64(duration_secs), inp@.skip(pos as int));
                    lemma_skip_skip(inp@, pos as int, 1);
                },
            }
        }
    }
    match dec_u8(inp, pos) {
        Some((t, p1)) => {
            if t <= 2 {
                match dec_period(inp, p1) {
                    Some((period, end)) => {
                        proof {
                            lemma_subrange_split(inp@, pos as int, p1 as int, end as int);
                        }
                        if t == 0 {
                            Some((Hook::OnlyBefore { period }, end))
                        } else if t == 1 {
                            Some((Hook::OnlyAfter { period }, end))
                        } else {
                            Some((Hook::OnlyWithin { period }, end))
                        }
                    },
                    None => None,
                }
            } else if t == 3 {
                match dec_u64(inp, p1) {
                    Some((duration_secs, end)) => {
                        proof {
                            lemma_subrange_split(inp@, pos as int, p1 as int, end as int);
                        }
                        Some((Hook::OnlyFor { duration_secs }, end))
                    },
                    None => None,
                }
            } else {
                None
            }
        },
        None => None,
    }
}

pub fn dec_cred_secret(inp: &[u8], pos: usize) -> (r: Option<(CredentialSecret, usize)>)
    requires
        pos <= inp@.len(),
    ensures
        r matches Some((v, end)) ==> {
            &&& pos < end <= inp@.len()
            &&& inp@.subrange(pos as int, end as int) == enc_cred_secret(v@)
            &&& wf_cred_secret(v@)
        },
        forall|g: CredentialSecretV| #![trigger enc_cred_secret(g)]
            wf_cred_secret(g) && enc_cred_secret(g).is_prefix_of(inp@.skip(pos as int)) ==> (
            r matches Some((v, end)) && v@ == g && end == pos + enc_cred_secret(g).len()),
{
    proof {
        assert forall|g: CredentialSecretV| #![trigger enc_cred_secret(g)]
            enc_cred_secret(g).is_prefix_of(inp@.skip(pos as int)) implies enc_secret_type(
            g.type_,
        ).is_prefix_of(inp@.skip(pos as int)) && enc_bytes(g.data).is_prefix_of(
            inp@.skip(pos + enc_secret_type(g.type_).len()),
        ) by {
            lemma_prefix_concat(enc_secret_type(g.type_), enc_bytes(g.data), inp@.skip(pos as int));
            lemma_skip_skip(inp@, pos as int, enc_secret_type(g.type_).len() as int);
        }
    }
    match dec_secret_type(inp, pos) {
        Some((t, p1)) => {
            match dec_bytes(inp, p1) {
                Some((d, end)) => {
                    proof {
                        lemma_subrange_split(inp@, pos as int, p1 as int, end as int);
                        assert forall|g: CredentialSecretV| #![trigger enc_cred_secret(g)]
                            wf_cred_secret(g) && enc_cred_secret(g).is_prefix_of(
                                inp@.skip(pos as int),
                            ) implies CredentialSecretV { type_: t, data: d@ } == g by {
                            assert(CredentialSecretV { type_: t, data: d@ } =~= g);
                        }
                    }
                    Some((CredentialSecret { type_: t, data: d }, end))
                },
                None => None,
            }
        },
        None => None,
    }
}

// ---------------------------------------------------------------------------
// List decoders: an element count, then that many elements.
// ---------------------------------------------------------------------------

#[verifier::loop_isolation(false)]
pub fn dec_hooks(inp: &[u8], pos: usize) -> (r: Option<(Vec<Hook>, usize)>)
    requires
        pos <= inp@.len(),
    ensures
        r matches Some((v, end)) ==> {
            &&& pos < end <= inp@.len()
            &&& inp@.subrange(pos as int, end as int) == enc_hooks(v@)
            &&& wf_hooks(v@)
        },
        forall|g: Seq<Hook>| #![trigger enc_hooks(g)]
            wf_hooks(g) && enc_hooks(g).is_prefix_of(inp@.skip(pos as int)) ==> (r matches Some(
                (v, end),
            ) && v@ == g && end == pos + enc_hooks(g).len()),
{
    proof {
        lemma_auto_spec_u64_to_from_le_bytes();
        assert forall|g: Seq<Hook>| #![trigger enc_hooks(g)]
            wf_hooks(g) && enc_hooks(g).is_prefix_of(inp@.skip(pos as int)) implies enc_u64(
            g.len() as u64,
        ).is_prefix_of(inp@.skip(pos as int)) && enc_list(g, hook_f()).is_prefix_of(
            inp@.skip(pos + 8),
        ) by {
            lemma_prefix_concat(
                enc_u64(g.len() as u64),
                enc_list(g, hook_f()),
                inp@.skip(pos as int),
            );
            lemma_skip_skip(inp@, pos as int, 8);
        }
    }
    match dec_u64(inp, pos) {
        None => None,
        Some((n, start)) => {
            let mut v: Vec<Hook> = Vec::new();
            let mut cur: usize = start;
            let mut i: u64 = 0;
            proof {
                assert forall|g: Seq<Hook>| #![trigger enc_hooks(g)]
                    wf_hooks(g) && enc_hooks(g).is_prefix_of(inp@.skip(pos as int)) implies g.len()
                    == n && v@ == g.take(0) && enc_list(g.skip(0), hook_f()).is_prefix_of(
                    inp@.skip(start as int),
                ) by {
                    assert(g.len() as u64 == n);
                    assert(v@ =~= g.take(0));
                    assert(g.skip(0) =~= g);
                }
                assert(inp@.subrange(start as int, start as int) =~= enc_list(v@, hook_f()));
            }
            while i < n
                invariant
                    i <= n,
                    start <= cur <= inp@.len(),
                    v@.len() == i,
                    i <= cur - start,
                    inp@.subrange(start as int, cur as int) == enc_list(v@, hook_f()),
                    forall|g: Seq<Hook>| #![trigger enc_hooks(g)]
                        wf_hooks(g) && enc_hooks(g).is_prefix_of(inp@.skip(pos as int)) ==> (g.len()
                            == n && v@ == g.take(i as int) && enc_list(
                            g.skip(i as int),
                            hook_f(),
                        ).is_prefix_of(inp@.skip(cur as int))),
                decreases n - i,
            {
                match dec_hook(inp, cur) {
                    None => {
                        proof {
                            assert forall|g: Seq<Hook>| #![trigger enc_hooks(g)]
                                !(wf_hooks(g) && enc_hooks(g).is_prefix_of(
                                    inp@.skip(pos as int),
                                )) by {
                                if wf_hooks(g) && enc_hooks(g).is_prefix_of(
                                    inp@.skip(pos as int),
                                ) {
                                    lemma_enc_list_skip_unfold(g, hook_f(), i as int);
                                    assert(hook_f()(g[i as int]) == enc_hook(g[i as int]));
                                    lemma_prefix_concat(
                                        enc_hook(g[i as int]),
                                        enc_list(g.skip(i + 1), hook_f()),
                                        inp@.skip(cur as int),
                                    );
                                }
                            }
                        }
                        return None;
                    },
                    Some((h, c2)) => {
                        proof {
                            assert forall|g: Seq<Hook>| #![trigger enc_hooks(g)]
                                wf_hooks(g) && enc_hooks(g).is_prefix_of(inp@.skip(pos as int))
                                implies v@.push(h) == g.take(i + 1) && enc_list(
                                g.skip(i + 1),
                                hook_f(),
                            ).is_prefix_of(inp@.skip(c2 as int)) by {
                                lemma_enc_list_skip_unfold(g, hook_f(), i as int);
                                assert(hook_f()(g[i as int]) == enc_hook(g[i as int]));
                                lemma_prefix_concat(
                                    enc_hook(g[i as int]),
                                    enc_list(g.skip(i + 1), hook_f()),
                                    inp@.skip(cur as int),
                                );
                                lemma_skip_skip(
                                    inp@,
                                    cur as int,
                                    enc_hook(g[i as int]).len() as int,
                                );
                                assert(v@.push(h) =~= g.take(i + 1));
                            }
                            lemma_enc_list_snoc(v@.push(h), hook_f(), i as int);
                            assert(v@.push(h).take(i as int) =~= v@);
                            assert(v@.push(h).take(i + 1) =~= v@.push(h));
                            assert(hook_f()(v@.push(h)[i as int]) == enc_hook(h));
                            lemma_subrange_split(inp@, start as int, cur as int, c2 as int);
                        }
                        v.push(h);
                        cur = c2;
                        i = i + 1;
                    },
                }
            }
            proof {
                assert(v@.len() as u64 == n);
                assert(enc_hooks(v@) == enc_u64(n) + enc_list(v@, hook_f()));
                lemma_subrange_split(inp@, pos as int, start as int, cur as int);
                assert(inp@.subrange(pos as int, cur as int) =~= enc_hooks(v@));
                assert forall|g: Seq<Hook>| #![trigger enc_hooks(g)]
                    wf_hooks(g) && enc_hooks(g).is_prefix_of(inp@.skip(pos as int)) implies v@ == g
                    && cur == pos + enc_hooks(g).len() by {
                    assert(g.take(i as int) =~= g);
                    assert(enc_list(v@, hook_f()).len() == cur - start);
                }
            }
            Some((v, cur))
        },
    }
}

#[verifier::loop_isolation(false)]
pub fn dec_strs(inp: &[u8], pos: usize) -> (r: Option<(Vec<String>, usize)>)
    requires
        pos <= inp@.len(),
    ensures
        r matches Some((v, end)) ==> {
            &&& pos < end <= inp@.len()
            &&& inp@.subrange(pos as int, end as int) == enc_strs(strs_view(v@))
            &&& wf_strs(strs_view(v@))
        },
        forall|g: Seq<Seq<char>>| #![trigger enc_strs(g)]
            wf_strs(g) && enc_strs(g).is_prefix_of(inp@.skip(pos as int)) ==> (r matches Some(
                (v, end),
            ) && strs_view(v@) == g && end == pos + enc_strs(g).len()),
{
    proof {
        lemma_auto_spec_u64_to_from_le_bytes();
        assert forall|g: Seq<Seq<char>>| #![trigger enc_strs(g)]
            wf_strs(g) && enc_strs(g).is_prefix_of(inp@.skip(pos as int)) implies enc_u64(
            g.len() as u64,
        ).is_prefix_of(inp@.skip(pos as int)) && enc_list(g, str_f()).is_prefix_of(
            inp@.skip(pos + 8),
        ) by {
            lemma_prefix_concat(
                enc_u64(g.len() as u64),
                enc_list(g, str_f()),
                inp@.skip(pos as int),
            );
            lemma_skip_skip(inp@, pos as int, 8);
        }
    }
    match dec_u64(inp, pos) {
        None => None,
        Some((n, start)) => {
            let mut v: Vec<String> = Vec::new();
            let mut cur: usize = start;
            let mut i: u64 = 0;
            proof {
                assert forall|g: Seq<Seq<char>>| #![trigger enc_strs(g)]
                    wf_strs(g) && enc_strs(g).is_prefix_of(inp@.skip(pos as int)) implies g.len()
                    == n && strs_view(v@) == g.take(0) && enc_list(g.skip(0), str_f()).is_prefix_of(
                    inp@.skip(start as int),
                ) by {
                    assert(g.len() as u64 == n);
                    assert(strs_view(v@) =~= g.take(0));
                    assert(g.skip(0) =~= g);
                }
                assert(inp@.subrange(start as int, start as int) =~= enc_list(
                    strs_view(v@),
                    str_f(),
                ));
            }
            while i < n
                invariant
                    i <= n,
                    start <= cur <= inp@.len(),
                    v@.len() == i,
                    i <= cur - start,
                    forall|j: int| 0 <= j < v@.len() ==> wf_str(#[trigger] strs_view(v@)[j]),
                    inp@.subrange(start as int, cur as int) == enc_list(strs_view(v@), str_f()),
                    forall|g: Seq<Seq<char>>| #![trigger enc_strs(g)]
                        wf_strs(g) && enc_strs(g).is_prefix_of(inp@.skip(pos as int)) ==> (g.len()
                            == n && strs_view(v@) == g.take(i as int) && enc_list(
                            g.skip(i as int),
                            str_f(),
                        ).is_prefix_of(inp@.skip(cur as int))),
                decreases n - i,
            {
                match dec_str(inp, cur) {
                    None => {
                        proof {
                            assert forall|g: Seq<Seq<char>>| #![trigger enc_strs(g)]
                                !(wf_strs(g) && enc_strs(g).is_prefix_of(
                                    inp@.skip(pos as int),
                                )) by {
                                if wf_strs(g) && enc_strs(g).is_prefix_of(inp@.skip(pos as int)) {
                                    lemma_enc_list_skip_unfold(g, str_f(), i as int);
                                    assert(str_f()(g[i as int]) == enc_str(g[i as int]));
                                    lemma_prefix_concat(
                                        enc_str(g[i as int]),
                                        enc_list(g.skip(i + 1), str_f()),
                                        inp@.skip(cur as int),
                                    );
                                    assert(wf_str(g[i as int]));
                                }
                            }
                        }
                        return None;
                    },
                    Some((s, c2)) => {
                        proof {
                            assert forall|g: Seq<Seq<char>>| #![trigger enc_strs(g)]
                                wf_strs(g) && enc_strs(g).is_prefix_of(inp@.skip(pos as int))
                                implies strs_view(v@.push(s)) == g.take(i + 1) && enc_list(
                                g.skip(i + 1),
                                str_f(),
                            ).is_prefix_of(inp@.skip(c2 as int)) by {
                                lemma_enc_list_skip_unfold(g, str_f(), i as int);
                                assert(str_f()(g[i as int]) == enc_str(g[i as int]));
                                lemma_prefix_concat(
                                    enc_str(g[i as int]),
                                    enc_list(g.skip(i + 1), str_f()),
                                    inp@.skip(cur as int),
                                );
                                assert(wf_str(g[i as int]));
                                lemma_skip_skip(inp@, cur as int, enc_str(g[i as int]).len() as int);
                                assert(strs_view(v@.push(s)) =~= g.take(i + 1));
                            }
                            lemma_enc_list_snoc(strs_view(v@.push(s)), str_f(), i as int);
                            assert(strs_view(v@.push(s)).take(i as int) =~= strs_view(v@));
                            assert(strs_view(v@.push(s)).take(i + 1) =~= strs_view(v@.push(s)));
                            assert(str_f()(strs_view(v@.push(s))[i as int]) == enc_str(s@));
                            lemma_subrange_split(inp@, start as int, cur as int, c2 as int);
                        }
                        v.push(s);
                        cur = c2;
                        i = i + 1;
                    },
                }
            }
            proof {
                assert(v@.len() as u64 == n);
                assert(strs_view(v@).len() == v@.len());
                assert(enc_strs(strs_view(v@)) == enc_u64(n) + enc_list(strs_view(v@), str_f()));
                lemma_subrange_split(inp@, pos as int, start as int, cur as int);
                assert(inp@.subrange(pos as int, cur as int) =~= enc_strs(strs_view(v@)));
                assert(wf_strs(strs_view(v@)));
                assert forall|g: Seq<Seq<char>>| #![trigger enc_strs(g)]
                    wf_strs(g) && enc_strs(g).is_prefix_of(inp@.skip(pos as int)) implies strs_view(
                    v@,
                ) == g && cur == pos + enc_strs(g).len() by {
                    assert(g.take(i as int) =~= g);
                    assert(enc_list(strs_view(v@), str_f()).len() == cur - start);
                }
            }
            Some((v, cur))
        },
    }
}

// ---------------------------------------------------------------------------
// Record decoders.
// ---------------------------------------------------------------------------

/// Peels a credential encoding into its eight fields, each a prefix at its
/// accumulated offset.
pub proof fn lemma_cred_chain(g: CredentialV, s: Seq<u8>, pos: int)
    requires
        0 <= pos <= s.len(),
        enc_credential(g).is_prefix_of(s.skip(pos)),
    ensures
        enc_str(g.id).is_prefix_of(s.skip(pos)),
        enc_str(g.label).is_prefix_of(s.skip(pos + enc_str(g.id).len())),
        enc_strs(g.tags).is_prefix_of(s.skip(pos + enc_str(g.id).len() + enc_str(g.label).len())),
        enc_i64(g.created_at).is_prefix_of(
            s.skip(pos + enc_str(g.id).len() + enc_str(g.label).len() + enc_strs(g.tags).len()),
        ),
        enc_i64(g.updated_at).is_prefix_of(
            s.skip(
                pos + enc_str(g.id).len() + enc_str(g.label).len() + enc_strs(g.tags).len()
                    + enc_i64(g.created_at).len(),
            ),
        ),
        enc_opt_str(g.policy_id).is_prefix_of(
            s.skip(
                pos + enc_str(g.id).len() + enc_str(g.label).len() + enc_strs(g.tags).len()
                    + enc_i64(g.created_at).len() + enc_i64(g.updated_at).len(),
            ),
        ),
        enc_cred_secret(g.secret).is_prefix_of(
            s.skip(
                pos + enc_str(g.id).len() + enc_str(g.label).len() + enc_strs(g.tags).len()
                    + enc_i64(g.created_at).len() + enc_i64(g.updated_at).len() + enc_opt_str(
                    g.policy_id,
                ).len(),
            ),
        ),
        enc_u64(g.usage_counter).is_prefix_of(
            s.skip(
                pos + enc_str(g.id).len() + enc_str(g.label).len() + enc_strs(g.tags).len()
                    + enc_i64(g.created_at).len() + enc_i64(g.updated_at).len() + enc_opt_str(
                    g.policy_id,
                ).len() + enc_cred_secret(g.secret).len(),
            ),
        ),
{
    let e1 = enc_str(g.id);
    let e2 = enc_str(g.label);
    let e3 = enc_strs(g.tags);
    let e4 = enc_i64(g.created_at);
    let e5 = enc_i64(g.updated_at);
    let e6 = enc_opt_str(g.policy_id);
    let e7 = enc_cred_secret(g.secret);
    let e8 = enc_u64(g.usage_counter);
    let l1 = e1.len() as int;
    let l2 = e2.len() as int;
    let l3 = e3.len() as int;
    let l4 = e4.len() as int;
    let l5 = e5.len() as int;
    let l6 = e6.len() as int;
    let l7 = e7.len() as int;
    lemma_prefix_concat(e1, e2 + (e3 + (e4 + (e5 + (e6 + (e7 + e8))))), s.skip(pos));
    lemma_skip_skip(s, pos, l1);
    lemma_prefix_concat(e2, e3 + (e4 + (e5 + (e6 + (e7 + e8)))), s.skip(pos + l1));
    lemma_skip_skip(s, pos + l1, l2);
    lemma_prefix_concat(e3, e4 + (e5 + (e6 + (e7 + e8))), s.skip(pos + l1 + l2));
    lemma_skip_skip(s, pos + l1 + l2, l3);
    lemma_prefix_concat(e4, e5 + (e6 + (e7 + e8)), s.skip(pos + l1 + l2 + l3));
    lemma_skip_skip(s, pos + l1 + l2 + l3, l4);
    lemma_prefix_concat(e5, e6 + (e7 + e8), s.skip(pos + l1 + l2 + l3 + l4));
    lemma_skip_skip(s, pos + l1 + l2 + l3 + l4, l5);
    lemma_prefix_concat(e6, e7 + e8, s.skip(pos + l1 + l2 + l3 + l4 + l5));
    lemma_skip_skip(s, pos + l1 + l2 + l3 + l4 + l5, l6);
    lemma_prefix_concat(e7, e8, s.skip(pos + l1 + l2 + l3 + l4 + l5 + l6));
    lemma_skip_skip(s, pos + l1 + l2 + l3 + l4 + l5 + l6, l7);
}

pub fn dec_credential(inp: &[u8], pos: usize) -> (r: Option<(Credential, usize)>)
    requires
        pos <= inp@.len(),
    ensures
        r matches Some((v, end)) ==> {
            &&& pos < end <= inp@.len()
            &&& inp@.subrange(pos as int, end as int) == enc_credential(v@)
            &&& wf_cred(v@)
        },
        forall|g: CredentialV| #![trigger enc_credential(g)]
            wf_cred(g) && enc_credential(g).is_prefix_of(inp@.skip(pos as int)) ==> (
            r matches Some((v, end)) && v@ == g && end == pos + enc_credential(g).len()),
{
    proof {
        assert forall|g: CredentialV| #![trigger enc_credential(g)]
            wf_cred(g) && enc_credential(g).is_prefix_of(inp@.skip(pos as int)) implies {
            &&& enc_str(g.id).is_prefix_of(inp@.skip(pos as int))
            &&& enc_str(g.label).is_prefix_of(inp@.skip(pos + enc_str(g.id).len()))
            &&& enc_strs(g.tags).is_prefix_of(
                inp@.skip(pos + enc_str(g.id).len() + enc_str(g.label).len()),
            )
            &&& enc_i64(g.created_at).is_prefix_of(
                inp@.skip(
                    pos + enc_str(g.id).len() + enc_str(g.label).len() + enc_strs(g.tags).len(),
                ),
            )
            &&& enc_i64(g.updated_at).is_prefix_of(
                inp@.skip(
                    pos + enc_str(g.id).len() + enc_str(g.label).len() + enc_strs(g.tags).len()
                        + enc_i64(g.created_at).len(),
                ),
            )
            &&& enc_opt_str(g.policy_id).is_prefix_of(
                inp@.skip(
                    pos + enc_str(g.id).len() + enc_str(g.label).len() + enc_strs(g.tags).len()
                        + enc_i64(g.created_at).len() + enc_i64(g.updated_at).len(),
                ),
            )
            &&& enc_cred_secret(g.secret).is_prefix_of(
                inp@.skip(
                    pos + enc_str(g.id).len() + enc_str(g.label).len() + enc_strs(g.tags).len()
                        + enc_i64(g.created_at).len() + enc_i64(g.updated_at).len() + enc_opt_str(
                        g.policy_id,
                    ).len(),
                ),
            )
            &&& enc_u64(g.usage_counter).is_prefix_of(
                inp@.skip(
                    pos + enc_str(g.id).len() + enc_str(g.label).len() + enc_strs(g.tags).len()
                        + enc_i64(g.created_at).len() + enc_i64(g.updated_at).len() + enc_opt_str(
                        g.policy_id,
                    ).len() + enc_cred_secret(g.secret).len(),
                ),
            )
        } by {
            lemma_cred_chain(g, inp@, pos as int);
        }
    }
    let (id, p1) = match dec_str(inp, pos) {
        Some(x) => x,
        None => {
            return None;
        },
    };
    let (label, p2) = match dec_str(inp, p1) {
        Some(x) => x,
        None => {
            return None;
        },
    };
    let (tags, p3) = match dec_strs(inp, p2) {
        Some(x) => x,
        None => {
            return None;
        },
    };
    let (created_at, p4) = match dec_i64(inp, p3) {
        Some(x) => x,
        None => {
            return None;
        },
    };
    let (updated_at, p5) = match dec_i64(inp, p4) {
        Some(x) => x,
        None => {
            return None;
        },
    };
    let (policy_id, p6) = match dec_opt_str(inp, p5) {
        Some(x) => x,
        None => {
            return None;
        },
    };
    let (secret, p7) = match dec_cred_secret(inp, p6) {
        Some(x) => x,
        None => {
            return None;
        },
    };
    let (usage_counter, end) = match dec_u64(inp, p7) {
        Some(x) => x,
        None => {
            return None;
        },
    };
    let cred = Credential {
        id,
        label,
        tags,
        created_at,
        updated_at,
        policy_id,
        secret,
        usage_counter,
    };
    proof {
        lemma_subrange_split(inp@, p6 as int, p7 as int, end as int);
        lemma_subrange_split(inp@, p5 as int, p6 as int, end as int);
        lemma_subrange_split(inp@, p4 as int, p5 as int, end as int);
        lemma_subrange_split(inp@, p3 as int, p4 as int, end as int);
        lemma_subrange_split(inp@, p2 as int, p3 as int, end as int);
        lemma_subrange_split(inp@, p1 as int, p2 as int, end as int);
        lemma_subrange_split(inp@, pos as int, p1 as int, end as int);
        assert(inp@.subrange(pos as int, end as int) == enc_credential(cred@));
        assert forall|g: CredentialV| #![trigger enc_credential(g)]
            wf_cred(g) && enc_credential(g).is_prefix_of(inp@.skip(pos as int)) implies cred@ == g
            && end == pos + enc_credential(g).len() by {
            assert(cred@ =~= g);
        }
    }
    Some((cred, end))
}

/// Peels a policy encoding into its seven fields.
pub proof fn lemma_policy_chain(g: PolicyV, s: Seq<u8>, pos: int)
    requires
        0 <= pos <= s.len(),
        enc_policy(g).is_prefix_of(s.skip(pos)),
    ensures
        enc_str(g.id).is_prefix_of(s.skip(pos)),
        enc_hooks(g.hooks).is_prefix_of(s.skip(pos + enc_str(g.id).len())),
        enc_opt_str(g.timezone).is_prefix_of(
            s.skip(pos + enc_str(g.id).len() + enc_hooks(g.hooks).len()),
        ),
        enc_u64(g.clock_skew_secs).is_prefix_of(
            s.skip(
                pos + enc_str(g.id).len() + enc_hooks(g.hooks).len() + enc_opt_str(
                    g.timezone,
                ).len(),
            ),
        ),
        enc_opt_u32(g.max_attempts).is_prefix_of(
            s.skip(
                pos + enc_str(g.id).len() + enc_hooks(g.hooks).len() + enc_opt_str(g.timezone).len()
                    + enc_u64(g.clock_skew_secs).len(),
            ),
        ),
        enc_bool(g.single_use).is_prefix_of(
            s.skip(
                pos + enc_str(g.id).len() + enc_hooks(g.hooks).len() + enc_opt_str(g.timezone).len()
                    + enc_u64(g.clock_skew_secs).len() + enc_opt_u32(g.max_attempts).len(),
            ),
        ),
        enc_u32(g.version).is_prefix_of(
            s.skip(
                pos + enc_str(g.id).len() + enc_hooks(g.hooks).len() + enc_opt_str(g.timezone).len()
                    + enc_u64(g.clock_skew_secs).len() + enc_opt_u32(g.max_attempts).len()
                    + enc_bool(g.single_use).len(),
            ),
        ),
{
    let e1 = enc_str(g.id);
    let e2 = enc_hooks(g.hooks);
    let e3 = enc_opt_str(g.timezone);
    let e4 = enc_u64(g.clock_skew_secs);
    let e5 = enc_opt_u32(g.max_attempts);
    let e6 = enc_bool(g.single_use);
    let e7 = enc_u32(g.version);
    let l1 = e1.len() as int;
    let l2 = e2.len() as int;
    let l3 = e3.len() as int;
    let l4 = e4.len() as int;
    let l5 = e5.len() as int;
    let l6 = e6.len() as int;
    lemma_prefix_concat(e1, e2 + (e3 + (e4 + (e5 + (e6 + e7)))), s.skip(pos));
    lemma_skip_skip(s, pos, l1);
    lemma_prefix_concat(e2, e3 + (e4 + (e5 + (e6 + e7))), s.skip(pos + l1));
    lemma_skip_skip(s, pos + l1, l2);
    lemma_prefix_concat(e3, e4 + (e5 + (e6 + e7)), s.skip(pos + l1 + l2));
    lemma_skip_skip(s, pos + l1 + l2, l3);
    lemma_prefix_concat(e4, e5 + (e6 + e7), s.skip(pos + l1 + l2 + l3));
    lemma_skip_skip(s, pos + l1 + l2 + l3, l4);
    lemma_prefix_concat(e5, e6 + e7, s.skip(pos + l1 + l2 + l3 + l4));
    lemma_skip_skip(s, pos + l1 + l2 + l3 + l4, l5);
    lemma_prefix_concat(e6, e7, s.skip(pos + l1 + l2 + l3 + l4 + l5));
    lemma_skip_skip(s, pos + l1 + l2 + l3 + l4 + l5, l6);
}

pub fn dec_policy(inp: &[u8], pos: usize) -> (r: Option<(Policy, usize)>)
    requires
        pos <= inp@.len(),
    ensures
        r matches Some((v, end)) ==> {
            &&& pos < end <= inp@.len()
            &&& inp@.subrange(pos as int, end as int) == enc_policy(v@)
            &&& wf_policy(v@)
        },
        forall|g: PolicyV| #![trigger enc_policy(g)]
            wf_policy(g) && enc_policy(g).is_prefix_of(inp@.skip(pos as int)) ==> (r matches Some(
                (v, end),
            ) && v@ == g && end == pos + enc_policy(g).len()),
{
    proof {
        assert forall|g: PolicyV| #![trigger enc_policy(g)]
            wf_policy(g) && enc_policy(g).is_prefix_of(inp@.skip(pos as int)) implies {
            &&& enc_str(g.id).is_prefix_of(inp@.skip(pos as int))
            &&& enc_hooks(g.hooks).is_prefix_of(inp@.skip(pos + enc_str(g.id).len()))
            &&& enc_opt_str(g.timezone).is_prefix_of(
                inp@.skip(pos + enc_str(g.id).len() + enc_hooks(g.hooks).len()),
            )
            &&& enc_u64(g.clock_skew_secs).is_prefix_of(
                inp@.skip(
                    pos + enc_str(g.id).len() + enc_hooks(g.hooks).len() + enc_opt_str(
                        g.timezone,
                    ).len(),
                ),
            )
            &&& enc_opt_u32(g.max_attempts).is_prefix_of(
                inp@.skip(
                    pos + enc_str(g.id).len() + enc_hooks(g.hooks).len() + enc_opt_str(
                        g.timezone,
                    ).len() + enc_u64(g.clock_skew_secs).len(),
                ),
            )
            &&& enc_bool(g.single_use).is_prefix_of(
                inp@.skip(
                    pos + enc_str(g.id).len() + enc_hooks(g.hooks).len() + enc_opt_str(
                        g.timezone,
                    ).len() + enc_u64(g.clock_skew_secs).len() + enc_opt_u32(
                        g.max_attempts,
                    ).len(),
                ),
            )
            &&& enc_u32(g.version).is_prefix_of(
                inp@.skip(
                    pos + enc_str(g.id).len() + enc_hooks(g.hooks).len() + enc_opt_str(
                        g.timezone,
                    ).len() + enc_u64(g.clock_skew_secs).len() + enc_opt_u32(g.max_attempts).len()
                        + enc_bool(g.single_use).len(),
                ),
            )
        } by {
            lemma_policy_chain(g, inp@, pos as int);
        }
    }
    let (id, p1) = match dec_str(inp, pos) {
        Some(x) => x,
        None => {
            return None;
        },
    };
    let (hooks, p2) = match dec_hooks(inp, p1) {
        Some(x) => x,
        None => {
            return None;
        },
    };
    let (timezone, p3) = match dec_opt_str(inp, p2) {
        Some(x) => x,
        None => {
            return None;
        },
    };
    let (clock_skew_secs, p4) = match dec_u64(inp, p3) {
        Some(x) => x,
        None => {
            return None;
        },
    };
    let (max_attempts, p5) = match dec_opt_u32(inp, p4) {
        Some(x) => x,
        None => {
            return None;
        },
    };
    let (single_use, p6) = match dec_bool(inp, p5) {
        Some(x) => x,
        None => {
            return None;
        },
    };
    let (version, end) = match dec_u32(inp, p6) {
        Some(x) => x,
        None => {
            return None;
        },
    };
    let pol = Policy { id, hooks, timezone, clock_skew_secs, max_attempts, single_use, version };
    proof {
        lemma_subrange_split(inp@, p5 as int, p6 as int, end as int);
        lemma_subrange_split(inp@, p4 as int, p5 as int, end as int);
        lemma_subrange_split(inp@, p3 as int, p4 as int, end as int);
        lemma_subrange_split(inp@, p2 as int, p3 as int, end as int);
        lemma_subrange_split(inp@, p1 as int, p2 as int, end as int);
        lemma_subrange_split(inp@, pos as int, p1 as int, end as int);
        assert(inp@.subrange(pos as int, end as int) == enc_policy(pol@));
        assert forall|g: PolicyV| #![trigger enc_policy(g)]
            wf_policy(g) && enc_policy(g).is_prefix_of(inp@.skip(pos as int)) implies pol@ == g
            && end == pos + enc_policy(g).len() by {
            assert(pol@ =~= g);
        }
    }
    Some((pol, end))
}


#[verifier::loop_isolation(false)]
#[verifier::rlimit(80)]
pub fn dec_creds(inp: &[u8], pos: usize) -> (r: Option<(Vec<Credential>, usize)>)
    requires
        pos <= inp@.len(),
    ensures
        r matches Some((v, end)) ==> {
            &&& pos < end <= inp@.len()
            &&& inp@.subrange(pos as int, end as int) == enc_creds(creds_view(v@))
            &&& wf_creds(creds_view(v@))
        },
        forall|g: Seq<CredentialV>| #![trigger enc_creds(g)]
            wf_creds(g) && enc_creds(g).is_prefix_of(inp@.skip(pos as int)) ==> (r matches Some(
                (v, end),
            ) && creds_view(v@) == g && end == pos + enc_creds(g).len()),
{
    proof {
        lemma_auto_spec_u64_to_from_le_bytes();
        assert forall|g: Seq<CredentialV>| #![trigger enc_creds(g)]
            wf_creds(g) && enc_creds(g).is_prefix_of(inp@.skip(pos as int)) implies enc_u64(
            g.len() as u64,
        ).is_prefix_of(inp@.skip(pos as int)) && enc_list(g, cred_f()).is_prefix_of(
            inp@.skip(pos + 8),
        ) by {
            lemma_prefix_concat(
                enc_u64(g.len() as u64),
                enc_list(g, cred_f()),
                inp@.skip(pos as int),
            );
            lemma_skip_skip(inp@, pos as int, 8);
        }
    }
    match dec_u64(inp, pos) {
        None => None,
        Some((n, start)) => {
            let mut v: Vec<Credential> = Vec::new();
            let mut cur: usize = start;
            let mut i: u64 = 0;
            proof {
                assert forall|g: Seq<CredentialV>| #![trigger enc_creds(g)]
                    wf_creds(g) && enc_creds(g).is_prefix_of(inp@.skip(pos as int)) implies g.len()
                    == n && creds_view(v@) == g.take(0) && enc_list(g.skip(0), cred_f()).is_prefix_of(
                    inp@.skip(start as int),
                ) by {
                    assert(g.len() as u64 == n);
                    assert(creds_view(v@) =~= g.take(0));
                    assert(g.skip(0) =~= g);
                }
                assert(inp@.subrange(start as int, start as int) =~= enc_list(creds_view(v@), cred_f()));
            }
            while i < n
                invariant
                    i <= n,
                    start <= cur <= inp@.len(),
                    v@.len() == i,
                    i <= cur - start,
                    forall|j: int| 0 <= j < v@.len() ==> wf_cred(#[trigger] creds_view(v@)[j]),
                    inp@.subrange(start as int, cur as int) == enc_list(creds_view(v@), cred_f()),
                    forall|g: Seq<CredentialV>| #![trigger enc_creds(g)]
                        wf_creds(g) && enc_creds(g).is_prefix_of(inp@.skip(pos as int)) ==> (g.len()
                            == n && creds_view(v@) == g.take(i as int) && enc_list(
                            g.skip(i as int),
                            cred_f(),
                        ).is_prefix_of(inp@.skip(cur as int))),
                decreases n - i,
            {
                match dec_credential(inp, cur) {
                    None => {
                        proof {
                            assert forall|g: Seq<CredentialV>| #![trigger enc_creds(g)]
                                !(wf_creds(g) && enc_creds(g).is_prefix_of(
                                    inp@.skip(pos as int),
                                )) by {
                                if wf_creds(g) && enc_creds(g).is_prefix_of(inp@.skip(pos as int)) {
                                    lemma_enc_list_skip_unfold(g, cred_f(), i as int);
                                    assert(cred_f()(g[i as int]) == enc_credential(g[i as int]));
                                    lemma_prefix_concat(
                                        enc_credential(g[i as int]),
                                        enc_list(g.skip(i + 1), cred_f()),
                                        inp@.skip(cur as int),
                                    );
                                    assert(wf_cred(g[i as int]));
                                }
                            }
                        }
                        return None;
                    },
                    Some((s, c2)) => {
                        proof {
                            assert forall|g: Seq<CredentialV>| #![trigger enc_creds(g)]
                                wf_creds(g) && enc_creds(g).is_prefix_of(inp@.skip(pos as int))
                                implies creds_view(v@.push(s)) == g.take(i + 1) && enc_list(
                                g.skip(i + 1),
                                cred_f(),
                            ).is_prefix_of(inp@.skip(c2 as int)) by {
                                lemma_enc_list_skip_unfold(g, cred_f(), i as int);
                                assert(cred_f()(g[i as int]) == enc_credential(g[i as int]));
                                lemma_prefix_concat(
                                    enc_credential(g[i as int]),
                                    enc_list(g.skip(i + 1), cred_f()),
                                    inp@.skip(cur as int),
                                );
                                assert(wf_cred(g[i as int]));
                                lemma_skip_skip(
                                    inp@,
                                    cur as int,
                                    enc_credential(g[i as int]).len() as int,
                                );
                                assert(creds_view(v@.push(s)) =~= g.take(i + 1));
                            }
                            lemma_enc_list_snoc(creds_view(v@.push(s)), cred_f(), i as int);
                            assert(creds_view(v@.push(s)).take(i as int) =~= creds_view(v@));
                            assert(creds_view(v@.push(s)).take(i + 1) =~= creds_view(v@.push(s)));
                            assert(cred_f()(creds_view(v@.push(s))[i as int]) == enc_credential(s@));
                            lemma_subrange_split(inp@, start as int, cur as int, c2 as int);
                        }
                        v.push(s);
                        cur = c2;
                        i = i + 1;
                    },
                }
            }
            proof {
                assert(v@.len() as u64 == n);
                assert(creds_view(v@).len() == v@.len());
                assert(enc_creds(creds_view(v@)) == enc_u64(n) + enc_list(creds_view(v@), cred_f()));
                lemma_subrange_split(inp@, pos as int, start as int, cur as int);
                assert(inp@.subrange(pos as int, cur as int) =~= enc_creds(creds_view(v@)));
                assert(wf_creds(creds_view(v@)));
                assert forall|g: Seq<CredentialV>| #![trigger enc_creds(g)]
                    wf_creds(g) && enc_creds(g).is_prefix_of(inp@.skip(pos as int)) implies creds_view(
                    v@,
                ) == g && cur == pos + enc_creds(g).len() by {
                    assert(g.take(i as int) =~= g);
                    assert(enc_list(creds_view(v@), cred_f()).len() == cur - start);
                }
            }
            Some((v, cur))
        },
    }
}

#[verifier::loop_isolation(false)]
#[verifier::rlimit(80)]
pub fn dec_pols(inp: &[u8], pos: usize) -> (r: Option<(Vec<Policy>, usize)>)
    requires
        pos <= inp@.len(),
    ensures
        r matches Some((v, end)) ==> {
            &&& pos < end <= inp@.len()
            &&& inp@.subrange(pos as int, end as int) == enc_pols(pols_view(v@))
            &&& wf_pols(pols_view(v@))
        },
        forall|g: Seq<PolicyV>| #![trigger enc_pols(g)]
            wf_pols(g) && enc_pols(g).is_prefix_of(inp@.skip(pos as int)) ==> (r matches Some(
                (v, end),
            ) && pols_view(v@) == g && end == pos + enc_pols(g).len()),
{
    proof {
        lemma_auto_spec_u64_to_from_le_bytes();
        assert forall|g: Seq<PolicyV>| #![trigger enc_pols(g)]
            wf_pols(g) && enc_pols(g).is_prefix_of(inp@.skip(pos as int)) implies enc_u64(
            g.len() as u64,
        ).is_prefix_of(inp@.skip(pos as int)) && enc_list(g, policy_f()).is_prefix_of(
            inp@.skip(pos + 8),
        ) by {
            lemma_prefix_concat(
                enc_u64(g.len() as u64),
                enc_list(g, policy_f()),
                inp@.skip(pos as int),
            );
            lemma_skip_skip(inp@, pos as int, 8);
        }
    }
    match dec_u64(inp, pos) {
        None => None,
        Some((n, start)) => {
            let mut v: Vec<Policy> = Vec::new();
            let mut cur: usize = start;
            let mut i: u64 = 0;
            proof {
                assert forall|g: Seq<PolicyV>| #![trigger enc_pols(g)]
                    wf_pols(g) && enc_pols(g).is_prefix_of(inp@.skip(pos as int)) implies g.len()
                    == n && pols_view(v@) == g.take(0) && enc_list(g.skip(0), policy_f()).is_prefix_of(
                    inp@.skip(start as int),
                ) by {
                    assert(g.len() as u64 == n);
                    assert(pols_view(v@) =~= g.take(0));
                    assert(g.skip(0) =~= g);
                }
                assert(inp@.subrange(start as int, start as int) =~= enc_list(pols_view(v@), policy_f()));
            }
            while i < n
                invariant
                    i <= n,
                    start <= cur <= inp@.len(),
                    v@.len() == i,
                    i <= cur - start,
                    forall|j: int| 0 <= j < v@.len() ==> wf_policy(#[trigger] pols_view(v@)[j]),
                    inp@.subrange(start as int, cur as int) == enc_list(pols_view(v@), policy_f()),
                    forall|g: Seq<PolicyV>| #![trigger enc_pols(g)]
                        wf_pols(g) && enc_pols(g).is_prefix_of(inp@.skip(pos as int)) ==> (g.len()
                            == n && pols_view(v@) == g.take(i as int) && enc_list(
                            g.skip(i as int),
                            policy_f(),
                        ).is_prefix_of(inp@.skip(cur as int))),
                decreases n - i,
            {
                match dec_policy(inp, cur) {
                    None => {
                        proof {
                            assert forall|g: Seq<PolicyV>| #![trigger enc_pols(g)]
                                !(wf_pols(g) && enc_pols(g).is_prefix_of(
                                    inp@.skip(pos as int),
                                )) by {
                                if wf_pols(g) && enc_pols(g).is_prefix_of(inp@.skip(pos as int)) {
                                    lemma_enc_list_skip_unfold(g, policy_f(), i as int);
                                    assert(policy_f()(g[i as int]) == enc_policy(g[i as int]));
                                    lemma_prefix_concat(
                                        enc_policy(g[i as int]),
                                        enc_list(g.skip(i + 1), policy_f()),
                                        inp@.skip(cur as int),
                                    );
                                    assert(wf_policy(g[i as int]));
                                }
                            }
                        }
                        return None;
                    },
                    Some((s, c2)) => {
                        proof {
                            assert forall|g: Seq<PolicyV>| #![trigger enc_pols(g)]
                                wf_pols(g) && enc_pols(g).is_prefix_of(inp@.skip(pos as int))
                                implies pols_view(v@.push(s)) == g.take(i + 1) && enc_list(
                                g.skip(i + 1),
                                policy_f(),
                            ).is_prefix_of(inp@.skip(c2 as int)) by {
                                lemma_enc_list_skip_unfold(g, policy_f(), i as int);
                                assert(policy_f()(g[i as int]) == enc_policy(g[i as int]));
                                lemma_prefix_concat(
                                    enc_policy(g[i as int]),
                                    enc_list(g.skip(i + 1), policy_f()),
                                    inp@.skip(cur as int),
                                );
                                assert(wf_policy(g[i as int]));
                                lemma_skip_skip(
                                    inp@,
                                    cur as int,
                                    enc_policy(g[i as int]).len() as int,
                                );
                                assert(pols_view(v@.push(s)) =~= g.take(i + 1));
                            }
                            lemma_enc_list_snoc(pols_view(v@.push(s)), policy_f(), i as int);
                            assert(pols_view(v@.push(s)).take(i as int) =~= pols_view(v@));
                            assert(pols_view(v@.push(s)).take(i + 1) =~= pols_view(v@.push(s)));
                            assert(policy_f()(pols_view(v@.push(s))[i as int]) == enc_policy(s@));
                            lemma_subrange_split(inp@, start as int, cur as int, c2 as int);
                        }
                        v.push(s);
                        cur = c2;
                        i = i + 1;
                    },
                }
            }
            proof {
                assert(v@.len() as u64 == n);
                assert(pols_view(v@).len() == v@.len());
                assert(enc_pols(pols_view(v@)) == enc_u64(n) + enc_list(pols_view(v@), policy_f()));
                lemma_subrange_split(inp@, pos as int, start as int, cur as int);
                assert(inp@.subrange(pos as int, cur as int) =~= enc_pols(pols_view(v@)));
                assert(wf_pols(pols_view(v@)));
                assert forall|g: Seq<PolicyV>| #![trigger enc_pols(g)]
                    wf_pols(g) && enc_pols(g).is_prefix_of(inp@.skip(pos as int)) implies pols_view(
                    v@,
                ) == g && cur == pos + enc_pols(g).len() by {
                    assert(g.take(i as int) =~= g);
                    assert(enc_list(pols_view(v@), policy_f()).len() == cur - start);
                }
            }
            Some((v, cur))
        },
    }
}

/// Decodes the container's plaintext header: format version, then salt.
pub fn dec_header(inp: &[u8], pos: usize) -> (r: Option<((u32, Vec<u8>), usize)>)
    requires
        pos <= inp@.len(),
    ensures
        r matches Some((v, end)) ==> {
            &&& pos < end <= inp@.len()
            &&& inp@.subrange(pos as int, end as int) == enc_header(v.0, v.1@)
            &&& wf_bytes(v.1@)
        },
        forall|ver: u32, salt: Seq<u8>| #![trigger enc_header(ver, salt)]
            wf_bytes(salt) && enc_header(ver, salt).is_prefix_of(inp@.skip(pos as int)) ==> (
            r matches Some((v, end)) && v.0 == ver && v.1@ == salt && end == pos + enc_header(
                ver,
                salt,
            ).len()),
{
    proof {
        lemma_auto_spec_u32_to_from_le_bytes();
        assert forall|ver: u32, salt: Seq<u8>| #![trigger enc_header(ver, salt)]
            wf_bytes(salt) && enc_header(ver, salt).is_prefix_of(inp@.skip(pos as int)) implies
            enc_u32(ver).is_prefix_of(inp@.skip(pos as int)) && enc_bytes(salt).is_prefix_of(
            inp@.skip(pos + 4),
        ) by {
            lemma_prefix_concat(enc_u32(ver), enc_bytes(salt), inp@.skip(pos as int));
            lemma_skip_skip(inp@, pos as int, 4);
        }
    }
    let (version, p1) = match dec_u32(inp, pos) {
        Some(x) => x,
        None => {
            return None;
        },
    };
    let (salt, end) = match dec_bytes(inp, p1) {
        Some(x) => x,
        None => {
            return None;
        },
    };
    proof {
        lemma_subrange_split(inp@, pos as int, p1 as int, end as int);
    }
    Some(((version, salt), end))
}

/// The header encoding is injective: equal header bytes mean the same
/// version and the same salt.
pub proof fn lemma_enc_header_injective(v1: u32, s1: Seq<u8>, v2: u32, s2: Seq<u8>)
    requires
        enc_header(v1, s1) == enc_header(v2, s2),
    ensures
        v1 == v2,
        s1 == s2,
{
    lemma_auto_spec_u32_to_from_le_bytes();
    lemma_auto_spec_u64_to_from_le_bytes();
    let h1 = enc_header(v1, s1);
    let h2 = enc_header(v2, s2);
    assert(h1.take(4) =~= enc_u32(v1));
    assert(h2.take(4) =~= enc_u32(v2));
    assert(spec_u32_from_le_bytes(enc_u32(v1)) == v1);
    assert(spec_u32_from_le_bytes(enc_u32(v2)) == v2);
    assert(h1.skip(4) =~= enc_bytes(s1));
    assert(h2.skip(4) =~= enc_bytes(s2));
    assert(enc_bytes(s1).len() == enc_bytes(s2).len());
    assert(s1.len() == s2.len());
    assert(s1 =~= enc_bytes(s1).skip(8));
    assert(s2 =~= enc_bytes(s2).skip(8));
}

} // verus!
