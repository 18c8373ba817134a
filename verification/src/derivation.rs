//! The derivation core: one hash step, and its iteration to a depth.
//!
//! A step trims the running value, digests it with SHA-256, and renders
//! the digest as 64 lowercase hex characters; the derived master password
//! is the value after `depth` such steps.  The result is a function of the
//! seed phrase and the depth alone: no locale, time, randomness, or
//! environment enters the computation.

use vstd::prelude::*;
use crate::depth::depth_of;
use crate::depth::validate_depth;
use crate::digest::sha256_chars;
use crate::digest::sha256_of_str;
use crate::hex::hex_of;
use crate::hex::lemma_trim_hex_noop;
use crate::hex::to_hex;
use crate::trim::lemma_trim_idempotent;
use crate::trim::trim_spec;
use crate::trim::trim_str;

verus! {

/// One derivation step: trim, digest, render as lowercase hex.
pub open spec fn step_spec(s: Seq<char>) -> Seq<char> {
    hex_of(sha256_chars(trim_spec(s)))
}

/// The running value after `d` steps starting from the seed `s`.
pub open spec fn derive_spec(s: Seq<char>, d: nat) -> Seq<char>
    decreases d,
{
    if d == 0 {
        s
    } else {
        step_spec(derive_spec(s, (d - 1) as nat))
    }
}

/// Why a derivation request was rejected.
#[derive(Clone, Copy, Debug, PartialEq, Eq, Structural)]
pub enum DerivationError {
    /// The depth token was absent, unparseable, or not positive.
    InvalidDepth,
}

/// One derivation step on a string: the trimmed input is digested and the
/// digest rendered as 64 lowercase hex characters.
pub fn crunch(mstr: &str) -> (r: String)
    ensures
        r@ == step_spec(mstr@),
        r@.len() == 64,
{
    let t = trim_str(mstr);
    let d = sha256_of_str(t);
    to_hex(&d)
}

/// Derives the master password: `depth` hash steps applied to the seed
/// phrase.  A depth below 1 is rejected, never silently defaulted, and no
/// partial result escapes.
pub fn derive_password(seed: &str, depth: i32) -> (r: Result<String, DerivationError>)
    ensures
        depth >= 1 ==> r is Ok && r->Ok_0@ == derive_spec(seed@, depth as nat),
        depth < 1 <==> r == Result::<String, DerivationError>::Err(DerivationError::InvalidDepth),
{
    if depth < 1 {
        return Err(DerivationError::InvalidDepth);
    }
    let mut cur: String = seed.to_owned();
    let mut i: i32 = 0;
    while i < depth
        invariant
            0 <= i <= depth,
            cur@ == derive_spec(seed@, i as nat),
        decreases depth - i,
    {
        cur = crunch(cur.as_str());
        i = i + 1;
    }
    Ok(cur)
}

/// The whole core in one call: validates the depth token, then derives.
pub fn derive_from_token(seed: &str, depth_token: &str) -> (r: Result<
    String,
    DerivationError,
>)
    ensures
        depth_of(depth_token@) >= 1 ==> r is Ok && r->Ok_0@ == derive_spec(
            seed@,
            depth_of(depth_token@) as nat,
        ),
        depth_of(depth_token@) < 1 <==> r == Result::<String, DerivationError>::Err(
            DerivationError::InvalidDepth,
        ),
{
    let depth = validate_depth(depth_token);
    derive_password(seed, depth)
}

/// Determinism: equal seed phrases at equal depths give equal results.
pub proof fn lemma_derivation_deterministic(s1: Seq<char>, d1: nat, s2: Seq<char>, d2: nat)
    requires
        s1 == s2,
        d1 == d2,
    ensures
        derive_spec(s1, d1) == derive_spec(s2, d2),
{
}

/// Iteration, last step peeled: the depth `d` value is one step applied to
/// the depth `d - 1` value.
pub proof fn lemma_derivation_unfolds(s: Seq<char>, d: nat)
    requires
        d >= 1,
    ensures
        derive_spec(s, d) == step_spec(derive_spec(s, (d - 1) as nat)),
{
}

/// Iteration, first step peeled: the depth `d` value is the depth `d - 1`
/// value of the once-stepped seed.  With `lemma_derivation_unfolds` this
/// says a depth `d` derivation is the single-step function applied `d`
/// times in sequence.
pub proof fn lemma_derivation_peels_front(s: Seq<char>, d: nat)
    requires
        d >= 1,
    ensures
        derive_spec(s, d) == derive_spec(step_spec(s), (d - 1) as nat),
    decreases d,
{
    if d == 1 {
        assert(derive_spec(s, 0) == s);
        assert(derive_spec(step_spec(s), 0) == step_spec(s));
    } else {
        lemma_derivation_peels_front(s, (d - 1) as nat);
        assert(derive_spec(step_spec(s), (d - 1) as nat) == step_spec(
            derive_spec(step_spec(s), (d - 2) as nat),
        ));
    }
}

/// From the second step on, trimming is invisible: every derived value is
/// already free of surrounding whitespace.
pub proof fn lemma_derived_value_trimmed(s: Seq<char>, d: nat)
    requires
        d >= 1,
    ensures
        trim_spec(derive_spec(s, d)) == derive_spec(s, d),
{
    lemma_trim_hex_noop(sha256_chars(trim_spec(derive_spec(s, (d - 1) as nat))));
}

/// Trimming the seed phrase beforehand never changes the result: the first
/// step trims anyway.
pub proof fn lemma_trimmed_seed_equivalent(s: Seq<char>, d: nat)
    requires
        d >= 1,
    ensures
        derive_spec(s, d) == derive_spec(trim_spec(s), d),
    decreases d,
{
    if d == 1 {
        lemma_trim_idempotent(s);
        assert(derive_spec(s, 1) == step_spec(derive_spec(s, 0)));
        assert(derive_spec(trim_spec(s), 1) == step_spec(derive_spec(trim_spec(s), 0)));
        assert(step_spec(trim_spec(s)) == step_spec(s));
    } else {
        lemma_trimmed_seed_equivalent(s, (d - 1) as nat);
        assert(derive_spec(trim_spec(s), d) == step_spec(derive_spec(trim_spec(s), (d - 1) as nat)));
    }
}

} // verus!
