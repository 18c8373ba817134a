//! Whitespace trimming, specified exactly over character sequences.
//!
//! The derivation core strips leading and trailing whitespace from the
//! running value before every digest application.  `trim_spec` is the
//! mathematical statement of that step; `trim_str` is the verified
//! executable form.

use vstd::prelude::*;
use vstd::string::StrSliceExecFns;

verus! {

/// The Unicode `White_Space` characters: the set a trim removes from the
/// ends of a string.
pub open spec fn is_ws_char(c: char) -> bool {
    let u = c as u32;
    u == 0x09 || u == 0x0A || u == 0x0B || u == 0x0C || u == 0x0D || u == 0x20 || u == 0x85
        || u == 0xA0 || u == 0x1680 || (0x2000 <= u && u <= 0x200A) || u == 0x2028 || u == 0x2029
        || u == 0x202F || u == 0x205F || u == 0x3000
}

/// Executable test for `is_ws_char`.
pub fn ws_char(c: char) -> (b: bool)
    ensures
        b == is_ws_char(c),
{
    let u: u32 = c as u32;
    u == 0x09 || u == 0x0A || u == 0x0B || u == 0x0C || u == 0x0D || u == 0x20 || u == 0x85
        || u == 0xA0 || u == 0x1680 || (0x2000 <= u && u <= 0x200A) || u == 0x2028 || u == 0x2029
        || u == 0x202F || u == 0x205F || u == 0x3000
}

/// `s` without its leading whitespace.
pub open spec fn trim_start_spec(s: Seq<char>) -> Seq<char>
    decreases s.len(),
{
    if s.len() == 0 {
        s
    } else if is_ws_char(s[0]) {
        trim_start_spec(s.drop_first())
    } else {
        s
    }
}

/// `s` without its trailing whitespace.
pub open spec fn trim_end_spec(s: Seq<char>) -> Seq<char>
    decreases s.len(),
{
    if s.len() == 0 {
        s
    } else if is_ws_char(s.last()) {
        trim_end_spec(s.drop_last())
    } else {
        s
    }
}

/// `s` without leading and trailing whitespace.
pub open spec fn trim_spec(s: Seq<char>) -> Seq<char> {
    trim_end_spec(trim_start_spec(s))
}

/// Scanning past exactly the leading whitespace yields `trim_start_spec`.
proof fn lemma_trim_start_index(s: Seq<char>, i: int)
    requires
        0 <= i <= s.len(),
        forall|k: int| 0 <= k < i ==> is_ws_char(s[k]),
        i == s.len() || !is_ws_char(s[i]),
    ensures
        trim_start_spec(s) == s.subrange(i, s.len() as int),
    decreases i,
{
    if i == 0 {
        assert(s.subrange(0, s.len() as int) =~= s);
    } else {
        let t = s.drop_first();
        assert(forall|k: int| 0 <= k < i - 1 ==> is_ws_char(#[trigger] t[k]));
        lemma_trim_start_index(t, i - 1);
        assert(t.subrange(i - 1, t.len() as int) =~= s.subrange(i, s.len() as int));
    }
}

/// Scanning back past exactly the trailing whitespace yields `trim_end_spec`.
proof fn lemma_trim_end_index(s: Seq<char>, j: int)
    requires
        0 <= j <= s.len(),
        forall|k: int| j <= k < s.len() ==> is_ws_char(s[k]),
        j == 0 || !is_ws_char(s[j - 1]),
    ensures
        trim_end_spec(s) == s.subrange(0, j),
    decreases s.len(),
{
    if j == s.len() {
        assert(s.subrange(0, j) =~= s);
    } else {
        let t = s.drop_last();
        assert(forall|k: int| j <= k < t.len() ==> is_ws_char(#[trigger] t[k]));
        lemma_trim_end_index(t, j);
        assert(t.subrange(0, j) =~= s.subrange(0, j));
    }
}

/// Trimming a sequence that neither starts nor ends with whitespace
/// changes nothing.
pub proof fn lemma_trim_noop(s: Seq<char>)
    requires
        s.len() == 0 || (!is_ws_char(s[0]) && !is_ws_char(s.last())),
    ensures
        trim_spec(s) == s,
{
}

/// `trim_start_spec` leaves no leading whitespace behind.
proof fn lemma_trim_start_shape(s: Seq<char>)
    ensures
        trim_start_spec(s).len() == 0 || !is_ws_char(trim_start_spec(s)[0]),
    decreases s.len(),
{
    if s.len() > 0 && is_ws_char(s[0]) {
        lemma_trim_start_shape(s.drop_first());
    }
}

/// `trim_end_spec` leaves no trailing whitespace behind.
proof fn lemma_trim_end_shape(s: Seq<char>)
    ensures
        trim_end_spec(s).len() == 0 || !is_ws_char(trim_end_spec(s).last()),
    decreases s.len(),
{
    if s.len() > 0 && is_ws_char(s.last()) {
        lemma_trim_end_shape(s.drop_last());
    }
}

/// `trim_end_spec` keeps the first character of a nonempty result.
proof fn lemma_trim_end_keeps_first(s: Seq<char>)
    ensures
        trim_end_spec(s).len() > 0 ==> trim_end_spec(s)[0] == s[0],
    decreases s.len(),
{
    if s.len() > 0 && is_ws_char(s.last()) {
        lemma_trim_end_keeps_first(s.drop_last());
    }
}

/// Trimming is idempotent: a trimmed value trims to itself.
pub proof fn lemma_trim_idempotent(s: Seq<char>)
    ensures
        trim_spec(trim_spec(s)) == trim_spec(s),
{
    let u = trim_start_spec(s);
    let t = trim_end_spec(u);
    lemma_trim_start_shape(s);
    lemma_trim_end_shape(u);
    lemma_trim_end_keeps_first(u);
    lemma_trim_noop(t);
}

/// The string without leading and trailing whitespace.
pub fn trim_str(s: &str) -> (r: &str)
    ensures
        r@ == trim_spec(s@),
{
    let n: usize = s.unicode_len();
    let mut i: usize = 0;
    while i < n && ws_char(s.get_char(i))
        invariant
            n == s@.len(),
            0 <= i <= n,
            forall|k: int| 0 <= k < i ==> is_ws_char(s@[k]),
        decreases n - i,
    {
        i = i + 1;
    }
    let mut j: usize = n;
    while j > i && ws_char(s.get_char(j - 1))
        invariant
            n == s@.len(),
            i <= j <= n,
            forall|k: int| j <= k < n ==> is_ws_char(s@[k]),
        decreases j,
    {
        j = j - 1;
    }
    let r = s.substring_char(i, j);
    proof {
        lemma_trim_start_index(s@, i as int);
        let u = s@.subrange(i as int, s@.len() as int);
        assert(forall|k: int| j - i <= k < u.len() ==> is_ws_char(#[trigger] u[k]));
        lemma_trim_end_index(u, j - i);
        assert(u.subrange(0, j - i) =~= s@.subrange(i as int, j as int));
    }
    r
}

} // verus!
