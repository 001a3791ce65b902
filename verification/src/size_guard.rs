//! Write-time body-size signal.
//!
//! The UTF-8 byte length of a unit body is checked at `add` / `edit`:
//! above the warn threshold (default 2048) the write goes ahead with a
//! warning; above the hard threshold (default 8192) it is refused unless
//! `--force` is given. The tag `flow` or the `--flow` flag bypasses all
//! checks. Thresholds come from `SIMARIS_WARN_BYTES` / `SIMARIS_HARD_BYTES`
//! when those parse as unsigned integers; reading the environment is the
//! binary's job, interpreting the values is done here.
use vstd::prelude::*;
use crate::text::{chars_of, str_eq};

verus! {

broadcast use vstd::string::group_string_axioms;

/// Default warn threshold in bytes.
pub const DEFAULT_WARN_BYTES: usize = 2048;
/// Default hard threshold in bytes.
pub const DEFAULT_HARD_BYTES: usize = 8192;

// ---------------------------------------------------------------------------
// Threshold values
// ---------------------------------------------------------------------------

/// Value of a run of decimal digits.
pub open spec fn digits_value(s: Seq<char>) -> int
    decreases s.len(),
{
    if s.len() == 0 {
        0
    } else {
        digits_value(s.drop_last()) * 10 + (s.last() as int - '0' as int)
    }
}

/// The string without one leading `+`.
pub open spec fn digits_part(s: Seq<char>) -> Seq<char> {
    if s.len() > 0 && s[0] == '+' {
        s.skip(1)
    } else {
        s
    }
}

/// Every character is an ASCII digit.
pub open spec fn all_decimal(d: Seq<char>) -> bool {
    forall|k: int| 0 <= k < d.len() ==> '0' <= #[trigger] d[k] && d[k] <= '9'
}

/// What `str::parse::<usize>` accepts: an optional `+`, then one or more
/// ASCII digits, with a value that fits in `usize`.
pub open spec fn parse_usize_spec(s: Seq<char>) -> Option<int> {
    let d = digits_part(s);
    if d.len() == 0 {
        None
    } else if !all_decimal(d) {
        None
    } else if digits_value(d) > usize::MAX {
        None
    } else {
        Some(digits_value(d))
    }
}

proof fn lemma_digits_value_nonneg(s: Seq<char>)
    requires
        forall|k: int| 0 <= k < s.len() ==> '0' <= #[trigger] s[k] && s[k] <= '9',
    ensures
        digits_value(s) >= 0,
    decreases s.len(),
{
    if s.len() > 0 {
        lemma_digits_value_nonneg(s.drop_last());
    }
}

proof fn lemma_digits_prefix_le(s: Seq<char>, m: int)
    requires
        forall|k: int| 0 <= k < s.len() ==> '0' <= #[trigger] s[k] && s[k] <= '9',
        0 <= m <= s.len(),
    ensures
        digits_value(s.take(m)) <= digits_value(s),
    decreases s.len(),
{
    if m == s.len() {
        assert(s.take(m) =~= s);
    } else {
        let t = s.drop_last();
        assert forall|k: int| 0 <= k < t.len() implies '0' <= #[trigger] t[k] && t[k] <= '9' by {
            assert(t[k] == s[k]);
        }
        lemma_digits_prefix_le(t, m);
        assert(t.take(m) =~= s.take(m));
        lemma_digits_value_nonneg(t);
    }
}

/// `str::parse::<usize>` on a string.
pub fn parse_usize(s: &str) -> (r: Option<usize>)
    ensures
        r matches Some(v) ==> parse_usize_spec(s@) == Some(v as int),
        r is None ==> parse_usize_spec(s@) is None,
{
    let c = chars_of(s);
    let start: usize = if c.len() > 0 && c[0] == '+' { 1 } else { 0 };
    let ghost d = if c@.len() > 0 && c@[0] == '+' { c@.skip(1) } else { c@ };
    if start >= c.len() {
        return None;
    }
    assert(c@.skip(0) =~= c@);
    let mut acc: usize = 0;
    let mut k = start;
    while k < c.len()
        invariant
            start <= k <= c@.len(),
            start == 0 || start == 1,
            c@ == s@,
            d == c@.skip(start as int),
            d == digits_part(s@),
            d.len() > 0,
            forall|j: int| 0 <= j < k - start ==> '0' <= #[trigger] d[j] && d[j] <= '9',
            acc == digits_value(d.take(k - start)),
        decreases c@.len() - k,
    {
        let ch = c[k];
        assert(d[k - start] == ch);
        if !('0' <= ch && ch <= '9') {
            assert(!('0' <= d[k - start] && d[k - start] <= '9'));
            assert(!all_decimal(d));
            return None;
        }
        let digit: usize = (ch as u32 - '0' as u32) as usize;
        assert(d.take(k + 1 - start).drop_last() =~= d.take(k - start));
        assert(digits_value(d.take(k + 1 - start)) == acc * 10 + digit);
        if acc > (usize::MAX - digit) / 10 {
            proof {
                assert(acc * 10 + digit > usize::MAX) by (nonlinear_arith)
                    requires
                        acc > (usize::MAX - digit) / 10,
                        digit <= 9,
                ;
                if all_decimal(d) {
                    lemma_digits_prefix_le(d, k + 1 - start);
                }
            }
            return None;
        }
        assert(acc * 10 + digit <= usize::MAX) by (nonlinear_arith)
            requires
                acc <= (usize::MAX - digit) / 10,
                digit <= 9,
        ;
        acc = acc * 10 + digit;
        k = k + 1;
    }
    assert(d.take(k - start) =~= d);
    Some(acc)
}

/// The threshold an environment value selects: its parsed value, or the
/// default when absent or unparsable.
pub open spec fn threshold_spec(value: Option<Seq<char>>, default: usize) -> int {
    match value {
        Some(v) => match parse_usize_spec(v) {
            Some(n) => n,
            None => default as int,
        },
        None => default as int,
    }
}

/// Threshold from an optional environment value, falling back to `default`.
pub fn threshold_from(value: Option<&str>, default: usize) -> (r: usize)
    ensures
        r == threshold_spec(
            match value {
                Some(v) => Some(v@),
                None => None,
            },
            default,
        ),
{
    match value {
        Some(v) => match parse_usize(v) {
            Some(n) => n,
            None => default,
        },
        None => default,
    }
}

// ---------------------------------------------------------------------------
// Verdict
// ---------------------------------------------------------------------------

/// Outcome of the size check.
#[derive(Debug, Clone, Copy, PartialEq, Eq)]
pub enum SizeVerdict {
    /// Within the warn threshold, or bypassed by `flow`.
    Pass,
    /// Over the warn threshold: write, with a warning.
    Warn { bytes: usize, warn: usize },
    /// Over the hard threshold but `--force` given: write, with a warning.
    Forced { bytes: usize, hard: usize },
    /// Over the hard threshold without `--force`: refuse the write.
    Reject { bytes: usize, hard: usize },
}

/// The verdict for a body of `bytes` bytes.
pub open spec fn size_spec(bytes: usize, bypass: bool, force: bool, warn: usize, hard: usize) -> SizeVerdict {
    if bypass {
        SizeVerdict::Pass
    } else if bytes > hard {
        if force {
            SizeVerdict::Forced { bytes, hard }
        } else {
            SizeVerdict::Reject { bytes, hard }
        }
    } else if bytes > warn {
        SizeVerdict::Warn { bytes, warn }
    } else {
        SizeVerdict::Pass
    }
}

/// Whether any tag is exactly `flow`.
pub open spec fn has_flow_tag(tags: Seq<String>) -> bool {
    exists|k: int| 0 <= k < tags.len() && #[trigger] tags[k]@ == "flow"@
}

/// Check a body against the thresholds. `flow` or a tag `flow`
/// short-circuits all checks.
pub fn check_size(content: &str, tags: &Vec<String>, flow: bool, force: bool, warn: usize, hard: usize) -> (r: SizeVerdict)
    ensures
        r == size_spec(content.len(), flow || has_flow_tag(tags@), force, warn, hard),
{
    let mut tagged = false;
    let mut i: usize = 0;
    while i < tags.len()
        invariant
            i <= tags@.len(),
            tagged == exists|k: int| 0 <= k < i && #[trigger] tags@[k]@ == "flow"@,
        decreases tags@.len() - i,
    {
        if str_eq(tags[i].as_str(), "flow") {
            tagged = true;
        }
        i = i + 1;
    }
    let bytes = content.len();
    if flow || tagged {
        SizeVerdict::Pass
    } else if bytes > hard {
        if force {
            SizeVerdict::Forced { bytes, hard }
        } else {
            SizeVerdict::Reject { bytes, hard }
        }
    } else if bytes > warn {
        SizeVerdict::Warn { bytes, warn }
    } else {
        SizeVerdict::Pass
    }
}

/// The `flow` bypass: when `--flow` is given or any tag, at any position,
/// is exactly `flow`, the verdict is Pass whatever the size, force and
/// thresholds; when neither holds, a body above the hard threshold is
/// refused without `--force` and let through with it.
pub proof fn law_flow_bypasses_size_checks(
    bytes: usize,
    tags: Seq<String>,
    flow: bool,
    force: bool,
    warn: usize,
    hard: usize,
    k: int,
)
    ensures
        flow ==> size_spec(bytes, flow || has_flow_tag(tags), force, warn, hard) == SizeVerdict::Pass,
        0 <= k < tags.len() && tags[k]@ == "flow"@ ==> size_spec(
            bytes,
            flow || has_flow_tag(tags),
            force,
            warn,
            hard,
        ) == SizeVerdict::Pass,
        !flow && (forall|j: int| 0 <= j < tags.len() ==> #[trigger] tags[j]@ != "flow"@) && bytes > hard
            ==> size_spec(bytes, flow || has_flow_tag(tags), force, warn, hard) == (if force {
            SizeVerdict::Forced { bytes, hard }
        } else {
            SizeVerdict::Reject { bytes, hard }
        }),
        !flow && (forall|j: int| 0 <= j < tags.len() ==> #[trigger] tags[j]@ != "flow"@) && bytes <= hard
            && bytes > warn ==> size_spec(bytes, flow || has_flow_tag(tags), force, warn, hard)
            == (SizeVerdict::Warn { bytes, warn }),
        bytes <= hard && bytes <= warn ==> size_spec(bytes, flow || has_flow_tag(tags), force, warn, hard)
            == SizeVerdict::Pass,
{
    if 0 <= k < tags.len() && tags[k]@ == "flow"@ {
        assert(has_flow_tag(tags));
    }
}

} // verus!
