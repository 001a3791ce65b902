//! Context preambles: the one-hop context block of a unit, the prompt that
//! asks a model for a preamble, and the token arithmetic of the cost
//! projection. Talking to the model and the store is done by the caller.
use vstd::prelude::*;
use crate::text;
use crate::text::{append_chars, chars_of, lit, str_eq, string_of};
use crate::model::{LinkedUnit, UnitCore};

verus! {

broadcast use vstd::string::group_string_axioms;

/// Output token cap of one preamble request.
pub const MAX_OUTPUT_TOKENS: u32 = 100;

/// Price of an input token of the preamble model, in nano-dollars
/// (0.80 USD per million tokens).
pub const HAIKU_INPUT_NANO_USD_PER_TOKEN: u64 = 800;

/// Price of an output token of the preamble model, in nano-dollars
/// (4.00 USD per million tokens).
pub const HAIKU_OUTPUT_NANO_USD_PER_TOKEN: u64 = 4000;

/// Default request rate (requests per minute).
pub const DEFAULT_RATE_LIMIT_RPM: u32 = 50;

/// One model response: the preamble and the token counts it cost.
#[derive(Debug, Clone)]
pub struct PreambleResp {
    pub preamble: String,
    pub input_tokens: u32,
    pub output_tokens: u32,
}

/// A source of preambles (the model service, or a stand-in in tests).
pub trait LlmClient {
    fn generate_preamble(&self, prompt: &str) -> Result<PreambleResp, String>;
}

/// One row of dry-run output.
#[derive(Debug, Clone)]
pub struct SampleResult {
    pub id: String,
    pub headline: String,
    pub prompt: String,
    pub preamble: String,
    pub input_tokens: u32,
    pub output_tokens: u32,
    pub mocked: bool,
}

/// One-hop context of a unit.
#[derive(Debug, Clone)]
pub struct ContextBlock {
    /// Slug of the first `part_of` parent, when it has one.
    pub parent_slug: Option<String>,
    /// Headlines of up to three outbound `related_to` neighbours.
    pub related: Vec<String>,
    /// Headlines of up to three inbound `part_of` children.
    pub part_of_children: Vec<String>,
}

pub open spec fn strs(v: Seq<String>) -> Seq<Seq<char>> {
    v.map_values(|s: String| s@)
}

/// Headlines of the first `k` links with relationship `rel`, at most three.
pub open spec fn first_headlines(ls: Seq<LinkedUnit>, rel: Seq<char>, k: int) -> Seq<Seq<char>>
    decreases k,
{
    if k <= 0 {
        Seq::empty()
    } else {
        let prev = first_headlines(ls, rel, k - 1);
        if ls[k - 1].relationship@ == rel && prev.len() < 3 {
            prev.push(ls[k - 1].headline@)
        } else {
            prev
        }
    }
}

/// The slug of the first link with relationship `part_of` among the first
/// `k` (if that link's unit has a slug).
pub open spec fn first_parent_slug(ls: Seq<LinkedUnit>, k: int) -> Option<Seq<char>>
    decreases k,
{
    if k <= 0 {
        None
    } else if exists|j: int| 0 <= j < k - 1 && #[trigger] ls[j].relationship@ == "part_of"@ {
        first_parent_slug(ls, k - 1)
    } else if ls[k - 1].relationship@ == "part_of"@ {
        match ls[k - 1].slug {
            Some(s) => Some(s@),
            None => None,
        }
    } else {
        None
    }
}

fn headlines_with(ls: &Vec<LinkedUnit>, rel: &str) -> (r: Vec<String>)
    ensures
        strs(r@) == first_headlines(ls@, rel@, ls@.len() as int),
{
    let mut out: Vec<String> = Vec::new();
    let mut i: usize = 0;
    while i < ls.len()
        invariant
            i <= ls@.len(),
            strs(out@) == first_headlines(ls@, rel@, i as int),
        decreases ls@.len() - i,
    {
        if str_eq(ls[i].relationship.as_str(), rel) && out.len() < 3 {
            let ghost before = strs(out@);
            out.push(ls[i].headline.clone());
            assert(strs(out@) =~= before.push(ls@[i as int].headline@));
        }
        i = i + 1;
    }
    out
}

/// The context block of a unit from its outgoing and incoming links (with
/// the linked units' slugs and headlines): the first `part_of` parent's
/// slug, the first three `related_to` neighbours and the first three
/// `part_of` children.
pub fn build_context_block(outgoing: &Vec<LinkedUnit>, incoming: &Vec<LinkedUnit>) -> (r: ContextBlock)
    ensures
        (match r.parent_slug {
            Some(s) => Some(s@),
            None => None,
        }) == first_parent_slug(outgoing@, outgoing@.len() as int),
        strs(r.related@) == first_headlines(outgoing@, "related_to"@, outgoing@.len() as int),
        strs(r.part_of_children@) == first_headlines(incoming@, "part_of"@, incoming@.len() as int),
{
    let mut parent_slug: Option<String> = None;
    let mut found = false;
    let mut i: usize = 0;
    while i < outgoing.len() && !found
        invariant
            i <= outgoing@.len(),
            !found ==> forall|j: int| 0 <= j < i ==> #[trigger] outgoing@[j].relationship@ != "part_of"@,
            !found ==> parent_slug is None,
            found ==> i < outgoing@.len() && outgoing@[i as int].relationship@ == "part_of"@ && (
            match parent_slug {
                Some(s) => Some(s@),
                None => None,
            }) == (match outgoing@[i as int].slug {
                Some(s) => Some(s@),
                None => None,
            }),
            found ==> forall|j: int| 0 <= j < i ==> #[trigger] outgoing@[j].relationship@ != "part_of"@,
        decreases outgoing@.len() - i, if found { 0int } else { 1int },
    {
        if str_eq(outgoing[i].relationship.as_str(), "part_of") {
            found = true;
            parent_slug = match &outgoing[i].slug {
                Some(s) => Some(s.clone()),
                None => None,
            };
        } else {
            i = i + 1;
        }
    }
    proof {
        lemma_first_parent_slug(outgoing@, i as int, found, outgoing@.len() as int);
    }
    ContextBlock {
        parent_slug,
        related: headlines_with(outgoing, "related_to"),
        part_of_children: headlines_with(incoming, "part_of"),
    }
}

proof fn lemma_no_parent(ls: Seq<LinkedUnit>, k: int)
    requires
        0 <= k <= ls.len(),
        forall|j: int| 0 <= j < k ==> #[trigger] ls[j].relationship@ != "part_of"@,
    ensures
        first_parent_slug(ls, k) is None,
    decreases k,
{
    if k > 0 {
        lemma_no_parent(ls, k - 1);
    }
}

proof fn lemma_first_parent_slug(ls: Seq<LinkedUnit>, i: int, found: bool, k: int)
    requires
        0 <= i <= ls.len(),
        k <= ls.len(),
        forall|j: int| 0 <= j < i ==> #[trigger] ls[j].relationship@ != "part_of"@,
        found ==> i < ls.len() && ls[i].relationship@ == "part_of"@ && i < k,
        !found ==> i == ls.len() && k == ls.len(),
    ensures
        first_parent_slug(ls, k) == if found {
            match ls[i].slug {
                Some(s) => Some(s@),
                None => None,
            }
        } else {
            None
        },
    decreases k,
{
    if !found {
        lemma_no_parent(ls, k);
    } else if k - 1 > i {
        assert(ls[i].relationship@ == "part_of"@);
        assert(exists|j: int| 0 <= j < k - 1 && #[trigger] ls[j].relationship@ == "part_of"@);
        lemma_first_parent_slug(ls, i, found, k - 1);
    } else {
        assert(!(exists|j: int| 0 <= j < k - 1 && #[trigger] ls[j].relationship@ == "part_of"@));
    }
}

pub open spec fn prompt_head() -> Seq<char> {
    "Given this knowledge atom and its context, write a single-sentence preamble (max 30 words) that situates this atom in its broader knowledge graph. Output ONLY the sentence, nothing else.\n\n"@
}

/// The preamble prompt: instructions, the unit's content as the atom, and
/// the context lines that have something to say.
pub open spec fn prompt_spec(content: Seq<char>, ctx: ContextBlock) -> Seq<char> {
    let a = prompt_head() + "ATOM:\n"@ + content + "\n\nCONTEXT:\n"@;
    let b = match ctx.parent_slug {
        Some(s) => a + "- parent slug: "@ + s@ + seq!['\n'],
        None => a,
    };
    let c = if ctx.related@.len() > 0 {
        b + "- related: "@ + text::join(strs(ctx.related@), "; "@) + seq!['\n']
    } else {
        b
    };
    if ctx.part_of_children@.len() > 0 {
        c + "- part_of children: "@ + text::join(strs(ctx.part_of_children@), "; "@) + seq!['\n']
    } else {
        c
    }
}

fn joined(v: &Vec<String>, sep: &str) -> (r: Vec<char>)
    ensures
        r@ == text::join(strs(v@), sep@),
{
    let mut parts: Vec<Vec<char>> = Vec::new();
    let mut i: usize = 0;
    while i < v.len()
        invariant
            i <= v@.len(),
            parts@.len() == i,
            forall|k: int| 0 <= k < i ==> #[trigger] parts@[k]@ == v@[k]@,
        decreases v@.len() - i,
    {
        parts.push(chars_of(v[i].as_str()));
        i = i + 1;
    }
    assert(text::views(parts@) =~= strs(v@));
    text::join_exec(&parts, &lit(sep))
}

/// Format the prompt sent to the model for one unit.
pub fn build_prompt(unit: &UnitCore, ctx: &ContextBlock) -> (r: String)
    ensures
        r@ == prompt_spec(unit.content@, *ctx),
{
    let mut s = lit(
        "Given this knowledge atom and its context, write a single-sentence preamble (max 30 words) that situates this atom in its broader knowledge graph. Output ONLY the sentence, nothing else.\n\n",
    );
    append_chars(&mut s, &lit("ATOM:\n"));
    append_chars(&mut s, &chars_of(unit.content.as_str()));
    append_chars(&mut s, &lit("\n\nCONTEXT:\n"));
    match &ctx.parent_slug {
        Some(slug) => {
            append_chars(&mut s, &lit("- parent slug: "));
            append_chars(&mut s, &chars_of(slug.as_str()));
            s.push('\n');
        },
        None => {},
    }
    if ctx.related.len() > 0 {
        append_chars(&mut s, &lit("- related: "));
        append_chars(&mut s, &joined(&ctx.related, "; "));
        s.push('\n');
    }
    if ctx.part_of_children.len() > 0 {
        append_chars(&mut s, &lit("- part_of children: "));
        append_chars(&mut s, &joined(&ctx.part_of_children, "; "));
        s.push('\n');
    }
    assert(s@ =~= prompt_spec(unit.content@, *ctx));
    string_of(s.as_slice())
}

/// Input tokens assumed for a prompt when no model is asked: one per four
/// bytes, at least one.
pub fn estimate_input_tokens(prompt: &str) -> (r: u32)
    ensures
        r == (if prompt.len() / 4 >= 1 {
            prompt.len() / 4
        } else {
            1
        }) as u32,
{
    let q = prompt.len() / 4;
    let m = if q >= 1 { q } else { 1 };
    m as u32
}

/// Projected totals over the backlog: the average tokens per sample (0
/// with no samples) times the backlog, saturating.
pub fn project_tokens(sum_in: u64, sum_out: u64, samples: u64, backlog: u64) -> (r: (u64, u64))
    ensures
        r.0 == (if samples == 0 {
            0
        } else {
            let t = (sum_in / samples) * backlog;
            if t > u64::MAX {
                u64::MAX as int
            } else {
                t
            }
        }),
        r.1 == (if samples == 0 {
            0
        } else {
            let t = (sum_out / samples) * backlog;
            if t > u64::MAX {
                u64::MAX as int
            } else {
                t
            }
        }),
{
    let avg_in = if samples == 0 { 0 } else { sum_in / samples };
    let avg_out = if samples == 0 { 0 } else { sum_out / samples };
    let est_in = match avg_in.checked_mul(backlog) {
        Some(v) => v,
        None => u64::MAX,
    };
    let est_out = match avg_out.checked_mul(backlog) {
        Some(v) => v,
        None => u64::MAX,
    };
    (est_in, est_out)
}


/// Estimated cost of a run, in nano-dollars, of `input_tokens` read and
/// `output_tokens` written at the preamble model's prices.
pub fn estimated_cost_nano_usd(input_tokens: u64, output_tokens: u64) -> (r: u128)
    ensures
        r == input_tokens * HAIKU_INPUT_NANO_USD_PER_TOKEN + output_tokens
            * HAIKU_OUTPUT_NANO_USD_PER_TOKEN,
{
    (input_tokens as u128) * (HAIKU_INPUT_NANO_USD_PER_TOKEN as u128) + (output_tokens as u128)
        * (HAIKU_OUTPUT_NANO_USD_PER_TOKEN as u128)
}

// ---------------------------------------------------------------------------
// Pacing a preamble backfill
// ---------------------------------------------------------------------------

/// Milliseconds between model calls that keep a run under
/// `rate_limit_rpm` requests per minute (a rate of 0 counts as 1).
pub open spec fn call_interval_spec(rate_limit_rpm: u32) -> int {
    60_000int / if rate_limit_rpm == 0 { 1int } else { rate_limit_rpm as int }
}

/// The interval between calls for a requests-per-minute cap.
pub fn call_interval_ms(rate_limit_rpm: u32) -> (r: u64)
    ensures
        r == call_interval_spec(rate_limit_rpm),
{
    let rpm: u64 = if rate_limit_rpm == 0 { 1 } else { rate_limit_rpm as u64 };
    60_000u64 / rpm
}

/// Progress of a backfill run: preambles written and the tokens they cost.
#[derive(Debug, Clone, Copy)]
pub struct BackfillProgress {
    pub processed: u64,
    pub sum_in: u64,
    pub sum_out: u64,
}

/// A run that has written nothing yet.
pub fn backfill_start() -> (r: BackfillProgress)
    ensures
        r.processed == 0 && r.sum_in == 0 && r.sum_out == 0,
{
    BackfillProgress { processed: 0, sum_in: 0, sum_out: 0 }
}

/// One step of a backfill run, after a preamble was written: the progress
/// with that call counted, and how many milliseconds to wait before the
/// next call so that calls start at least `interval_ms` apart (nothing
/// when the call itself took that long).
pub fn after_preamble(
    p: BackfillProgress,
    resp: &PreambleResp,
    elapsed_ms: u64,
    interval_ms: u64,
) -> (r: (BackfillProgress, u64))
    requires
        p.processed < u64::MAX,
        p.sum_in + resp.input_tokens <= u64::MAX,
        p.sum_out + resp.output_tokens <= u64::MAX,
    ensures
        r.0.processed == p.processed + 1,
        r.0.sum_in == p.sum_in + resp.input_tokens,
        r.0.sum_out == p.sum_out + resp.output_tokens,
        r.1 == if elapsed_ms < interval_ms { interval_ms - elapsed_ms } else { 0 },
{
    let next = BackfillProgress {
        processed: p.processed + 1,
        sum_in: p.sum_in + resp.input_tokens as u64,
        sum_out: p.sum_out + resp.output_tokens as u64,
    };
    let wait: u64 = if elapsed_ms < interval_ms { interval_ms - elapsed_ms } else { 0 };
    (next, wait)
}

} // verus!
