//! Breaking raw content into knowledge units with a language model: the
//! prompt, the unwrapping of the model's reply, and the checks on the
//! units it proposes. Running the model and parsing its JSON into records
//! is done by the caller.
use vstd::prelude::*;
use crate::text;
use crate::text::{append_chars, chars_of, lit, string_of, take_chars_exec, trim_chars};
use crate::ask;
use crate::ask::reply_json;

verus! {

broadcast use vstd::string::group_string_axioms;

/// One unit proposed by the model.
#[derive(Debug, Clone)]
pub struct DigestUnit {
    pub unit_type: String,
    pub content: String,
    pub tags: Vec<String>,
    pub is_overview: bool,
}

/// The units proposed for one piece of content.
#[derive(Debug, Clone)]
pub struct DigestResult {
    pub units: Vec<DigestUnit>,
}

pub open spec fn digest_head() -> Seq<char> {
    "You are a knowledge extraction system. Break the following content into discrete knowledge units.\n\nRules:\n- First unit MUST be an overview: 1-3 sentences summarizing the whole thing. Mark it \"is_overview\": true.\n- Then extract each logical section, rule, principle, or distinct procedure as its own unit.\n- Each unit must be CONCISE — no prose, no filler. Distill to the essential information.\n- Each unit gets its own type: \"fact\", \"procedure\", \"principle\", \"preference\", \"lesson\", \"idea\", or \"aspect\".\n- Procedures should be step-by-step, not paragraphs.\n- Principles/rules should be standalone statements that make sense without context.\n- 2-5 tags per unit (lowercase).\n- Aim for 3-8 units total. Don't over-split — group related small items.\n\nReturn ONLY a JSON object (no markdown, no code fences):\n{\n  \"units\": [\n    {\n      \"type\": \"procedure\",\n      \"content\": \"concise overview here\",\n      \"tags\": [\"tag1\", \"tag2\"],\n      \"is_overview\": true\n    },\n    {\n      \"type\": \"principle\",\n      \"content\": \"extracted principle or rule\",\n      \"tags\": [\"tag1\", \"tag2\"]\n    }\n  ]\n}\n\nContent to process:\n---\n"@
}

pub open spec fn digest_tail() -> Seq<char> {
    "\n---\n\nReturn ONLY valid JSON. No other text."@
}

/// The extraction prompt for a piece of content.
pub fn digest_prompt(content: &str) -> (r: String)
    ensures
        r@ == digest_head() + content@ + digest_tail(),
{
    let mut out = lit("You are a knowledge extraction system. Break the following content into discrete knowledge units.\n\nRules:\n- First unit MUST be an overview: 1-3 sentences summarizing the whole thing. Mark it \"is_overview\": true.\n- Then extract each logical section, rule, principle, or distinct procedure as its own unit.\n- Each unit must be CONCISE — no prose, no filler. Distill to the essential information.\n- Each unit gets its own type: \"fact\", \"procedure\", \"principle\", \"preference\", \"lesson\", \"idea\", or \"aspect\".\n- Procedures should be step-by-step, not paragraphs.\n- Principles/rules should be standalone statements that make sense without context.\n- 2-5 tags per unit (lowercase).\n- Aim for 3-8 units total. Don't over-split — group related small items.\n\nReturn ONLY a JSON object (no markdown, no code fences):\n{\n  \"units\": [\n    {\n      \"type\": \"procedure\",\n      \"content\": \"concise overview here\",\n      \"tags\": [\"tag1\", \"tag2\"],\n      \"is_overview\": true\n    },\n    {\n      \"type\": \"principle\",\n      \"content\": \"extracted principle or rule\",\n      \"tags\": [\"tag1\", \"tag2\"]\n    }\n  ]\n}\n\nContent to process:\n---\n");
    append_chars(&mut out, &chars_of(content));
    append_chars(&mut out, &lit("\n---\n\nReturn ONLY valid JSON. No other text."));
    string_of(out.as_slice())
}

/// The JSON text inside the model command's output: the `result` of its
/// envelope (as the caller read it; `None` when the output is no such
/// envelope), trimmed, unfenced and cut to its outermost object; or the
/// error reported when there is no envelope, with the first 200
/// characters of the output.
pub open spec fn digest_json_spec(raw: Seq<char>, result: Option<Seq<char>>) -> Result<Seq<char>, Seq<char>> {
    match result {
        None => Err(
            "Failed to parse the model reply envelope; stdout preview: "@
                + text::take_chars(raw, 200),
        ),
        Some(res) => Ok(ask::json_span(ask::defence(text::trim(res)))),
    }
}

/// Extract the JSON reply from the model command's output `raw`, given
/// the `result` of its envelope.
pub fn digest_json(raw: &str, result: Option<&str>) -> (r: Result<String, String>)
    ensures
        match digest_json_spec(
            raw@,
            match result {
                Some(s) => Some(s@),
                None => None,
            },
        ) {
            Ok(j) => r matches Ok(x) && x@ == j,
            Err(m) => r matches Err(e) && e@ == m,
        },
{
    match reply_json(result) {
        None => {
            let rc = chars_of(raw);
            let mut m = lit("Failed to parse the model reply envelope; stdout preview: ");
            append_chars(&mut m, &take_chars_exec(&rc, 200));
            Err(string_of(m.as_slice()))
        },
        Some(js) => Ok(js),
    }
}

/// Unit types the store knows.
pub open spec fn known_type(t: Seq<char>) -> bool {
    t == "fact"@ || t == "procedure"@ || t == "principle"@ || t == "preference"@ || t == "lesson"@
        || t == "idea"@ || t == "aspect"@
}

/// The first unit type among the first `k` that the store does not know.
pub open spec fn first_unknown_type(us: Seq<DigestUnit>, k: int) -> Option<Seq<char>>
    decreases k,
{
    if k <= 0 {
        None
    } else {
        match first_unknown_type(us, k - 1) {
            Some(t) => Some(t),
            None => if known_type(us[k - 1].unit_type@) {
                None
            } else {
                Some(us[k - 1].unit_type@)
            },
        }
    }
}

/// The verdict on the model's reply once its JSON text `json` was read
/// (`parsed` is `None` when it did not parse): an error naming the text,
/// the first unknown unit type, or the absence of units; else the units.
pub open spec fn digest_check_spec(json: Seq<char>, parsed: Option<DigestResult>) -> Result<(), Seq<char>> {
    match parsed {
        None => Err("Failed to parse LLM response: "@ + json),
        Some(r) => match first_unknown_type(r.units@, r.units@.len() as int) {
            Some(t) => Err("LLM returned invalid type: "@ + t),
            None => if r.units@.len() == 0 {
                Err("LLM returned no units"@)
            } else {
                Ok(())
            },
        },
    }
}

/// Check the units read from the model's reply.
pub fn check_digest(json: &str, parsed: Option<DigestResult>) -> (r: Result<DigestResult, String>)
    ensures
        match digest_check_spec(json@, parsed) {
            Ok(()) => r matches Ok(x) && Some(x) == parsed,
            Err(m) => r matches Err(e) && e@ == m,
        },
{
    match parsed {
        None => {
            let mut m = lit("Failed to parse LLM response: ");
            append_chars(&mut m, &chars_of(json));
            Err(string_of(m.as_slice()))
        },
        Some(res) => {
            let mut i: usize = 0;
            while i < res.units.len()
                invariant
                    i <= res.units@.len(),
                    parsed == Some(res),
                    first_unknown_type(res.units@, i as int) is None,
                decreases res.units@.len() - i,
            {
                let t = res.units[i].unit_type.as_str();
                let ok = text::str_eq(t, "fact") || text::str_eq(t, "procedure") || text::str_eq(
                    t,
                    "principle",
                ) || text::str_eq(t, "preference") || text::str_eq(t, "lesson") || text::str_eq(
                    t,
                    "idea",
                ) || text::str_eq(t, "aspect");
                if !ok {
                    proof {
                        assert(first_unknown_type(res.units@, i as int + 1) == Some(res.units@[i as int].unit_type@));
                        lemma_unknown_stays(res.units@, i as int + 1, res.units@.len() as int);
                    }
                    let mut m = lit("LLM returned invalid type: ");
                    append_chars(&mut m, &chars_of(t));
                    return Err(string_of(m.as_slice()));
                }
                i = i + 1;
            }
            if res.units.len() == 0 {
                return Err("LLM returned no units".to_owned());
            }
            Ok(res)
        },
    }
}

proof fn lemma_unknown_stays(us: Seq<DigestUnit>, j: int, k: int)
    requires
        0 < j <= k <= us.len(),
        first_unknown_type(us, j) is Some,
    ensures
        first_unknown_type(us, k) == first_unknown_type(us, j),
    decreases k - j,
{
    if k > j {
        lemma_unknown_stays(us, j, k - 1);
    }
}


// ---------------------------------------------------------------------------
// Links among the units of one digest
// ---------------------------------------------------------------------------

/// Index of the last overview unit among the first `k`, if any.
pub open spec fn last_overview(us: Seq<DigestUnit>, k: int) -> Option<int>
    decreases k,
{
    if k <= 0 {
        None
    } else if us[k - 1].is_overview {
        Some(k - 1)
    } else {
        last_overview(us, k - 1)
    }
}

/// `part_of` links, as (unit, overview) index pairs, from each of the first
/// `k` non-overview units to the overview `ov`.
pub open spec fn part_of_pairs(us: Seq<DigestUnit>, ov: int, k: int) -> Seq<(usize, usize)>
    decreases k,
{
    if k <= 0 {
        Seq::empty()
    } else if us[k - 1].is_overview {
        part_of_pairs(us, ov, k - 1)
    } else {
        part_of_pairs(us, ov, k - 1).push(((k - 1) as usize, ov as usize))
    }
}

/// The `part_of` links a digest creates among its new units: when some
/// unit is the overview (the last one marked so), every other unit is
/// part of it; otherwise none.
pub fn overview_links(units: &Vec<DigestUnit>) -> (r: Vec<(usize, usize)>)
    ensures
        match last_overview(units@, units@.len() as int) {
            None => r@.len() == 0,
            Some(ov) => r@ == part_of_pairs(units@, ov, units@.len() as int),
        },
{
    let mut ov: Option<usize> = None;
    let mut i: usize = 0;
    while i < units.len()
        invariant
            i <= units@.len(),
            match last_overview(units@, i as int) {
                None => ov is None,
                Some(o) => 0 <= o < i && ov == Some(o as usize),
            },
        decreases units@.len() - i,
    {
        if units[i].is_overview {
            ov = Some(i);
        }
        i = i + 1;
    }
    let mut out: Vec<(usize, usize)> = Vec::new();
    match ov {
        None => out,
        Some(o) => {
            let mut j: usize = 0;
            while j < units.len()
                invariant
                    j <= units@.len(),
                    last_overview(units@, units@.len() as int) == Some(o as int),
                    out@ == part_of_pairs(units@, o as int, j as int),
                decreases units@.len() - j,
            {
                if !units[j].is_overview {
                    out.push((j, o));
                }
                j = j + 1;
            }
            out
        },
    }
}

/// One of the seven unit types the store knows.
pub open spec fn store_type(t: Seq<char>) -> bool {
    t == "fact"@ || t == "procedure"@ || t == "principle"@ || t == "preference"@ || t == "lesson"@
        || t == "idea"@ || t == "aspect"@
}

proof fn lemma_first_unknown(us: Seq<DigestUnit>, k: int)
    requires
        0 <= k <= us.len(),
    ensures
        (exists|j: int| 0 <= j < k && !store_type(#[trigger] us[j].unit_type@)) ==> first_unknown_type(us, k)
            is Some,
        (forall|j: int| 0 <= j < k ==> store_type(#[trigger] us[j].unit_type@)) ==> first_unknown_type(us, k)
            is None,
        first_unknown_type(us, k) matches Some(t) ==> !store_type(t) && exists|j: int|
            0 <= j < k && #[trigger] us[j].unit_type@ == t,
    decreases k,
{
    if k > 0 {
        lemma_first_unknown(us, k - 1);
    }
}

/// What the digest check accepts: a reply with at least one unit, all of
/// one of the seven store types (fact, procedure, principle, preference,
/// lesson, idea, aspect), is accepted; a type is reported invalid only when
/// it is one of the reply's unit types and none of the seven.
pub proof fn law_digest_accepts_store_types(json: Seq<char>, r: DigestResult, t: Seq<char>)
    ensures
        r.units@.len() > 0 && (forall|j: int| 0 <= j < r.units@.len() ==> store_type(#[trigger] r.units@[j].unit_type@))
            ==> digest_check_spec(json, Some(r)) == Ok::<(), Seq<char>>(()),
        digest_check_spec(json, Some(r)) == Err::<(), Seq<char>>("LLM returned invalid type: "@ + t) ==> !store_type(t)
            && exists|j: int| 0 <= j < r.units@.len() && #[trigger] r.units@[j].unit_type@ == t,
        r.units@.len() == 0 ==> digest_check_spec(json, Some(r)) == Err::<(), Seq<char>>("LLM returned no units"@),
        digest_check_spec(json, None) == Err::<(), Seq<char>>("Failed to parse LLM response: "@ + json),
        (exists|j: int| 0 <= j < r.units@.len() && !store_type(#[trigger] r.units@[j].unit_type@))
            ==> digest_check_spec(json, Some(r)) is Err,
{
    let us = r.units@;
    lemma_first_unknown(us, us.len() as int);
    reveal_strlit("LLM returned invalid type: ");
    reveal_strlit("LLM returned no units");
    let pre = "LLM returned invalid type: "@;
    if digest_check_spec(json, Some(r)) == Err::<(), Seq<char>>(pre + t) {
        match first_unknown_type(us, us.len() as int) {
            Some(t2) => {
                assert(pre + t2 == pre + t);
                assert(t2 =~= (pre + t2).skip(pre.len() as int));
                assert(t =~= (pre + t).skip(pre.len() as int));
            },
            None => {
                assert((pre + t).len() >= pre.len());
                assert("LLM returned no units"@.len() < pre.len());
            },
        }
    }
}

} // verus!
