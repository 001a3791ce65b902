//! Frontmatter parser — read side.
//!
//! Recognises a leading YAML frontmatter block delimited by `---\n` fences at
//! the start of the content. The fence splitting is this crate's own logic;
//! the YAML itself is parsed by `serde_yml`. On malformed or non-mapping YAML
//! the whole content is treated as body.
use vstd::prelude::*;
use crate::text;
use serde_yml::Value;
use crate::text::{lit, append_chars, chars_eq, chars_of, copy_range, find_exec, rfind_exec, starts_with_exec, string_of};

verus! {

broadcast use vstd::string::group_string_axioms;

/// `"---\n"`, the opening fence.
pub open spec fn fence() -> Seq<char> {
    seq!['-', '-', '-', '\n']
}

/// `"\n---\n"`, a closing fence followed by body.
pub open spec fn close_fence() -> Seq<char> {
    seq!['\n', '-', '-', '-', '\n']
}

/// `"\n---"`, a closing fence at the end of the content.
pub open spec fn close_fence_eof() -> Seq<char> {
    seq!['\n', '-', '-', '-']
}

/// Split content into (YAML source, body) when it carries a fenced block:
/// it must start with `---\n`; the block ends at the first `\n---\n`, or
/// else at a last `\n---` followed by nothing or a single newline.
pub open spec fn fm_split(c: Seq<char>) -> Option<(Seq<char>, Seq<char>)> {
    if !text::starts_with(c, fence()) {
        None
    } else {
        let a = c.skip(4);
        match text::find(a, close_fence()) {
            Some(i) => Some((a.take(i), a.skip(i + 5))),
            None => match text::rfind(a, close_fence_eof()) {
                Some(i) => {
                    let tail = a.skip(i + 4);
                    if tail.len() == 0 || tail == seq!['\n'] {
                        Some((a.take(i), Seq::<char>::empty()))
                    } else {
                        None
                    }
                },
                None => None,
            },
        }
    }
}

/// Exec form of [`fm_split`].
pub fn split_frontmatter(c: &Vec<char>) -> (r: Option<(Vec<char>, Vec<char>)>)
    ensures
        r matches Some((y, b)) ==> fm_split(c@) == Some((y@, b@)),
        r is None ==> fm_split(c@) is None,
{
    let open: Vec<char> = vec!['-', '-', '-', '\n'];
    assert(open@ =~= fence());
    if !starts_with_exec(c, &open) {
        return None;
    }
    let a = copy_range(c, 4, c.len());
    assert(a@ =~= c@.skip(4));
    let close: Vec<char> = vec!['\n', '-', '-', '-', '\n'];
    assert(close@ =~= close_fence());
    match find_exec(&a, &close) {
        Some(i) => {
            proof { text::lemma_find_from_bounds(a@, close@, 0); }
            let y = copy_range(&a, 0, i);
            let b = copy_range(&a, i + 5, a.len());
            assert(y@ =~= a@.take(i as int));
            assert(b@ =~= a@.skip(i + 5));
            Some((y, b))
        },
        None => {
            let close_eof: Vec<char> = vec!['\n', '-', '-', '-'];
            assert(close_eof@ =~= close_fence_eof());
            match rfind_exec(&a, &close_eof) {
                Some(i) => {
                    proof { text::lemma_rfind_from_bounds(a@, close_eof@, a@.len() - 4); }
                    let tail = copy_range(&a, i + 4, a.len());
                    assert(tail@ =~= a@.skip(i + 4));
                    let nl: Vec<char> = vec!['\n'];
                    if tail.len() == 0 || chars_eq(&tail, &nl) {
                        assert(nl@ =~= seq!['\n']);
                        let y = copy_range(&a, 0, i);
                        assert(y@ =~= a@.take(i as int));
                        let b: Vec<char> = Vec::new();
                        Some((y, b))
                    } else {
                        assert(nl@ =~= seq!['\n']);
                        None
                    }
                },
                None => None,
            }
        },
    }
}

// ---------------------------------------------------------------------------
// YAML through serde_yml
// ---------------------------------------------------------------------------

/// A scalar YAML value: null, boolean, number (as `serde_yml` displays
/// it) or string.
#[derive(Debug, Clone)]
pub enum YamlScalar {
    Null,
    Bool(bool),
    Number(String),
    Text(String),
}

/// A top-level frontmatter value: a scalar, a sequence (each item a scalar,
/// or `None` for a nested item), or anything else (mapping, tagged value).
#[derive(Debug, Clone)]
pub enum YamlNode {
    Scalar(YamlScalar),
    List(Vec<Option<YamlScalar>>),
    Nested,
}

pub enum YamlScalarView {
    Null,
    Bool(bool),
    Number(Seq<char>),
    Text(Seq<char>),
}

pub enum YamlNodeView {
    Scalar(YamlScalarView),
    List(Seq<Option<YamlScalarView>>),
    Nested,
}

pub open spec fn scalar_view(s: YamlScalar) -> YamlScalarView {
    match s {
        YamlScalar::Null => YamlScalarView::Null,
        YamlScalar::Bool(b) => YamlScalarView::Bool(b),
        YamlScalar::Number(n) => YamlScalarView::Number(n@),
        YamlScalar::Text(t) => YamlScalarView::Text(t@),
    }
}

pub open spec fn item_view(o: Option<YamlScalar>) -> Option<YamlScalarView> {
    match o {
        Some(s) => Some(scalar_view(s)),
        None => None,
    }
}

pub open spec fn node_view(n: YamlNode) -> YamlNodeView {
    match n {
        YamlNode::Scalar(s) => YamlNodeView::Scalar(scalar_view(s)),
        YamlNode::List(items) => YamlNodeView::List(
            items@.map_values(|o: Option<YamlScalar>| item_view(o)),
        ),
        YamlNode::Nested => YamlNodeView::Nested,
    }
}

pub open spec fn entry_views(v: Seq<(String, YamlNode)>) -> Seq<(Seq<char>, YamlNodeView)> {
    v.map_values(|e: (String, YamlNode)| (e.0@, node_view(e.1)))
}

/// What `serde_yml::from_str::<Value>` yields for a YAML source, reduced to
/// its top-level mapping: `None` when the source does not parse or is not a
/// mapping; otherwise each entry in document order with its key and value.
pub uninterp spec fn yaml_top_nodes(src: Seq<char>) -> Option<Seq<(Seq<char>, YamlNodeView)>>;

/// Parses `src` with `serde_yml::from_str::<serde_yml::Value>` and, when the
/// result is a mapping, lists its entries with their values as
/// [`YamlNode`]s (numbers as `serde_yml` displays them). The contract only
/// names the result: parsing YAML is left to `serde_yml` and not restated.
#[verifier::external_body]
fn yaml_entries(src: &str) -> (r: Option<Vec<(String, YamlNode)>>)
    ensures
        r matches Some(v) ==> yaml_top_nodes(src@) == Some(entry_views(v@)),
        r is None ==> yaml_top_nodes(src@) is None,
{
    let scalar = |v: &Value| match v {
        Value::Null => Some(YamlScalar::Null),
        Value::Bool(b) => Some(YamlScalar::Bool(*b)),
        Value::Number(n) => Some(YamlScalar::Number(n.to_string())),
        Value::String(t) => Some(YamlScalar::Text(t.clone())),
        _ => None,
    };
    match serde_yml::from_str::<Value>(src) {
        Ok(Value::Mapping(m)) => Some(m.iter().map(|(k, v)| (k.clone(), match v {
            Value::Sequence(items) => YamlNode::List(items.iter().map(scalar).collect()),
            other => scalar(other).map_or(YamlNode::Nested, YamlNode::Scalar),
        })).collect()),
        _ => None,
    }
}

/// Whether the YAML source parses to a mapping.
pub open spec fn yaml_is_mapping(src: Seq<char>) -> bool {
    yaml_top_nodes(src) is Some
}

/// The string a node holds, when it is a YAML string.
pub open spec fn node_text(n: YamlNodeView) -> Option<Seq<char>> {
    match n {
        YamlNodeView::Scalar(YamlScalarView::Text(t)) => Some(t),
        _ => None,
    }
}

/// String value stored under `key` among `entries` from position `i` on.
pub open spec fn lookup_from(entries: Seq<(Seq<char>, YamlNodeView)>, key: Seq<char>, i: int) -> Option<Seq<char>>
    decreases entries.len() - i,
{
    if i < 0 || i >= entries.len() {
        None
    } else if entries[i].0 == key {
        node_text(entries[i].1)
    } else {
        lookup_from(entries, key, i + 1)
    }
}

/// The string value of top-level key `key` in the YAML source, when the
/// source is a mapping and that value is a string.
pub open spec fn yaml_string_field(src: Seq<char>, key: Seq<char>) -> Option<Seq<char>> {
    match yaml_top_nodes(src) {
        Some(entries) => lookup_from(entries, key, 0),
        None => None,
    }
}

/// Look up a top-level string field of a YAML source.
pub fn yaml_field(src: &Vec<char>, key: &Vec<char>) -> (r: Option<Vec<char>>)
    ensures
        r matches Some(v) ==> yaml_string_field(src@, key@) == Some(v@),
        r is None ==> yaml_string_field(src@, key@) is None,
{
    let s = string_of(src.as_slice());
    match yaml_entries(s.as_str()) {
        None => None,
        Some(entries) => {
            let ghost ev = entry_views(entries@);
            let mut i: usize = 0;
            while i < entries.len()
                invariant
                    i <= entries@.len(),
                    ev == entry_views(entries@),
                    yaml_top_nodes(src@) == Some(ev),
                    lookup_from(ev, key@, i as int) == lookup_from(ev, key@, 0),
                decreases entries@.len() - i,
            {
                let k = chars_of(entries[i].0.as_str());
                if chars_eq(&k, key) {
                    return match &entries[i].1 {
                        YamlNode::Scalar(YamlScalar::Text(v)) => Some(chars_of(v.as_str())),
                        _ => None,
                    };
                }
                i = i + 1;
            }
            None
        },
    }
}

/// Whether the YAML source parses to a mapping.
pub fn is_yaml_mapping(src: &Vec<char>) -> (r: bool)
    ensures
        r == yaml_is_mapping(src@),
{
    let s = string_of(src.as_slice());
    yaml_entries(s.as_str()).is_some()
}

// ---------------------------------------------------------------------------
// Parsed view
// ---------------------------------------------------------------------------

pub open spec fn opt_view(o: Option<String>) -> Option<Seq<char>> {
    match o {
        Some(s) => Some(s@),
        None => None,
    }
}

/// Parsed view of unit content: the YAML source of a frontmatter block that
/// parsed as a mapping (if any), and the body.
pub struct Parsed {
    pub frontmatter: Option<String>,
    pub body: String,
}

/// (frontmatter YAML source, body) per the parse rules: a fenced block whose
/// YAML is a mapping is frontmatter; anything else leaves the whole content
/// as body.
pub open spec fn parse_spec(c: Seq<char>) -> (Option<Seq<char>>, Seq<char>) {
    match fm_split(c) {
        Some((y, b)) => if yaml_is_mapping(y) {
            (Some(y), b)
        } else {
            (None, c)
        },
        None => (None, c),
    }
}

/// Exec form of [`parse_spec`] on characters.
pub fn parse_chars(c: &Vec<char>) -> (r: (Option<Vec<char>>, Vec<char>))
    ensures
        r.0 matches Some(y) ==> parse_spec(c@).0 == Some(y@),
        r.0 is None ==> parse_spec(c@).0 is None,
        r.1@ == parse_spec(c@).1,
{
    match split_frontmatter(c) {
        Some((y, b)) => {
            if is_yaml_mapping(&y) {
                (Some(y), b)
            } else {
                (None, c.clone())
            }
        },
        None => (None, c.clone()),
    }
}

/// Parse content into optional frontmatter (its YAML source) + body.
pub fn parse(content: &str) -> (r: Parsed)
    ensures
        opt_view(r.frontmatter) == parse_spec(content@).0,
        r.body@ == parse_spec(content@).1,
{
    let c = chars_of(content);
    let (fm, body) = parse_chars(&c);
    let frontmatter = match fm {
        Some(y) => Some(string_of(y.as_slice())),
        None => None,
    };
    Parsed { frontmatter, body: string_of(body.as_slice()) }
}


// ---------------------------------------------------------------------------
// Markdown rendering of frontmatter
// ---------------------------------------------------------------------------

/// A scalar as text: empty for null, `true`/`false`, the number as
/// displayed, the string itself.
pub open spec fn scalar_text(s: YamlScalarView) -> Seq<char> {
    match s {
        YamlScalarView::Null => Seq::empty(),
        YamlScalarView::Bool(b) => if b {
            "true"@
        } else {
            "false"@
        },
        YamlScalarView::Number(n) => n,
        YamlScalarView::Text(t) => t,
    }
}

pub open spec fn item_text(o: Option<YamlScalarView>) -> Seq<char> {
    match o {
        Some(s) => scalar_text(s),
        None => Seq::empty(),
    }
}

/// Every item of the sequence is a scalar.
pub open spec fn all_scalar(items: Seq<Option<YamlScalarView>>) -> bool {
    forall|i: int| 0 <= i < items.len() ==> (#[trigger] items[i]) is Some
}

/// The first `k` items' texts joined with `", "`.
pub open spec fn joined_items(items: Seq<Option<YamlScalarView>>, k: int) -> Seq<char>
    decreases k,
{
    if k <= 0 {
        Seq::empty()
    } else if k == 1 {
        item_text(items[0])
    } else {
        joined_items(items, k - 1) + ", "@ + item_text(items[k - 1])
    }
}

/// A `- item` line for each scalar among the first `k` items.
pub open spec fn bullet_lines(items: Seq<Option<YamlScalarView>>, k: int) -> Seq<char>
    decreases k,
{
    if k <= 0 {
        Seq::empty()
    } else {
        bullet_lines(items, k - 1) + match items[k - 1] {
            Some(s) => "- "@ + scalar_text(s) + "\n"@,
            None => Seq::empty(),
        }
    }
}

/// Markdown for one top-level key: `**key:** value` for a scalar (just
/// `**key:**` for null); a sequence of at most three scalars inline, joined
/// with commas; any other sequence as a bullet list of its scalar items
/// under `**key:**`; nothing for a nested mapping or tagged value.
pub open spec fn render_entry(k: Seq<char>, v: YamlNodeView) -> Seq<char> {
    match v {
        YamlNodeView::Scalar(YamlScalarView::Null) => "**"@ + k + ":**\n"@,
        YamlNodeView::Scalar(s) => "**"@ + k + ":** "@ + scalar_text(s) + "\n"@,
        YamlNodeView::List(items) => if all_scalar(items) && items.len() <= 3 {
            "**"@ + k + ":** "@ + joined_items(items, items.len() as int) + "\n"@
        } else {
            "**"@ + k + ":**\n"@ + bullet_lines(items, items.len() as int)
        },
        YamlNodeView::Nested => Seq::empty(),
    }
}

pub open spec fn render_entries(es: Seq<(Seq<char>, YamlNodeView)>, k: int) -> Seq<char>
    decreases k,
{
    if k <= 0 {
        Seq::empty()
    } else {
        render_entries(es, k - 1) + render_entry(es[k - 1].0, es[k - 1].1)
    }
}

/// Markdown lines for the top-level keys of a frontmatter YAML source, in
/// document order; empty when it is not a mapping.
pub open spec fn render_markdown_spec(src: Seq<char>) -> Seq<char> {
    match yaml_top_nodes(src) {
        Some(es) => render_entries(es, es.len() as int),
        None => Seq::empty(),
    }
}

fn scalar_text_exec(s: &YamlScalar) -> (r: Vec<char>)
    ensures
        r@ == scalar_text(scalar_view(*s)),
{
    match s {
        YamlScalar::Null => Vec::new(),
        YamlScalar::Bool(b) => if *b {
            lit("true")
        } else {
            lit("false")
        },
        YamlScalar::Number(n) => chars_of(n.as_str()),
        YamlScalar::Text(t) => chars_of(t.as_str()),
    }
}

fn item_text_exec(o: &Option<YamlScalar>) -> (r: Vec<char>)
    ensures
        r@ == item_text(item_view(*o)),
{
    match o {
        Some(s) => scalar_text_exec(s),
        None => Vec::new(),
    }
}

fn render_list(k: &Vec<char>, items: &Vec<Option<YamlScalar>>) -> (r: Vec<char>)
    ensures
        r@ == render_entry(k@, YamlNodeView::List(items@.map_values(|o: Option<YamlScalar>| item_view(o)))),
{
    let ghost iv = items@.map_values(|o: Option<YamlScalar>| item_view(o));
    let mut scalar_only = true;
    let mut i: usize = 0;
    while i < items.len()
        invariant
            i <= items@.len(),
            iv == items@.map_values(|o: Option<YamlScalar>| item_view(o)),
            scalar_only == forall|m: int| 0 <= m < i ==> (#[trigger] iv[m]) is Some,
        decreases items@.len() - i,
    {
        if items[i].is_none() {
            scalar_only = false;
            assert(iv[i as int] is None);
        }
        i = i + 1;
    }
    let mut out = lit("**");
    append_chars(&mut out, k);
    if scalar_only && items.len() <= 3 {
        append_chars(&mut out, &lit(":** "));
        let ghost head = out@;
        let mut j: usize = 0;
        while j < items.len()
            invariant
                j <= items@.len(),
                iv == items@.map_values(|o: Option<YamlScalar>| item_view(o)),
                out@ == head + joined_items(iv, j as int),
            decreases items@.len() - j,
        {
            if j > 0 {
                append_chars(&mut out, &lit(", "));
            }
            append_chars(&mut out, &item_text_exec(&items[j]));
            j = j + 1;
        }
        append_chars(&mut out, &lit("\n"));
        assert(out@ =~= render_entry(k@, YamlNodeView::List(iv)));
    } else {
        append_chars(&mut out, &lit(":**\n"));
        let ghost head = out@;
        let mut j: usize = 0;
        while j < items.len()
            invariant
                j <= items@.len(),
                iv == items@.map_values(|o: Option<YamlScalar>| item_view(o)),
                out@ == head + bullet_lines(iv, j as int),
            decreases items@.len() - j,
        {
            match &items[j] {
                Some(s) => {
                    append_chars(&mut out, &lit("- "));
                    append_chars(&mut out, &scalar_text_exec(s));
                    append_chars(&mut out, &lit("\n"));
                },
                None => {},
            }
            j = j + 1;
        }
        assert(out@ =~= render_entry(k@, YamlNodeView::List(iv)));
    }
    out
}

fn render_entry_exec(k: &String, v: &YamlNode) -> (r: Vec<char>)
    ensures
        r@ == render_entry(k@, node_view(*v)),
{
    let kc = chars_of(k.as_str());
    match v {
        YamlNode::Scalar(YamlScalar::Null) => {
            let mut out = lit("**");
            append_chars(&mut out, &kc);
            append_chars(&mut out, &lit(":**\n"));
            assert(out@ =~= render_entry(k@, node_view(*v)));
            out
        },
        YamlNode::Scalar(s) => {
            let mut out = lit("**");
            append_chars(&mut out, &kc);
            append_chars(&mut out, &lit(":** "));
            append_chars(&mut out, &scalar_text_exec(s));
            append_chars(&mut out, &lit("\n"));
            assert(out@ =~= render_entry(k@, node_view(*v)));
            out
        },
        YamlNode::List(items) => render_list(&kc, items),
        YamlNode::Nested => Vec::new(),
    }
}

/// Render the top-level keys of a frontmatter YAML source as markdown
/// lines; empty unless the source is a YAML mapping.
pub fn render_markdown(fm: &str) -> (r: String)
    ensures
        r@ == render_markdown_spec(fm@),
{
    match yaml_entries(fm) {
        None => String::new(),
        Some(es) => {
            let ghost ev = entry_views(es@);
            let mut out: Vec<char> = Vec::new();
            let mut i: usize = 0;
            while i < es.len()
                invariant
                    i <= es@.len(),
                    ev == entry_views(es@),
                    out@ == render_entries(ev, i as int),
                decreases es@.len() - i,
            {
                append_chars(&mut out, &render_entry_exec(&es[i].0, &es[i].1));
                i = i + 1;
            }
            string_of(out.as_slice())
        },
    }
}


// ---------------------------------------------------------------------------
// Content read from a file
// ---------------------------------------------------------------------------

/// A file body is acceptable as unit content unless it opens a frontmatter
/// block whose YAML is not a mapping.
pub open spec fn from_file_ok(c: Seq<char>) -> bool {
    match fm_split(c) {
        Some((y, _b)) => yaml_is_mapping(y),
        None => true,
    }
}

/// Check content read with `--from-file`: a fenced frontmatter block must
/// hold a YAML mapping.
pub fn validate_from_file(body: &str) -> (r: Result<(), String>)
    ensures
        r is Ok <==> from_file_ok(body@),
        r matches Err(e) ==> e@ == "frontmatter in --from-file is not a YAML mapping"@,
{
    let c = chars_of(body);
    match split_frontmatter(&c) {
        Some((y, _b)) => {
            if is_yaml_mapping(&y) {
                Ok(())
            } else {
                Err("frontmatter in --from-file is not a YAML mapping".to_owned())
            }
        },
        None => Ok(()),
    }
}


// ---------------------------------------------------------------------------
// References
// ---------------------------------------------------------------------------

/// The node stored under `key` among `entries` from position `i` on.
pub open spec fn node_from(entries: Seq<(Seq<char>, YamlNodeView)>, key: Seq<char>, i: int) -> Option<YamlNodeView>
    decreases entries.len() - i,
{
    if i < 0 || i >= entries.len() {
        None
    } else if entries[i].0 == key {
        Some(entries[i].1)
    } else {
        node_from(entries, key, i + 1)
    }
}

/// The string items among the first `k` items of a sequence.
pub open spec fn text_items(items: Seq<Option<YamlScalarView>>, k: int) -> Seq<Seq<char>>
    decreases k,
{
    if k <= 0 {
        Seq::empty()
    } else {
        match items[k - 1] {
            Some(YamlScalarView::Text(t)) => text_items(items, k - 1).push(t),
            _ => text_items(items, k - 1),
        }
    }
}

/// The references a unit declares: the string items of its frontmatter's
/// `refs` sequence (or its single string value), in order; none when the
/// content has no frontmatter or no `refs`.
pub open spec fn refs_spec(c: Seq<char>) -> Seq<Seq<char>> {
    match parse_spec(c).0 {
        None => Seq::empty(),
        Some(y) => match yaml_top_nodes(y) {
            None => Seq::empty(),
            Some(es) => match node_from(es, "refs"@, 0) {
                Some(YamlNodeView::List(items)) => text_items(items, items.len() as int),
                Some(YamlNodeView::Scalar(YamlScalarView::Text(t))) => seq![t],
                _ => Seq::empty(),
            },
        },
    }
}

/// The `refs:` entries of a unit's frontmatter (see [`refs_spec`]).
pub fn extract_refs(content: &str) -> (r: Vec<String>)
    ensures
        r@.map_values(|x: String| x@) == refs_spec(content@),
{
    let mut out: Vec<String> = Vec::new();
    let c = chars_of(content);
    let (fm, _body) = parse_chars(&c);
    let y = match fm {
        None => {
            assert(out@.map_values(|x: String| x@) =~= refs_spec(content@));
            return out;
        },
        Some(y) => y,
    };
    let es = match yaml_entries(string_of(y.as_slice()).as_str()) {
        None => {
            assert(out@.map_values(|x: String| x@) =~= refs_spec(content@));
            return out;
        },
        Some(es) => es,
    };
    let ghost ev = entry_views(es@);
    let key = lit("refs");
    let mut i: usize = 0;
    while i < es.len()
        invariant
            i <= es@.len(),
            ev == entry_views(es@),
            yaml_top_nodes(y@) == Some(ev),
            parse_spec(content@).0 == Some(y@),
            key@ == "refs"@,
            node_from(ev, "refs"@, i as int) == node_from(ev, "refs"@, 0),
            out@.len() == 0,
        decreases es@.len() - i,
    {
        if chars_eq(&chars_of(es[i].0.as_str()), &key) {
            match &es[i].1 {
                YamlNode::List(items) => {
                    let ghost iv = items@.map_values(|o: Option<YamlScalar>| item_view(o));
                    let mut j: usize = 0;
                    while j < items.len()
                        invariant
                            j <= items@.len(),
                            iv == items@.map_values(|o: Option<YamlScalar>| item_view(o)),
                            out@.map_values(|x: String| x@) == text_items(iv, j as int),
                        decreases items@.len() - j,
                    {
                        let ghost prev = out@.map_values(|x: String| x@);
                        match &items[j] {
                            Some(YamlScalar::Text(t)) => {
                                out.push(t.clone());
                                assert(out@.map_values(|x: String| x@) =~= prev.push(t@));
                            },
                            _ => {},
                        }
                        j = j + 1;
                    }
                },
                YamlNode::Scalar(YamlScalar::Text(t)) => {
                    out.push(t.clone());
                    assert(out@.map_values(|x: String| x@) =~= seq![t@]);
                },
                _ => {
                    assert(out@.map_values(|x: String| x@) =~= refs_spec(content@));
                },
            }
            return out;
        }
        i = i + 1;
    }
    assert(out@.map_values(|x: String| x@) =~= refs_spec(content@));
    out
}

proof fn lemma_find_first(h: Seq<char>, n: Seq<char>, s: int, i: int)
    requires
        0 <= s <= i,
        text::matches_at(h, n, i),
    ensures
        text::find_from(h, n, s) matches Some(k) && s <= k <= i && text::matches_at(h, n, k) && forall|j: int|
            s <= j < k ==> !text::matches_at(h, n, j),
    decreases i - s,
{
    if !text::matches_at(h, n, s) {
        lemma_find_first(h, n, s + 1, i);
    }
}

/// Content that does not open with `---` and a newline has no frontmatter
/// block.
pub proof fn law_no_block_without_opening_fence(c: Seq<char>)
    requires
        !(c.len() >= 4 && c.subrange(0, 4) == seq!['-', '-', '-', '\n']),
    ensures
        fm_split(c) is None,
{
    assert(seq!['-', '-', '-', '\n'] =~= fence());
}

/// The frontmatter block ends at the first closing fence: for content that
/// opens with `---` and a newline and whose rest holds `\n---\n` somewhere,
/// the split gives a YAML part and a body such that YAML part, fence and
/// body make up the rest, and no `\n---\n` starts inside the YAML part.
pub proof fn law_block_ends_at_first_closing_fence(c: Seq<char>, i: int)
    requires
        c.len() >= 4,
        c.subrange(0, 4) == seq!['-', '-', '-', '\n'],
        0 <= i,
        i + 5 <= c.len() - 4,
        c.skip(4).subrange(i, i + 5) == seq!['\n', '-', '-', '-', '\n'],
    ensures
        fm_split(c) matches Some(yb) && yb.0 + seq!['\n', '-', '-', '-', '\n'] + yb.1 == c.skip(4) && forall|j: int|
            0 <= j < yb.0.len() ==> #[trigger] c.skip(4).subrange(j, j + 5) != seq!['\n', '-', '-', '-', '\n'],
{
    let a = c.skip(4);
    let f = seq!['\n', '-', '-', '-', '\n'];
    assert(f =~= close_fence());
    assert(seq!['-', '-', '-', '\n'] =~= fence());
    assert(text::starts_with(c, fence()));
    assert(text::matches_at(a, f, i));
    lemma_find_first(a, f, 0, i);
    let k = text::find(a, f).unwrap();
    assert(fm_split(c) == Some((a.take(k), a.skip(k + 5))));
    assert(a.subrange(k, k + 5) == f);
    assert(a.take(k) + f + a.skip(k + 5) =~= a);
    assert forall|j: int| 0 <= j < k implies #[trigger] a.subrange(j, j + 5) != f by {
        assert(!text::matches_at(a, f, j));
        assert(j + 5 <= a.len());
    }
}

} // verus!
