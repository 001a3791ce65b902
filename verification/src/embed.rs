//! Embedding-client configuration and the text pre-processing applied to a
//! unit's content before it is embedded.
//!
//! The HTTP call itself (POST `/api/embeddings` to ollama) is I/O and lives
//! with the binaries; what is embedded is decided here.
use vstd::prelude::*;
use crate::text;
use crate::text::{append_chars, chars_of, copy_range, lines_of, starts_with_exec, string_of, trim_chars};
use crate::frontmatter;
use crate::frontmatter::{split_frontmatter};
use crate::store;
use crate::store::path_join_exec;

verus! {

broadcast use vstd::string::group_string_axioms;

/// Default ollama endpoint.
pub const OLLAMA_DEFAULT_URL: &'static str = "http://localhost:11434";
/// Default embedding model.
pub const BGE_M3_MODEL: &'static str = "bge-m3";

/// Configuration of the ollama embedding client.
#[derive(Debug, Clone)]
pub struct OllamaEmbedClient {
    base_url: String,
    model: String,
}

impl OllamaEmbedClient {
    pub closed spec fn spec_base_url(&self) -> Seq<char> {
        self.base_url@
    }

    pub closed spec fn spec_model(&self) -> Seq<char> {
        self.model@
    }

    /// Client for the given endpoint and model.
    pub fn new(base_url: &str, model: &str) -> (r: Self)
        ensures
            r.spec_base_url() == base_url@,
            r.spec_model() == model@,
    {
        OllamaEmbedClient { base_url: base_url.to_owned(), model: model.to_owned() }
    }

    /// bge-m3 against a local ollama at the default URL.
    pub fn bge_m3() -> (r: Self)
        ensures
            r.spec_base_url() == OLLAMA_DEFAULT_URL@,
            r.spec_model() == BGE_M3_MODEL@,
    {
        Self::new(OLLAMA_DEFAULT_URL, BGE_M3_MODEL)
    }

    /// The model name sent with each request.
    pub fn model(&self) -> (r: &str)
        ensures
            r@ == self.spec_model(),
    {
        self.model.as_str()
    }

    /// The ollama base URL.
    pub fn base_url(&self) -> (r: &str)
        ensures
            r@ == self.spec_base_url(),
    {
        self.base_url.as_str()
    }
}

// ---------------------------------------------------------------------------
// Top-level scalar extraction (line scan, no YAML parser)
// ---------------------------------------------------------------------------

/// Strip one pair of matching outer double or single quotes.
pub open spec fn unquote(v: Seq<char>) -> Seq<char> {
    if v.len() >= 2 && v[0] == '"' && v.last() == '"' {
        v.subrange(1, v.len() - 1)
    } else if v.len() >= 2 && v[0] == '\'' && v.last() == '\'' {
        v.subrange(1, v.len() - 1)
    } else {
        v
    }
}

/// Whether a line is indented (starts with a space or a tab).
pub open spec fn indented(l: Seq<char>) -> bool {
    l.len() > 0 && (l[0] == ' ' || l[0] == '\t')
}

/// Scan lines from index `i` for the first unindented `prefix` line.
pub open spec fn scalar_from(ls: Seq<Seq<char>>, prefix: Seq<char>, i: int) -> Option<Seq<char>>
    decreases ls.len() - i,
{
    if i < 0 || i >= ls.len() {
        None
    } else if indented(ls[i]) || !text::starts_with(ls[i], prefix) {
        scalar_from(ls, prefix, i + 1)
    } else {
        let v = text::trim(ls[i].skip(prefix.len() as int));
        if v.len() == 0 {
            None
        } else {
            Some(unquote(v))
        }
    }
}

/// Value of the first unindented `key:` line in `yaml`, trimmed and with
/// matching outer quotes removed; `None` when absent or empty.
pub open spec fn top_level_scalar(yaml: Seq<char>, key: Seq<char>) -> Option<Seq<char>> {
    scalar_from(text::lines(yaml), key.push(':'), 0)
}

fn unquote_exec(v: &Vec<char>) -> (r: Vec<char>)
    ensures
        r@ == unquote(v@),
{
    let n = v.len();
    if n >= 2 && v[0] == '"' && v[n - 1] == '"' {
        copy_range(v, 1, n - 1)
    } else if n >= 2 && v[0] == '\'' && v[n - 1] == '\'' {
        copy_range(v, 1, n - 1)
    } else {
        v.clone()
    }
}

/// Pull a top-level scalar field value out of a YAML mapping with a
/// line-level scan. Handles plain, double-quoted and single-quoted scalars;
/// indented lines are skipped.
pub fn extract_top_level_scalar(yaml: &Vec<char>, key: &Vec<char>) -> (r: Option<Vec<char>>)
    ensures
        r matches Some(v) ==> top_level_scalar(yaml@, key@) == Some(v@),
        r is None ==> top_level_scalar(yaml@, key@) is None,
{
    let mut prefix = key.clone();
    prefix.push(':');
    let ls = lines_of(yaml);
    let ghost lv = text::views(ls@);
    let mut i: usize = 0;
    while i < ls.len()
        invariant
            i <= ls@.len(),
            lv == text::views(ls@),
            lv == text::lines(yaml@),
            prefix@ == key@.push(':'),
            scalar_from(lv, prefix@, i as int) == top_level_scalar(yaml@, key@),
        decreases ls@.len() - i,
    {
        let line = &ls[i];
        assert(lv[i as int] == line@);
        let ind = line.len() > 0 && (line[0] == ' ' || line[0] == '\t');
        if !ind && starts_with_exec(line, &prefix) {
            let rest = copy_range(line, prefix.len(), line.len());
            assert(rest@ =~= line@.skip(prefix@.len() as int));
            let v = trim_chars(&rest);
            if v.len() == 0 {
                return None;
            }
            return Some(unquote_exec(&v));
        }
        i = i + 1;
    }
    None
}

// ---------------------------------------------------------------------------
// Embedding input
// ---------------------------------------------------------------------------

/// `"scope"`.
pub open spec fn scope_key() -> Seq<char> {
    seq!['s', 'c', 'o', 'p', 'e']
}

/// The text embedded for a unit: content without its leading frontmatter
/// envelope, with the `scope:` value (when present and non-empty) and a
/// blank line prepended. Content without a well-formed fenced block is
/// embedded unchanged.
pub open spec fn embed_input_spec(c: Seq<char>) -> Seq<char> {
    match frontmatter::fm_split(c) {
        None => c,
        Some((y, b)) => match top_level_scalar(y, scope_key()) {
            Some(s) => if s.len() > 0 {
                s + seq!['\n', '\n'] + b
            } else {
                b
            },
            None => b,
        },
    }
}

/// Build the text used for semantic embedding from a unit's stored content.
pub fn embed_input(content: &str) -> (r: String)
    ensures
        r@ == embed_input_spec(content@),
{
    let c = chars_of(content);
    match split_frontmatter(&c) {
        None => string_of(c.as_slice()),
        Some((y, b)) => {
            let key: Vec<char> = vec!['s', 'c', 'o', 'p', 'e'];
            assert(key@ =~= scope_key());
            match extract_top_level_scalar(&y, &key) {
                Some(s) => {
                    if s.len() > 0 {
                        let mut out = s.clone();
                        out.push('\n');
                        out.push('\n');
                        append_chars(&mut out, &b);
                        assert(out@ =~= s@ + seq!['\n', '\n'] + b@);
                        string_of(out.as_slice())
                    } else {
                        string_of(b.as_slice())
                    }
                },
                None => string_of(b.as_slice()),
            }
        },
    }
}


// ---------------------------------------------------------------------------
// Vector store location
// ---------------------------------------------------------------------------

/// Where the vector indexes of `model` live: `SIMARIS_VEC_DIR` when set,
/// else `vec/<model>` under `SIMARIS_HOME`, else under `~/.simaris`.
pub open spec fn vec_dir_spec(
    vec_dir: Option<Seq<char>>,
    simaris_home: Option<Seq<char>>,
    home: Seq<char>,
    model: Seq<char>,
) -> Seq<char> {
    match vec_dir {
        Some(v) => v,
        None => {
            let root = match simaris_home {
                Some(h) => h,
                None => store::path_join(home, ".simaris"@),
            };
            store::path_join(store::path_join(root, "vec"@), model)
        },
    }
}

/// The vector store's directories for `model`: the table directory and the
/// full-text index under it (`tantivy`).
pub fn vec_dirs(vec_dir: Option<&str>, simaris_home: Option<&str>, home: &str, model: &str) -> (r: (
    String,
    String,
))
    ensures
        r.0@ == vec_dir_spec(
            match vec_dir {
                Some(v) => Some(v@),
                None => None,
            },
            match simaris_home {
                Some(h) => Some(h@),
                None => None,
            },
            home@,
            model@,
        ),
        r.1@ == store::path_join(r.0@, "tantivy"@),
{
    let base: Vec<char> = match vec_dir {
        Some(v) => chars_of(v),
        None => {
            let root = match simaris_home {
                Some(h) => chars_of(h),
                None => path_join_exec(&chars_of(home), ".simaris"),
            };
            path_join_exec(&path_join_exec(&root, "vec"), model)
        },
    };
    let tantivy = path_join_exec(&base, "tantivy");
    (string_of(base.as_slice()), string_of(tantivy.as_slice()))
}

/// The text of an optional string argument.
pub open spec fn str_opt(o: Option<&str>) -> Option<Seq<char>> {
    match o {
        Some(v) => Some(v@),
        None => None,
    }
}

/// The value when given, else the default.
pub open spec fn or_default(v: Option<Seq<char>>, d: Seq<char>) -> Seq<char> {
    match v {
        Some(x) => x,
        None => d,
    }
}

/// Where hybrid search finds its vector table, its full-text index and its
/// embedding model.
#[derive(Debug, Clone)]
pub struct HybridConfig {
    pub lance_dir: String,
    pub tantivy_dir: String,
    pub model: String,
    pub ollama_url: String,
}

impl HybridConfig {
    /// The configuration selected by `SIMARIS_VEC_MODEL` (default bge-m3),
    /// `SIMARIS_OLLAMA_URL` (default local ollama), `SIMARIS_VEC_DIR`,
    /// `SIMARIS_HOME` and the home directory, given as the values found.
    /// The home directory is needed only when neither directory variable is
    /// set; without it there is no configuration. Whether the indexes exist
    /// there is for the caller to look.
    pub fn locate(
        model: Option<&str>,
        ollama_url: Option<&str>,
        vec_dir: Option<&str>,
        simaris_home: Option<&str>,
        home: Option<&str>,
    ) -> (r: Result<HybridConfig, String>)
        ensures
            r is Err <==> (vec_dir is None && simaris_home is None && home is None),
            r matches Err(e) ==> e@ == "no $HOME for vec dir discovery"@,
            r matches Ok(c) ==> {
                let m = or_default(str_opt(model), BGE_M3_MODEL@);
                &&& c.model@ == m
                &&& c.ollama_url@ == or_default(str_opt(ollama_url), OLLAMA_DEFAULT_URL@)
                &&& c.lance_dir@ == vec_dir_spec(
                    str_opt(vec_dir),
                    str_opt(simaris_home),
                    or_default(str_opt(home), Seq::empty()),
                    m,
                )
                &&& c.tantivy_dir@ == store::path_join(c.lance_dir@, "tantivy"@)
            },
    {
        if vec_dir.is_none() && simaris_home.is_none() && home.is_none() {
            return Err("no $HOME for vec dir discovery".to_owned());
        }
        let m: &str = match model {
            Some(v) => v,
            None => BGE_M3_MODEL,
        };
        let url: &str = match ollama_url {
            Some(v) => v,
            None => OLLAMA_DEFAULT_URL,
        };
        let h: &str = match home {
            Some(v) => v,
            None => "",
        };
        proof {
            reveal_strlit("");
        }
        let (lance_dir, tantivy_dir) = vec_dirs(vec_dir, simaris_home, h, m);
        Ok(HybridConfig { lance_dir, tantivy_dir, model: m.to_owned(), ollama_url: url.to_owned() })
    }
}

} // verus!
