//! Rules of the store that do not need the database: where its files live,
//! which slugs are acceptable, and how an id-or-slug argument resolves.
use vstd::prelude::*;
use crate::text;
use crate::text::{append_chars, chars_of, ends_with_exec, is_whitespace, lit, sort_strings, starts_with_exec, string_of};
use crate::lint::{decimal_chars, decimal_chars_u64};
use crate::lint;
use crate::tag_guard;
use crate::tag_guard::to_lowercase;
use crate::wordset::contains_word;
use crate::display;
use crate::display::first_nonblank;
use crate::frontmatter;
use crate::frontmatter::parse_chars;
use vstd::string::StringSliceAdditionalSpecFns;

verus! {

broadcast use vstd::string::group_string_axioms;

/// Longest slug accepted, in bytes.
pub const MAX_SLUG_LEN: usize = 64;

// ---------------------------------------------------------------------------
// Locations
// ---------------------------------------------------------------------------

/// `base` joined with `name`, as `PathBuf::join` does on Unix: an absolute
/// `name` (one that starts with `/`) replaces `base`; otherwise a separator
/// is added unless `base` is empty or already ends with one.
pub open spec fn path_join(base: Seq<char>, name: Seq<char>) -> Seq<char> {
    if name.len() > 0 && name[0] == '/' {
        name
    } else if base.len() == 0 {
        name
    } else if base.last() == '/' {
        base + name
    } else {
        base + seq!['/'] + name
    }
}

pub(crate) fn path_join_exec(base: &Vec<char>, name: &str) -> (r: Vec<char>)
    ensures
        r@ == path_join(base@, name@),
{
    let n = lit(name);
    if n.len() > 0 && n[0] == '/' {
        return n;
    }
    let mut out = base.clone();
    if base.len() > 0 && base[base.len() - 1] != '/' {
        out.push('/');
    }
    append_chars(&mut out, &n);
    assert(out@ =~= path_join(base@, name@));
    out
}

/// The data directory: `$SIMARIS_HOME` when set, else `.simaris` under the
/// home directory; under that, `dev` when `$SIMARIS_ENV` is `dev`.
pub open spec fn data_dir_spec(simaris_home: Option<Seq<char>>, home: Seq<char>, env: Option<Seq<char>>) -> Seq<char> {
    let base = match simaris_home {
        Some(h) => h,
        None => path_join(home, ".simaris"@),
    };
    if env == Some("dev"@) {
        path_join(base, "dev"@)
    } else {
        base
    }
}

pub open spec fn opt_str(o: Option<&str>) -> Option<Seq<char>> {
    match o {
        Some(s) => Some(s@),
        None => None,
    }
}

/// The data directory from the two environment variables and the home
/// directory (see [`data_dir_spec`]).
pub fn data_dir(simaris_home: Option<&str>, home: &str, env: Option<&str>) -> (r: String)
    ensures
        r@ == data_dir_spec(opt_str(simaris_home), home@, opt_str(env)),
{
    let base = match simaris_home {
        Some(h) => chars_of(h),
        None => path_join_exec(&chars_of(home), ".simaris"),
    };
    let is_dev = match env {
        Some(e) => text::str_eq(e, "dev"),
        None => false,
    };
    if is_dev {
        string_of(path_join_exec(&base, "dev").as_slice())
    } else {
        string_of(base.as_slice())
    }
}

/// The database file inside the data directory.
pub fn db_path(data_dir: &str) -> (r: String)
    ensures
        r@ == path_join(data_dir@, "sanctuary.db"@),
{
    string_of(path_join_exec(&chars_of(data_dir), "sanctuary.db").as_slice())
}

/// The backup directory inside the data directory.
pub fn backup_dir(data_dir: &str) -> (r: String)
    ensures
        r@ == path_join(data_dir@, "backups"@),
{
    string_of(path_join_exec(&chars_of(data_dir), "backups").as_slice())
}

/// The directory prefix of entries directly inside `dir`: `dir` itself
/// when it is empty or ends with a separator, else `dir` and a separator.
pub open spec fn entry_prefix(dir: Seq<char>) -> Seq<char> {
    if dir.len() == 0 || dir.last() == '/' {
        dir
    } else {
        dir.push('/')
    }
}

/// The backups live beside the database: for any data directory, the
/// database file and the backup directory are entries of that same
/// directory, their paths differing only in the last component.
pub proof fn law_backups_beside_database(dir: Seq<char>)
    ensures
        path_join(dir, "sanctuary.db"@) == entry_prefix(dir) + "sanctuary.db"@,
        path_join(dir, "backups"@) == entry_prefix(dir) + "backups"@,
{
    reveal_strlit("sanctuary.db");
    reveal_strlit("backups");
    assert(dir + seq!['/'] + "sanctuary.db"@ =~= dir.push('/') + "sanctuary.db"@);
    assert(dir + seq!['/'] + "backups"@ =~= dir.push('/') + "backups"@);
    assert(seq![] + "sanctuary.db"@ =~= "sanctuary.db"@);
}

// ---------------------------------------------------------------------------
// Slugs
// ---------------------------------------------------------------------------

pub open spec fn is_hex_char(c: char) -> bool {
    ('0' <= c && c <= '9') || ('a' <= c && c <= 'f') || ('A' <= c && c <= 'F')
}

/// Hyphenated UUID text: 36 characters, hyphens at positions 8, 13, 18
/// and 23, hexadecimal digits (either case) everywhere else.
pub open spec fn hyphenated_uuid(s: Seq<char>) -> bool {
    &&& s.len() == 36
    &&& forall|i: int|
        0 <= i < 36 ==> if i == 8 || i == 13 || i == 18 || i == 23 {
            #[trigger] s[i] == '-'
        } else {
            is_hex_char(s[i])
        }
}

/// `uuid::Uuid::parse_str` on a 36-byte string: its source accepts such
/// input exactly when it is hyphenated UUID text (hyphens at 8, 13, 18,
/// 23, hexadecimal digits of either case elsewhere).
#[verifier::external_body]
fn parses_as_uuid(s: &str) -> (r: bool)
    requires
        s.len() == 36,
    ensures
        r == hyphenated_uuid(s@),
{
    uuid::Uuid::parse_str(s).is_ok()
}

pub open spec fn slug_char(c: char) -> bool {
    ('a' <= c && c <= 'z') || ('0' <= c && c <= '9') || c == '_' || c == '-'
}

/// The first character of `s` that is not allowed in a slug, if any.
pub open spec fn first_bad_char(s: Seq<char>, i: int) -> Option<char>
    decreases s.len() - i,
{
    if i < 0 || i >= s.len() {
        None
    } else if !slug_char(s[i]) {
        Some(s[i])
    } else {
        first_bad_char(s, i + 1)
    }
}

/// Why a slug is refused (`None` when it is accepted): empty; longer than
/// 64 bytes; shaped like a UUID; not starting with `[a-z_]`; holding a
/// character outside `[a-z0-9_-]`.
pub open spec fn slug_error(s: Seq<char>, bytes: nat) -> Option<Seq<char>> {
    if bytes == 0 {
        Some("Slug must not be empty"@)
    } else if bytes > MAX_SLUG_LEN {
        Some("Slug exceeds 64-char cap (got "@ + lint::decimal(bytes) + ")"@)
    } else if bytes == 36 && hyphenated_uuid(s) {
        Some("Slug must not be UUID-shaped: '"@ + s + "'"@)
    } else if !(('a' <= s[0] && s[0] <= 'z') || s[0] == '_') {
        Some("Slug first char must be [a-z_], got '"@ + seq![s[0]] + "' in '"@ + s + "'"@)
    } else {
        match first_bad_char(s, 0) {
            Some(c) => Some("Slug char '"@ + seq![c] + "' not in [a-z0-9_-] (slug '"@ + s + "')"@),
            None => None,
        }
    }
}

proof fn lemma_no_bad_char(s: Seq<char>, i: int)
    requires
        0 <= i,
        first_bad_char(s, i) is None,
    ensures
        forall|k: int| i <= k < s.len() ==> #[trigger] slug_char(s[k]),
    decreases s.len() - i,
{
    if i < s.len() {
        lemma_no_bad_char(s, i + 1);
    }
}

/// Every character of an accepted slug is in `[a-z0-9_-]`; in particular
/// none is whitespace.
pub proof fn lemma_accepted_slug_chars(s: Seq<char>, bytes: nat)
    requires
        slug_error(s, bytes) is None,
    ensures
        forall|k: int| 0 <= k < s.len() ==> #[trigger] slug_char(s[k]),
        forall|k: int| 0 <= k < s.len() ==> !text::is_ws(#[trigger] s[k]),
{
    lemma_no_bad_char(s, 0);
    assert forall|k: int| 0 <= k < s.len() implies !text::is_ws(#[trigger] s[k]) by {
        assert(slug_char(s[k]));
    }
}

/// Check a slug against the naming rules.
pub fn validate_slug(slug: &str) -> (r: Result<(), String>)
    ensures
        match slug_error(slug@, slug.len() as nat) {
            None => r is Ok,
            Some(m) => r matches Err(e) && e@ == m,
        },
{
    let n = slug.len();
    if n == 0 {
        return Err("Slug must not be empty".to_owned());
    }
    if n > MAX_SLUG_LEN {
        let mut m = lit("Slug exceeds 64-char cap (got ");
        append_chars(&mut m, &decimal_chars(n));
        append_chars(&mut m, &lit(")"));
        return Err(string_of(m.as_slice()));
    }
    if n == 36 && parses_as_uuid(slug) {
        let mut m = lit("Slug must not be UUID-shaped: '");
        append_chars(&mut m, &chars_of(slug));
        append_chars(&mut m, &lit("'"));
        return Err(string_of(m.as_slice()));
    }
    let v = chars_of(slug);
    proof {
        lemma_nonempty_chars(slug);
    }
    let first = v[0];
    if !(('a' <= first && first <= 'z') || first == '_') {
        let mut m = lit("Slug first char must be [a-z_], got '");
        m.push(first);
        append_chars(&mut m, &lit("' in '"));
        append_chars(&mut m, &v);
        append_chars(&mut m, &lit("'"));
        assert(m@ =~= "Slug first char must be [a-z_], got '"@ + seq![first] + "' in '"@ + slug@ + "'"@);
        return Err(string_of(m.as_slice()));
    }
    let mut i: usize = 0;
    while i < v.len()
        invariant
            i <= v@.len(),
            v@ == slug@,
            n == slug.len(),
            0 < n <= MAX_SLUG_LEN,
            !(n == 36 && hyphenated_uuid(slug@)),
            slug@.len() > 0,
            ('a' <= slug@[0] && slug@[0] <= 'z') || slug@[0] == '_',
            first_bad_char(slug@, i as int) == first_bad_char(slug@, 0),
        decreases v@.len() - i,
    {
        let c = v[i];
        if !(('a' <= c && c <= 'z') || ('0' <= c && c <= '9') || c == '_' || c == '-') {
            let mut m = lit("Slug char '");
            m.push(c);
            append_chars(&mut m, &lit("' not in [a-z0-9_-] (slug '"));
            append_chars(&mut m, &v);
            append_chars(&mut m, &lit("')"));
            assert(m@ =~= "Slug char '"@ + seq![c] + "' not in [a-z0-9_-] (slug '"@ + slug@ + "')"@);
            return Err(string_of(m.as_slice()));
        }
        i = i + 1;
    }
    Ok(())
}

/// A string of positive byte length has at least one character.
proof fn lemma_nonempty_chars(s: &str)
    requires
        s.len() > 0,
    ensures
        s@.len() > 0,
{
    if s@.len() == 0 {
        assert(s.spec_bytes() == vstd::utf8::encode_utf8(s@));
        assert(vstd::utf8::encode_utf8(s@).len() == 0);
    }
}

// ---------------------------------------------------------------------------
// Resolving ids and slugs
// ---------------------------------------------------------------------------

/// The unit an id-or-slug argument names, given what the store reported:
/// the unit with that id if there is one, else the unit the slug points
/// to, else an error naming the argument. An empty argument names
/// nothing.
pub open spec fn resolve_spec(
    input: Seq<char>,
    unit_hit: Option<Seq<char>>,
    slug_hit: Option<Seq<char>>,
) -> Result<Seq<char>, Seq<char>> {
    if input.len() == 0 {
        Err("No unit or slug matches ''"@)
    } else {
        match unit_hit {
            Some(id) => Ok(id),
            None => match slug_hit {
                Some(id) => Ok(id),
                None => Err("No unit or slug matches '"@ + input + "'"@),
            },
        }
    }
}

pub open spec fn opt_string(o: Option<String>) -> Option<Seq<char>> {
    match o {
        Some(s) => Some(s@),
        None => None,
    }
}

/// Resolve an id-or-slug argument from the store's answers to "is there a
/// unit with this id" and "which unit does this slug name".
pub fn resolve_choice(input: &str, unit_hit: Option<String>, slug_hit: Option<String>) -> (r: Result<
    String,
    String,
>)
    ensures
        match resolve_spec(input@, opt_string(unit_hit), opt_string(slug_hit)) {
            Ok(id) => r matches Ok(x) && x@ == id,
            Err(m) => r matches Err(e) && e@ == m,
        },
{
    let v = chars_of(input);
    if v.len() == 0 {
        return Err("No unit or slug matches ''".to_owned());
    }
    match unit_hit {
        Some(id) => Ok(id),
        None => match slug_hit {
            Some(id) => Ok(id),
            None => {
                let mut m = lit("No unit or slug matches '");
                append_chars(&mut m, &v);
                append_chars(&mut m, &lit("'"));
                assert(m@ =~= "No unit or slug matches '"@ + input@ + "'"@);
                Err(string_of(m.as_slice()))
            },
        },
    }
}


// ---------------------------------------------------------------------------
// Automatic links
// ---------------------------------------------------------------------------

/// Fewest shared tags that make two units related.
pub const AUTO_LINK_MIN_SHARED: usize = 2;

/// Each tag lowercased.
pub open spec fn lowered_tags(tags: Seq<Seq<char>>) -> Seq<Seq<char>> {
    tags.map_values(|t: Seq<char>| tag_guard::lowercase(t))
}

/// How many of `cand`'s tags, lowercased, occur in `lowered` (a repeated
/// candidate tag counts each time).
pub open spec fn shared_tag_count(lowered: Seq<Seq<char>>, cand: Seq<Seq<char>>) -> nat
    decreases cand.len(),
{
    if cand.len() == 0 {
        0
    } else {
        shared_tag_count(lowered, cand.drop_last()) + if lowered.contains(
            tag_guard::lowercase(cand.last()),
        ) {
            1nat
        } else {
            0nat
        }
    }
}

pub open spec fn tag_views(tags: Seq<String>) -> Seq<Seq<char>> {
    tags.map_values(|t: String| t@)
}

/// Indices, in order, of the first `k` candidates that share at least two
/// tags with `lowered`.
pub open spec fn link_targets_spec(lowered: Seq<Seq<char>>, cands: Seq<Vec<String>>, k: int) -> Seq<usize>
    decreases k,
{
    if k <= 0 {
        Seq::empty()
    } else {
        let prev = link_targets_spec(lowered, cands, k - 1);
        if shared_tag_count(lowered, tag_views(cands[k - 1]@)) >= AUTO_LINK_MIN_SHARED {
            prev.push((k - 1) as usize)
        } else {
            prev
        }
    }
}

fn lowered_chars(tags: &Vec<String>) -> (r: Vec<Vec<char>>)
    ensures
        text::views(r@) == lowered_tags(tag_views(tags@)),
{
    let mut out: Vec<Vec<char>> = Vec::new();
    let mut i: usize = 0;
    while i < tags.len()
        invariant
            i <= tags@.len(),
            out@.len() == i,
            forall|k: int| 0 <= k < i ==> #[trigger] out@[k]@ == tag_guard::lowercase(tags@[k]@),
        decreases tags@.len() - i,
    {
        out.push(chars_of(to_lowercase(tags[i].as_str()).as_str()));
        i = i + 1;
    }
    assert(text::views(out@) =~= lowered_tags(tag_views(tags@)));
    out
}

/// How many of `cand`'s tags, lowercased, are among `lowered`.
fn shared_tags(lowered: &Vec<Vec<char>>, cand: &Vec<String>) -> (r: usize)
    ensures
        r == shared_tag_count(text::views(lowered@), tag_views(cand@)),
{
    let ghost cv = tag_views(cand@);
    let mut n: usize = 0;
    let mut i: usize = 0;
    while i < cand.len()
        invariant
            i <= cand@.len(),
            cv == tag_views(cand@),
            n == shared_tag_count(text::views(lowered@), cv.take(i as int)),
            n <= i,
        decreases cand@.len() - i,
    {
        assert(cv.take(i + 1).drop_last() =~= cv.take(i as int));
        let t = chars_of(to_lowercase(cand[i].as_str()).as_str());
        if contains_word(lowered, &t) {
            n = n + 1;
        }
        i = i + 1;
    }
    assert(cv.take(i as int) =~= cv);
    n
}

/// Which candidates a unit with `unit_tags` gets a `related_to` link to:
/// those sharing at least two tags with it, compared case-insensitively.
/// A unit with fewer than two tags links to nothing.
pub fn auto_link_targets(unit_tags: &Vec<String>, candidates: &Vec<Vec<String>>) -> (r: Vec<usize>)
    ensures
        unit_tags@.len() < AUTO_LINK_MIN_SHARED ==> r@.len() == 0,
        unit_tags@.len() >= AUTO_LINK_MIN_SHARED ==> r@ == link_targets_spec(
            lowered_tags(tag_views(unit_tags@)),
            candidates@,
            candidates@.len() as int,
        ),
{
    let mut out: Vec<usize> = Vec::new();
    if unit_tags.len() < AUTO_LINK_MIN_SHARED {
        return out;
    }
    let lowered = lowered_chars(unit_tags);
    let ghost lw = lowered_tags(tag_views(unit_tags@));
    let mut i: usize = 0;
    while i < candidates.len()
        invariant
            i <= candidates@.len(),
            text::views(lowered@) == lw,
            out@ == link_targets_spec(lw, candidates@, i as int),
        decreases candidates@.len() - i,
    {
        if shared_tags(&lowered, &candidates[i]) >= AUTO_LINK_MIN_SHARED {
            out.push(i);
        }
        i = i + 1;
    }
    out
}


// ---------------------------------------------------------------------------
// Units waiting for structure
// ---------------------------------------------------------------------------

/// Smallest body, in bytes, worth a structured rewrite.
pub const UNSTRUCTURED_MIN_BYTES: usize = 200;

/// A unit needs a structured rewrite when its body has at least
/// [`UNSTRUCTURED_MIN_BYTES`] bytes and no frontmatter block parses from it;
/// the scan then shows its first non-blank line, trimmed.
pub fn unstructured_first_line(content: &str) -> (r: Option<String>)
    ensures
        r is Some <==> (content.len() >= UNSTRUCTURED_MIN_BYTES && frontmatter::parse_spec(
            content@,
        ).0 is None),
        r matches Some(l) ==> l@ == display::first_nonblank_from(text::lines(content@), 0),
{
    if content.len() < UNSTRUCTURED_MIN_BYTES {
        return None;
    }
    let c = chars_of(content);
    let (fm, _body) = parse_chars(&c);
    if fm.is_some() {
        return None;
    }
    let l = first_nonblank(&c);
    Some(string_of(l.as_slice()))
}


// ---------------------------------------------------------------------------
// Backups
// ---------------------------------------------------------------------------

/// Backups kept when a new one is made.
pub const BACKUPS_KEPT: usize = 10;

/// A file name the store made as a backup: `sanctuary-*.db`.
pub open spec fn is_backup_name(n: Seq<char>) -> bool {
    text::starts_with(n, "sanctuary-"@) && text::ends_with(n, ".db"@)
}

/// The backup names among the first `k` names, in order.
pub open spec fn backup_names_spec(ns: Seq<Seq<char>>, k: int) -> Seq<Seq<char>>
    decreases k,
{
    if k <= 0 {
        Seq::empty()
    } else if is_backup_name(ns[k - 1]) {
        backup_names_spec(ns, k - 1).push(ns[k - 1])
    } else {
        backup_names_spec(ns, k - 1)
    }
}

fn backup_name_exec(n: &String) -> (r: bool)
    ensures
        r == is_backup_name(n@),
{
    let c = chars_of(n.as_str());
    starts_with_exec(&c, &lit("sanctuary-")) && ends_with_exec(&c, &lit(".db"))
}

/// The backup files among the names of a directory's entries, in
/// ascending order.
pub fn list_backup_names(names: &Vec<String>) -> (r: Vec<String>)
    ensures
        text::string_views(r@).to_multiset() == backup_names_spec(
            text::string_views(names@),
            names@.len() as int,
        ).to_multiset(),
        text::strings_sorted(r@),
{
    let ghost nv = text::string_views(names@);
    let mut out: Vec<String> = Vec::new();
    let mut i: usize = 0;
    while i < names.len()
        invariant
            i <= names@.len(),
            nv == text::string_views(names@),
            text::string_views(out@) == backup_names_spec(nv, i as int),
        decreases names@.len() - i,
    {
        if backup_name_exec(&names[i]) {
            let ghost prev = text::string_views(out@);
            out.push(names[i].clone());
            assert(text::string_views(out@) =~= prev.push(nv[i as int]));
        }
        i = i + 1;
    }
    sort_strings(out)
}

/// Which backups to delete so that only the newest `keep` remain: the
/// oldest of the sorted backup names (timestamps sort chronologically).
pub fn backups_to_prune(sorted_backups: &Vec<String>, keep: usize) -> (r: Vec<String>)
    ensures
        sorted_backups@.len() <= keep ==> r@.len() == 0,
        sorted_backups@.len() > keep ==> text::string_views(r@) == text::string_views(
            sorted_backups@,
        ).take(sorted_backups@.len() - keep),
{
    let mut out: Vec<String> = Vec::new();
    if sorted_backups.len() <= keep {
        return out;
    }
    let n = sorted_backups.len() - keep;
    let mut i: usize = 0;
    while i < n
        invariant
            n == sorted_backups@.len() - keep,
            i <= n,
            text::string_views(out@) == text::string_views(sorted_backups@).take(i as int),
        decreases n - i,
    {
        let ghost prev = text::string_views(out@);
        let c = sorted_backups[i].clone();
        out.push(c);
        assert(text::string_views(out@) =~= prev.push(sorted_backups@[i as int]@));
        assert(text::string_views(sorted_backups@).take(i + 1) =~= text::string_views(
            sorted_backups@,
        ).take(i as int).push(sorted_backups@[i as int]@));
        i = i + 1;
    }
    out
}

// ---------------------------------------------------------------------------
// Frontmatter references
// ---------------------------------------------------------------------------

/// A `refs:` entry names its target by its first word; a trailing hint
/// such as `slug (uuid…)` is ignored. An entry without a word names itself.
pub open spec fn ref_token_spec(e: Seq<char>) -> Seq<char> {
    let a = text::ws_end_from(e, 0);
    if a >= e.len() {
        e
    } else {
        e.subrange(a, word_end(e, a))
    }
}

/// End of the run of non-whitespace starting at `i`.
pub open spec fn word_end(e: Seq<char>, i: int) -> int
    decreases e.len() - i,
{
    if 0 <= i < e.len() && !text::is_ws(e[i]) {
        word_end(e, i + 1)
    } else {
        i
    }
}

proof fn lemma_word_end_bounds(e: Seq<char>, i: int)
    requires
        0 <= i <= e.len(),
    ensures
        i <= word_end(e, i) <= e.len(),
    decreases e.len() - i,
{
    if i < e.len() && !text::is_ws(e[i]) {
        lemma_word_end_bounds(e, i + 1);
    }
}

/// The token a `refs:` entry is resolved by.
pub fn ref_token(entry: &str) -> (r: String)
    ensures
        r@ == ref_token_spec(entry@),
{
    let e = chars_of(entry);
    let mut a: usize = 0;
    while a < e.len() && is_whitespace(e[a])
        invariant
            a <= e@.len(),
            e@ == entry@,
            text::ws_end_from(e@, a as int) == text::ws_end_from(e@, 0),
        decreases e@.len() - a,
    {
        a = a + 1;
    }
    if a >= e.len() {
        return entry.to_owned();
    }
    let mut b: usize = a;
    while b < e.len() && !is_whitespace(e[b])
        invariant
            a <= b <= e@.len(),
            e@ == entry@,
            word_end(e@, b as int) == word_end(e@, a as int),
        decreases e@.len() - b,
    {
        b = b + 1;
    }
    let w = text::copy_range(&e, a, b);
    string_of(w.as_slice())
}


// ---------------------------------------------------------------------------
// Migration to UUID keys
// ---------------------------------------------------------------------------

/// Row counts of the old and the rebuilt tables after the id migration.
#[derive(Debug, Clone, Copy)]
pub struct MigrationCounts {
    pub old_units: i64,
    pub new_units: i64,
    pub old_inbox: i64,
    pub new_inbox: i64,
    pub old_links: i64,
    pub new_links: i64,
    pub old_marks: i64,
    pub new_marks: i64,
}

/// Whether a migration may be committed: units and inbox items all
/// carried over; links and marks may lose orphans but not all of them.
pub open spec fn migration_error(c: MigrationCounts) -> Option<Seq<char>> {
    if c.old_units != c.new_units {
        Some("Migration verification failed: units count mismatch ("@ + int_text(c.old_units as int)
            + " vs "@ + int_text(c.new_units as int) + ")"@)
    } else if c.old_inbox != c.new_inbox {
        Some("Migration verification failed: inbox count mismatch ("@ + int_text(c.old_inbox as int)
            + " vs "@ + int_text(c.new_inbox as int) + ")"@)
    } else if c.old_links > 0 && c.new_links == 0 {
        Some("Migration verification failed: all "@ + int_text(c.old_links as int)
            + " links were lost"@)
    } else if c.old_marks > 0 && c.new_marks == 0 {
        Some("Migration verification failed: all "@ + int_text(c.old_marks as int)
            + " marks were lost"@)
    } else {
        None
    }
}

/// Decimal text of an integer, with `-` for a negative one.
pub open spec fn int_text(v: int) -> Seq<char> {
    if v < 0 {
        "-"@ + lint::decimal((-v) as nat)
    } else {
        lint::decimal(v as nat)
    }
}

fn int_chars(v: i64) -> (r: Vec<char>)
    ensures
        r@ == int_text(v as int),
{
    if v < 0 {
        let m: u64 = if v == i64::MIN {
            9223372036854775808u64
        } else {
            (-v) as u64
        };
        assert(m as int == -(v as int));
        let mut out = lit("-");
        append_chars(&mut out, &decimal_chars_u64(m));
        out
    } else {
        decimal_chars_u64(v as u64)
    }
}

/// Check the row counts of a finished id migration (see
/// [`migration_error`]).
pub fn check_migration(c: &MigrationCounts) -> (r: Result<(), String>)
    ensures
        match migration_error(*c) {
            None => r is Ok,
            Some(m) => r matches Err(e) && e@ == m,
        },
{
    let mut m: Vec<char>;
    if c.old_units != c.new_units {
        m = lit("Migration verification failed: units count mismatch (");
        append_chars(&mut m, &int_chars(c.old_units));
        append_chars(&mut m, &lit(" vs "));
        append_chars(&mut m, &int_chars(c.new_units));
        append_chars(&mut m, &lit(")"));
    } else if c.old_inbox != c.new_inbox {
        m = lit("Migration verification failed: inbox count mismatch (");
        append_chars(&mut m, &int_chars(c.old_inbox));
        append_chars(&mut m, &lit(" vs "));
        append_chars(&mut m, &int_chars(c.new_inbox));
        append_chars(&mut m, &lit(")"));
    } else if c.old_links > 0 && c.new_links == 0 {
        m = lit("Migration verification failed: all ");
        append_chars(&mut m, &int_chars(c.old_links));
        append_chars(&mut m, &lit(" links were lost"));
    } else if c.old_marks > 0 && c.new_marks == 0 {
        m = lit("Migration verification failed: all ");
        append_chars(&mut m, &int_chars(c.old_marks));
        append_chars(&mut m, &lit(" marks were lost"));
    } else {
        return Ok(());
    }
    assert(Some(m@) == migration_error(*c));
    Err(string_of(m.as_slice()))
}

} // verus!
