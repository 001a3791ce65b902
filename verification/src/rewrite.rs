//! Buffer logic of `simaris rewrite <id>`: compose the editor buffer (a
//! `#`-comment header plus a type-aware skeleton and/or the existing body),
//! strip the header comments from what the editor hands back, and decide
//! whether the edit changed anything.
//!
//! Spawning the editor and the temp-file round trip are I/O and stay with
//! the binary.
use vstd::prelude::*;
use crate::text;
use crate::text::{append_chars, chars_of, copy_range, join_exec, lines_of, lit, starts_with_exec, str_eq, string_of, trim_end_chars, trim_start_chars, trim_chars};
use crate::frontmatter;
use crate::frontmatter::{parse_chars};

verus! {

broadcast use vstd::string::group_string_axioms;

// ---------------------------------------------------------------------------
// Skeletons
// ---------------------------------------------------------------------------

/// Type-aware empty skeleton (YAML frontmatter only, body goes below).
/// Types without a schema (preference, idea, anything else) get `""`.
pub open spec fn skeleton_spec(t: Seq<char>) -> Seq<char> {
    if t == "procedure"@ {
        "---\ntrigger: \"\"\ncheck: \"\"\ncadence: \"\"\ncaveat: \"\"\nprereq: []\nrefs: []\n---\n\n"@
    } else if t == "aspect"@ {
        "---\nrole: \"\"\ndispatches_to: []\nhandles_directly: []\nrefs: []\n---\n\n"@
    } else if t == "fact"@ {
        "---\nscope: \"\"\nevidence: \"\"\nrefs: []\n---\n\n"@
    } else if t == "principle"@ {
        "---\ntension: \"\"\nrefs: []\n---\n\n"@
    } else if t == "lesson"@ {
        "---\ncontext: \"\"\nscope: \"\"\nrefs: []\n---\n\n"@
    } else {
        Seq::empty()
    }
}

/// Return a type-aware empty skeleton for `unit_type`.
pub fn skeleton_for(unit_type: &str) -> (r: String)
    ensures
        r@ == skeleton_spec(unit_type@),
{
    if str_eq(unit_type, "procedure") {
        "---\ntrigger: \"\"\ncheck: \"\"\ncadence: \"\"\ncaveat: \"\"\nprereq: []\nrefs: []\n---\n\n".to_owned()
    } else if str_eq(unit_type, "aspect") {
        "---\nrole: \"\"\ndispatches_to: []\nhandles_directly: []\nrefs: []\n---\n\n".to_owned()
    } else if str_eq(unit_type, "fact") {
        "---\nscope: \"\"\nevidence: \"\"\nrefs: []\n---\n\n".to_owned()
    } else if str_eq(unit_type, "principle") {
        "---\ntension: \"\"\nrefs: []\n---\n\n".to_owned()
    } else if str_eq(unit_type, "lesson") {
        "---\ncontext: \"\"\nscope: \"\"\nrefs: []\n---\n\n".to_owned()
    } else {
        String::new()
    }
}

// ---------------------------------------------------------------------------
// Composing the buffer
// ---------------------------------------------------------------------------

/// The `#`-comment header naming the unit.
pub open spec fn header_spec(id: Seq<char>, t: Seq<char>) -> Seq<char> {
    "# simaris rewrite -- id: "@ + id + "  type: "@ + t
        + "\n# Save + quit to apply. Empty file to abort.\n# Comment lines starting `#` at top stripped automatically.\n\n"@
}

/// The editor buffer: header, then the skeleton alone (`template_only`),
/// the content verbatim (content with frontmatter), or skeleton + content.
pub open spec fn compose_spec(id: Seq<char>, t: Seq<char>, content: Seq<char>, template_only: bool) -> Seq<char> {
    header_spec(id, t) + compose_body(t, content, template_only)
}

/// The part of the editor buffer below the header.
pub open spec fn compose_body(t: Seq<char>, content: Seq<char>, template_only: bool) -> Seq<char> {
    if template_only {
        skeleton_spec(t)
    } else if frontmatter::parse_spec(content).0 is Some {
        content
    } else {
        skeleton_spec(t) + content
    }
}

/// Compose the editor buffer for a unit (identified by id, type and content).
pub fn compose_buffer(id: &str, unit_type: &str, content: &str, template_only: bool) -> (r: String)
    ensures
        r@ == compose_spec(id@, unit_type@, content@, template_only),
{
    let mut out = lit("# simaris rewrite -- id: ");
    append_chars(&mut out, &chars_of(id));
    append_chars(&mut out, &lit("  type: "));
    append_chars(&mut out, &chars_of(unit_type));
    append_chars(
        &mut out,
        &lit(
            "\n# Save + quit to apply. Empty file to abort.\n# Comment lines starting `#` at top stripped automatically.\n\n",
        ),
    );
    let skel = chars_of(skeleton_for(unit_type).as_str());
    let c = chars_of(content);
    if template_only {
        append_chars(&mut out, &skel);
    } else {
        let (fm, _body) = parse_chars(&c);
        if fm.is_some() {
            append_chars(&mut out, &c);
        } else {
            append_chars(&mut out, &skel);
            append_chars(&mut out, &c);
        }
    }
    assert(out@ =~= compose_spec(id@, unit_type@, content@, template_only));
    string_of(out.as_slice())
}

// ---------------------------------------------------------------------------
// Header-comment stripping
// ---------------------------------------------------------------------------

/// A header comment line: starts with `#` after leading whitespace, and is
/// not a `---` fence.
pub open spec fn is_comment(l: Seq<char>) -> bool {
    text::starts_with(text::trim_start(l), seq!['#']) && !text::starts_with(text::trim_start(l), seq!['-', '-', '-'])
}

/// Number of characters consumed by the header, scanning lines from `i`
/// with `skip` characters consumed so far: `#` comment lines while in the
/// header, then one blank separator line, which ends the header.
pub open spec fn header_skip(ls: Seq<Seq<char>>, i: int, in_header: bool, skip: int) -> int
    decreases ls.len() - i,
{
    if i < 0 || i >= ls.len() {
        skip
    } else if in_header && is_comment(ls[i]) {
        header_skip(ls, i + 1, in_header, skip + ls[i].len() + 1)
    } else if in_header && text::trim_start(ls[i]).len() == 0 {
        header_skip(ls, i + 1, false, skip + ls[i].len() + 1)
    } else {
        skip
    }
}

/// Content after the header comments and the separator line.
pub open spec fn strip_header_spec(c: Seq<char>) -> Seq<char> {
    let k = header_skip(text::lines(c), 0, true, 0);
    if k >= c.len() {
        Seq::empty()
    } else {
        c.skip(k)
    }
}

proof fn lemma_header_skip_grows(ls: Seq<Seq<char>>, i: int, in_header: bool, skip: int)
    ensures
        header_skip(ls, i, in_header, skip) >= skip,
    decreases ls.len() - i,
{
    if i < 0 || i >= ls.len() {
    } else if in_header && is_comment(ls[i]) {
        lemma_header_skip_grows(ls, i + 1, in_header, skip + ls[i].len() + 1);
    } else if in_header && text::trim_start(ls[i]).len() == 0 {
        lemma_header_skip_grows(ls, i + 1, false, skip + ls[i].len() + 1);
    }
}

/// Strip leading `#` comment lines plus the blank separator line that
/// follows them; stops at the first other line.
pub fn strip_header_comments(content: &str) -> (r: String)
    ensures
        r@ == strip_header_spec(content@),
{
    let c = chars_of(content);
    let ls = lines_of(&c);
    let ghost lv = text::views(ls@);
    let hash: Vec<char> = vec!['#'];
    let dashes: Vec<char> = vec!['-', '-', '-'];
    assert(hash@ =~= seq!['#']);
    assert(dashes@ =~= seq!['-', '-', '-']);
    let mut skip: usize = 0;
    let mut in_header = true;
    let mut i: usize = 0;
    let mut done = false;
    proof { lemma_header_skip_grows(lv, 0, true, 0); }
    while i < ls.len() && !done
        invariant
            c@ == content@,
            done ==> header_skip(lv, i as int, in_header, skip as int) == skip,
            i <= ls@.len(),
            lv == text::views(ls@),
            lv == text::lines(c@),
            hash@ == seq!['#'],
            dashes@ == seq!['-', '-', '-'],
            header_skip(lv, i as int, in_header, skip as int) == header_skip(lv, 0, true, 0),
            skip <= c@.len(),
        decreases ls@.len() - i + (if done { 0int } else { 1int }),
    {
        let line = &ls[i];
        assert(lv[i as int] == line@);
        let t = trim_start_chars(line);
        let comment = starts_with_exec(&t, &hash) && !starts_with_exec(&t, &dashes);
        assert(comment == is_comment(lv[i as int]));
        if in_header && comment {
            if line.len() >= c.len() - skip {
                proof {
                    lemma_header_skip_grows(lv, i + 1, in_header, skip + line@.len() + 1);
                    assert(header_skip(lv, i as int, in_header, skip as int) == header_skip(lv, i + 1, in_header, skip + line@.len() + 1));
                    assert(header_skip(lv, 0, true, 0) >= c@.len());
                }
                return String::new();
            }
            skip = skip + line.len() + 1;
            i = i + 1;
        } else if in_header && t.len() == 0 {
            if line.len() >= c.len() - skip {
                proof {
                    lemma_header_skip_grows(lv, i + 1, false, skip + line@.len() + 1);
                    assert(header_skip(lv, i as int, in_header, skip as int) == header_skip(lv, i + 1, false, skip + line@.len() + 1));
                    assert(header_skip(lv, 0, true, 0) >= c@.len());
                }
                return String::new();
            }
            skip = skip + line.len() + 1;
            in_header = false;
            i = i + 1;
        } else {
            done = true;
        }
    }
    assert(header_skip(lv, 0, true, 0) == skip);
    if skip >= c.len() {
        String::new()
    } else {
        let rest = copy_range(&c, skip, c.len());
        assert(rest@ =~= c@.skip(skip as int));
        string_of(rest.as_slice())
    }
}

// ---------------------------------------------------------------------------
// No-op detection
// ---------------------------------------------------------------------------

/// End of the run of empty lines starting at `i`.
pub open spec fn empty_run_end(ls: Seq<Seq<char>>, i: int) -> int
    decreases ls.len() - i,
{
    if 0 <= i < ls.len() && ls[i].len() == 0 {
        empty_run_end(ls, i + 1)
    } else {
        i
    }
}

/// Start of the run of empty lines ending just before `j`.
pub open spec fn empty_run_start(ls: Seq<Seq<char>>, j: int) -> int
    decreases j,
{
    if 0 < j <= ls.len() && ls[j - 1].len() == 0 {
        empty_run_start(ls, j - 1)
    } else {
        j
    }
}

/// Lines with trailing whitespace trimmed, then trailing and leading empty
/// lines dropped, joined with `\n`.
pub open spec fn normalized_buffer(s: Seq<char>) -> Seq<char> {
    let ls = text::lines(s).map_values(|l: Seq<char>| text::trim_end(l));
    let a = ls.subrange(0, empty_run_start(ls, ls.len() as int));
    let b = a.subrange(empty_run_end(a, 0), a.len() as int);
    text::join(b, seq!['\n'])
}

proof fn lemma_empty_run_end_bounds(ls: Seq<Seq<char>>, i: int)
    requires
        0 <= i <= ls.len(),
    ensures
        i <= empty_run_end(ls, i) <= ls.len(),
    decreases ls.len() - i,
{
    if i < ls.len() && ls[i].len() == 0 {
        lemma_empty_run_end_bounds(ls, i + 1);
    }
}

proof fn lemma_empty_run_start_bounds(ls: Seq<Seq<char>>, j: int)
    requires
        0 <= j <= ls.len(),
    ensures
        0 <= empty_run_start(ls, j) <= j,
    decreases j,
{
    if j > 0 && ls[j - 1].len() == 0 {
        lemma_empty_run_start_bounds(ls, j - 1);
    }
}

fn copy_lines(ls: &Vec<Vec<char>>, a: usize, b: usize) -> (r: Vec<Vec<char>>)
    requires
        a <= b <= ls@.len(),
    ensures
        text::views(r@) == text::views(ls@).subrange(a as int, b as int),
{
    let mut out: Vec<Vec<char>> = Vec::new();
    let mut i = a;
    while i < b
        invariant
            a <= i <= b <= ls@.len(),
            text::views(out@) == text::views(ls@).subrange(a as int, i as int),
        decreases b - i,
    {
        let ghost prev = out@;
        out.push(ls[i].clone());
        assert(text::views(out@) =~= text::views(prev).push(ls@[i as int]@));
        assert(text::views(ls@).subrange(a as int, i + 1) =~= text::views(ls@).subrange(a as int, i as int).push(ls@[i as int]@));
        i = i + 1;
    }
    out
}

fn normalize_buffer(s: &str) -> (r: Vec<char>)
    ensures
        r@ == normalized_buffer(s@),
{
    let c = chars_of(s);
    let ls = lines_of(&c);
    let ghost lv = text::views(ls@);
    let mut trimmed: Vec<Vec<char>> = Vec::new();
    let mut i: usize = 0;
    while i < ls.len()
        invariant
            i <= ls@.len(),
            lv == text::views(ls@),
            trimmed@.len() == i,
            forall|k: int| 0 <= k < i ==> #[trigger] trimmed@[k]@ == text::trim_end(lv[k]),
        decreases ls@.len() - i,
    {
        let t = trim_end_chars(&ls[i]);
        trimmed.push(t);
        i = i + 1;
    }
    let ghost m = text::lines(c@).map_values(|l: Seq<char>| text::trim_end(l));
    assert(text::views(trimmed@) =~= m);
    let mut j = trimmed.len();
    proof { lemma_empty_run_start_bounds(m, m.len() as int); }
    while j > 0 && trimmed[j - 1].len() == 0
        invariant
            j <= trimmed@.len(),
            text::views(trimmed@) == m,
            empty_run_start(m, j as int) == empty_run_start(m, m.len() as int),
        decreases j,
    {
        assert(m[j - 1] == trimmed@[j - 1]@);
        j = j - 1;
    }
    proof {
        if j > 0 {
            assert(m[j - 1] == trimmed@[j - 1]@);
        }
    }
    let a = copy_lines(&trimmed, 0, j);
    let ghost av = text::views(a@);
    proof { lemma_empty_run_end_bounds(av, 0); }
    let mut k: usize = 0;
    while k < a.len() && a[k].len() == 0
        invariant
            k <= a@.len(),
            av == text::views(a@),
            empty_run_end(av, k as int) == empty_run_end(av, 0),
        decreases a@.len() - k,
    {
        assert(av[k as int] == a@[k as int]@);
        k = k + 1;
    }
    proof {
        if k < a@.len() {
            assert(av[k as int] == a@[k as int]@);
        }
    }
    let b = copy_lines(&a, k, a.len());
    let nl: Vec<char> = vec!['\n'];
    assert(nl@ =~= seq!['\n']);
    join_exec(&b, &nl)
}

/// Whether two buffers are equal after normalisation: trailing whitespace
/// on each line and leading/trailing blank lines do not count.
pub fn buffers_equal(a: &str, b: &str) -> (r: bool)
    ensures
        r == (normalized_buffer(a@) == normalized_buffer(b@)),
{
    let na = normalize_buffer(a);
    let nb = normalize_buffer(b);
    crate::text::chars_eq(&na, &nb)
}

/// What an editing session comes to.
#[derive(Debug, Clone)]
pub enum RewriteOutcome {
    /// Nothing but header comments and whitespace was left: abort.
    Empty,
    /// No change beyond trailing whitespace and blank edge lines.
    Unchanged,
    /// The new content (header comments removed) to validate and store.
    Changed(String),
}

/// Decide the outcome of an editing session from the buffer that was
/// offered and the buffer that came back: both lose their leading
/// header comments; an edited buffer that is then blank aborts; one equal
/// to the offered one after normalization changes nothing; anything else
/// is the new content.
pub fn rewrite_outcome(offered: &str, edited: &str) -> (r: RewriteOutcome)
    ensures
        ({
            let before = strip_header_spec(offered@);
            let after = strip_header_spec(edited@);
            if text::trim(after).len() == 0 {
                r is Empty
            } else if normalized_buffer(before) == normalized_buffer(after) {
                r is Unchanged
            } else {
                r matches RewriteOutcome::Changed(s) && s@ == after
            }
        }),
{
    let before = strip_header_comments(offered);
    let after = strip_header_comments(edited);
    let t = trim_chars(&chars_of(after.as_str()));
    if t.len() == 0 {
        RewriteOutcome::Empty
    } else if buffers_equal(before.as_str(), after.as_str()) {
        RewriteOutcome::Unchanged
    } else {
        RewriteOutcome::Changed(after)
    }
}

// ---------------------------------------------------------------------------
// Composing then stripping
// ---------------------------------------------------------------------------

/// No line break in `s`.
pub open spec fn single_line(s: Seq<char>) -> bool {
    forall|k: int| 0 <= k < s.len() ==> #[trigger] s[k] != '\n' && s[k] != '\r'
}

proof fn lemma_nl_at(s: Seq<char>, i: int, e: int)
    requires
        0 <= i <= e < s.len(),
        s[e] == '\n',
        forall|k: int| i <= k < e ==> #[trigger] s[k] != '\n',
    ensures
        text::nl_from(s, i) == e,
    decreases e - i,
{
    if i < e {
        lemma_nl_at(s, i + 1, e);
    }
}

/// The lines of `s` from `i` start with `a` when `a`, then a newline,
/// stands at `i` (and `a` holds no line break).
proof fn lemma_line_step(s: Seq<char>, i: int, a: Seq<char>)
    requires
        0 <= i,
        i + a.len() < s.len(),
        s.subrange(i, i + a.len()) == a,
        s[i + a.len()] == '\n',
        single_line(a),
    ensures
        text::lines_from(s, i) == seq![a] + text::lines_from(s, i + a.len() + 1),
{
    assert forall|k: int| i <= k < i + a.len() implies #[trigger] s[k] != '\n' by {
        assert(s[k] == s.subrange(i, i + a.len())[k - i]);
    }
    lemma_nl_at(s, i, i + a.len());
    let raw = s.subrange(i, i + a.len());
    if raw.len() > 0 {
        assert(raw.last() == a[a.len() - 1]);
    }
    assert(text::line_at(s, i) == a);
}

pub open spec fn header_line_2() -> Seq<char> {
    "# Save + quit to apply. Empty file to abort."@
}

pub open spec fn header_line_3() -> Seq<char> {
    "# Comment lines starting `#` at top stripped automatically."@
}

/// Stripping the header comments from a freshly composed buffer gives back
/// exactly what was composed below the header, for every unit whose id
/// and type hold no line break: the header is all comment lines plus one
/// blank separator.
pub proof fn law_compose_then_strip(id: Seq<char>, t: Seq<char>, content: Seq<char>, template_only: bool)
    requires
        single_line(id),
        single_line(t),
    ensures
        strip_header_spec(compose_spec(id, t, content, template_only)) == compose_body(
            t,
            content,
            template_only,
        ),
{
    reveal_strlit("# simaris rewrite -- id: ");
    reveal_strlit("  type: ");
    reveal_strlit(
        "\n# Save + quit to apply. Empty file to abort.\n# Comment lines starting `#` at top stripped automatically.\n\n",
    );
    reveal_strlit("# Save + quit to apply. Empty file to abort.");
    reveal_strlit("# Comment lines starting `#` at top stripped automatically.");
    let body = compose_body(t, content, template_only);
    let p1 = "# simaris rewrite -- id: "@;
    let p2 = "  type: "@;
    let p3 = "\n# Save + quit to apply. Empty file to abort.\n# Comment lines starting `#` at top stripped automatically.\n\n"@;
    let l1 = p1 + id + p2 + t;
    let l2 = header_line_2();
    let l3 = header_line_3();
    let h = header_spec(id, t);
    let s = compose_spec(id, t, content, template_only);
    assert(h =~= l1 + p3);
    assert(p3 =~= seq!['\n'] + l2 + seq!['\n'] + l3 + seq!['\n', '\n']);
    assert(s =~= l1 + seq!['\n'] + l2 + seq!['\n'] + l3 + seq!['\n'] + seq!['\n'] + body);
    let a1 = l1.len() as int;
    let a2 = a1 + 1 + l2.len();
    let a3 = a2 + 1 + l3.len();
    assert(single_line(l1)) by {
        assert forall|k: int| 0 <= k < l1.len() implies #[trigger] l1[k] != '\n' && l1[k] != '\r' by {
            if k < p1.len() {
            } else if k < p1.len() + id.len() {
                assert(l1[k] == id[k - p1.len()]);
            } else if k < p1.len() + id.len() + p2.len() {
            } else {
                assert(l1[k] == t[k - p1.len() - id.len() - p2.len()]);
            }
        }
    }
    assert(single_line(l2));
    assert(single_line(l3));
    assert(single_line(Seq::<char>::empty()));
    assert(s.subrange(0, a1) =~= l1);
    assert(s[a1] == '\n');
    lemma_line_step(s, 0, l1);
    assert(s.subrange(a1 + 1, a2) =~= l2);
    assert(s[a2] == '\n');
    lemma_line_step(s, a1 + 1, l2);
    assert(s.subrange(a2 + 1, a3) =~= l3);
    assert(s[a3] == '\n');
    lemma_line_step(s, a2 + 1, l3);
    assert(s.subrange(a3 + 1, a3 + 1) =~= Seq::<char>::empty());
    assert(s[a3 + 1] == '\n');
    lemma_line_step(s, a3 + 1, Seq::<char>::empty());
    let rest = text::lines_from(s, a3 + 2);
    let ls = text::lines(s);
    assert(ls =~= seq![l1, l2, l3, Seq::<char>::empty()] + rest);
    assert(text::trim_start(l1) =~= l1) by {
        assert(text::ws_end_from(l1, 0) == 0);
    }
    assert(text::trim_start(l2) =~= l2) by {
        assert(text::ws_end_from(l2, 0) == 0);
    }
    assert(text::trim_start(l3) =~= l3) by {
        assert(text::ws_end_from(l3, 0) == 0);
    }
    assert(l1[0] == '#');
    assert(l1.subrange(0, 1) =~= seq!['#']);
    assert(l1.len() >= 3 && l1.subrange(0, 3)[0] != '-');
    assert(ls[0] == l1);
    assert(is_comment(ls[0]));
    assert(l2[0] == '#');
    assert(l2.subrange(0, 1) =~= seq!['#']);
    assert(l2.subrange(0, 3)[0] != '-');
    assert(ls[1] == l2);
    assert(is_comment(ls[1]));
    assert(l3[0] == '#');
    assert(l3.subrange(0, 1) =~= seq!['#']);
    assert(l3.subrange(0, 3)[0] != '-');
    assert(ls[2] == l3);
    assert(is_comment(ls[2]));
    assert(!is_comment(ls[3]));
    assert(text::trim_start(ls[3]).len() == 0);
    assert(h.len() == a3 + 2);
    assert(header_skip(ls, 4, false, a3 + 2) == a3 + 2);
    assert(ls[3] == Seq::<char>::empty());
    assert(header_skip(ls, 3, true, a3 + 1) == header_skip(ls, 4, false, a3 + 2));
    assert(header_skip(ls, 2, true, a2 + 1) == header_skip(ls, 3, true, a3 + 1));
    assert(header_skip(ls, 1, true, a1 + 1) == header_skip(ls, 2, true, a2 + 1));
    assert(header_skip(ls, 0, true, 0) == header_skip(ls, 1, true, a1 + 1));
    assert(header_skip(ls, 0, true, 0) == a3 + 2);
    if h.len() >= s.len() {
        assert(body.len() == 0);
        assert(body =~= Seq::<char>::empty());
    } else {
        assert(s.skip(h.len() as int) =~= body);
    }
}

} // verus!
