//! Rendering of aspect units as agent definition files and recognition of
//! the files this tool manages. Reading and writing the files is I/O and
//! stays with the binary; this module decides their content.
use vstd::prelude::*;
use crate::text;
use crate::text::{sort_strings, append_chars, chars_eq, chars_of, copy_range, ends_with_exec, join_exec, lines_of, lit, starts_with_exec, string_of, trim_chars};

verus! {

broadcast use vstd::string::group_string_axioms;

/// Outcome of an emit run: files written, stale managed files swept, and
/// aspect units skipped for lack of a slug.
#[derive(Debug, Default)]
pub struct EmitResult {
    pub written: Vec<String>,
    pub swept: Vec<String>,
    pub skipped_uuids: Vec<String>,
}

// ---------------------------------------------------------------------------
// First paragraph
// ---------------------------------------------------------------------------

/// Trimmed lines of the first paragraph, scanning from line `i` with `acc`
/// collected so far: blank lines before the paragraph are skipped, the
/// first blank line after it ends it.
pub open spec fn para_from(ls: Seq<Seq<char>>, i: int, acc: Seq<Seq<char>>) -> Seq<Seq<char>>
    decreases ls.len() - i,
{
    if i < 0 || i >= ls.len() {
        acc
    } else if text::trim(ls[i]).len() == 0 {
        if acc.len() > 0 {
            acc
        } else {
            para_from(ls, i + 1, acc)
        }
    } else {
        para_from(ls, i + 1, acc.push(text::trim(ls[i])))
    }
}

/// The first paragraph of a markdown body with its lines joined by spaces.
pub open spec fn first_paragraph_spec(c: Seq<char>) -> Seq<char> {
    text::join(para_from(text::lines(c), 0, Seq::empty()), seq![' '])
}

/// Extract the first paragraph of a markdown body, collapsed to one line.
pub fn first_paragraph(content: &str) -> (r: String)
    ensures
        r@ == first_paragraph_spec(content@),
{
    let c = chars_of(content);
    let ls = lines_of(&c);
    let ghost lv = text::views(ls@);
    let mut acc: Vec<Vec<char>> = Vec::new();
    let mut i: usize = 0;
    let mut done = false;
    assert(text::views(acc@) =~= Seq::<Seq<char>>::empty());
    while i < ls.len() && !done
        invariant
            i <= ls@.len(),
            lv == text::views(ls@),
            lv == text::lines(c@),
            c@ == content@,
            !done ==> para_from(lv, i as int, text::views(acc@)) == para_from(lv, 0, Seq::empty()),
            done ==> text::views(acc@) == para_from(lv, 0, Seq::empty()),
        decreases ls@.len() - i + (if done { 0int } else { 1int }),
    {
        assert(lv[i as int] == ls@[i as int]@);
        let t = trim_chars(&ls[i]);
        if t.len() == 0 {
            if acc.len() > 0 {
                done = true;
            } else {
                i = i + 1;
            }
        } else {
            let ghost prev = text::views(acc@);
            acc.push(t);
            assert(text::views(acc@) =~= prev.push(text::trim(lv[i as int])));
            i = i + 1;
        }
    }
    let sp: Vec<char> = vec![' '];
    assert(sp@ =~= seq![' ']);
    let out = join_exec(&acc, &sp);
    string_of(out.as_slice())
}

// ---------------------------------------------------------------------------
// YAML single quoting
// ---------------------------------------------------------------------------

/// Every `'` doubled, as YAML single-quoted style requires.
pub open spec fn double_single_quotes(s: Seq<char>) -> Seq<char>
    decreases s.len(),
{
    if s.len() == 0 {
        Seq::empty()
    } else {
        double_single_quotes(s.drop_last()) + if s.last() == '\'' {
            seq!['\'', '\'']
        } else {
            seq![s.last()]
        }
    }
}

/// `s` as a YAML single-quoted scalar.
pub open spec fn yaml_single_quote_spec(s: Seq<char>) -> Seq<char> {
    seq!['\''] + double_single_quotes(s) + seq!['\'']
}

fn double_single_quotes_exec(v: &Vec<char>) -> (r: Vec<char>)
    ensures
        r@ == double_single_quotes(v@),
{
    let mut out: Vec<char> = Vec::new();
    let mut i: usize = 0;
    while i < v.len()
        invariant
            i <= v@.len(),
            out@ == double_single_quotes(v@.take(i as int)),
        decreases v@.len() - i,
    {
        assert(v@.take(i + 1).drop_last() =~= v@.take(i as int));
        if v[i] == '\'' {
            out.push('\'');
            out.push('\'');
        } else {
            out.push(v[i]);
        }
        assert(out@ =~= double_single_quotes(v@.take(i + 1)));
        i = i + 1;
    }
    assert(v@.take(v@.len() as int) =~= v@);
    out
}

/// Wrap a string in single quotes for safe inclusion as a YAML scalar.
pub fn yaml_single_quote(s: &str) -> (r: String)
    ensures
        r@ == yaml_single_quote_spec(s@),
{
    let v = chars_of(s);
    let mut out: Vec<char> = vec!['\''];
    let body = double_single_quotes_exec(&v);
    append_chars(&mut out, &body);
    out.push('\'');
    assert(out@ =~= yaml_single_quote_spec(s@));
    string_of(out.as_slice())
}

// ---------------------------------------------------------------------------
// Agent file
// ---------------------------------------------------------------------------

/// The agent file: YAML frontmatter (name, description = quoted first
/// paragraph, managed marker) then the body verbatim, newline-terminated.
pub open spec fn agent_file_spec(slug: Seq<char>, content: Seq<char>) -> Seq<char> {
    "---\nname: "@ + slug + "\ndescription: "@ + yaml_single_quote_spec(first_paragraph_spec(content))
        + "\nsimaris-managed: true\n---\n"@ + content + if text::ends_with(content, seq!['\n']) {
        Seq::<char>::empty()
    } else {
        seq!['\n']
    }
}

/// Render the agent definition (markdown with frontmatter) for `slug`.
pub fn render_agent_file(slug: &str, content: &str) -> (r: String)
    ensures
        r@ == agent_file_spec(slug@, content@),
{
    let description = yaml_single_quote(first_paragraph(content).as_str());
    let c = chars_of(content);
    let mut out = lit("---\nname: ");
    append_chars(&mut out, &chars_of(slug));
    append_chars(&mut out, &lit("\ndescription: "));
    append_chars(&mut out, &chars_of(description.as_str()));
    append_chars(&mut out, &lit("\nsimaris-managed: true\n---\n"));
    append_chars(&mut out, &c);
    let nl: Vec<char> = vec!['\n'];
    assert(nl@ =~= seq!['\n']);
    if !ends_with_exec(&c, &nl) {
        out.push('\n');
    }
    assert(out@ =~= agent_file_spec(slug@, content@));
    string_of(out.as_slice())
}

// ---------------------------------------------------------------------------
// Managed-file recognition
// ---------------------------------------------------------------------------

/// Scan frontmatter lines from `i` (state: last `name:` value, whether the
/// managed marker was seen) up to the closing `---`.
pub open spec fn managed_scan(ls: Seq<Seq<char>>, i: int, name: Option<Seq<char>>, managed: bool) -> Option<Seq<char>>
    decreases ls.len() - i,
{
    if i < 0 || i >= ls.len() || text::trim(ls[i]) == "---"@ {
        if managed {
            name
        } else {
            None
        }
    } else if text::starts_with(ls[i], "name:"@) {
        managed_scan(ls, i + 1, Some(text::trim(ls[i].skip(5))), managed)
    } else if text::trim(ls[i]) == "simaris-managed: true"@ {
        managed_scan(ls, i + 1, name, true)
    } else {
        managed_scan(ls, i + 1, name, managed)
    }
}

/// The `name` of a file's frontmatter when the file carries the
/// `simaris-managed: true` marker; `None` otherwise.
pub open spec fn managed_slug_spec(text: Seq<char>) -> Option<Seq<char>> {
    let ls = text::lines(text);
    if ls.len() == 0 || text::trim(ls[0]) != "---"@ {
        None
    } else {
        managed_scan(ls, 1, None, false)
    }
}

proof fn lemma_para_no_nl(ls: Seq<Seq<char>>, i: int, acc: Seq<Seq<char>>)
    requires
        forall|k: int| 0 <= k < ls.len() ==> text::no_nl(#[trigger] ls[k]),
        forall|k: int| 0 <= k < acc.len() ==> text::no_nl(#[trigger] acc[k]),
    ensures
        forall|k: int| 0 <= k < para_from(ls, i, acc).len() ==> text::no_nl(#[trigger] para_from(ls, i, acc)[k]),
    decreases ls.len() - i,
{
    if 0 <= i < ls.len() {
        if text::trim(ls[i]).len() == 0 {
            if acc.len() == 0 {
                lemma_para_no_nl(ls, i + 1, acc);
                assert(para_from(ls, i, acc) == para_from(ls, i + 1, acc));
            }
        } else {
            text::lemma_trim_no_nl(ls[i]);
            let acc2 = acc.push(text::trim(ls[i]));
            assert forall|k: int| 0 <= k < acc2.len() implies text::no_nl(#[trigger] acc2[k]) by {
                if k < acc.len() {
                    assert(acc2[k] == acc[k]);
                }
            }
            lemma_para_no_nl(ls, i + 1, acc2);
            assert(para_from(ls, i, acc) == para_from(ls, i + 1, acc2));
        }
    }
}

proof fn lemma_double_quotes_no_nl(x: Seq<char>)
    requires
        text::no_nl(x),
    ensures
        text::no_nl(double_single_quotes(x)),
    decreases x.len(),
{
    if x.len() > 0 {
        lemma_double_quotes_no_nl(x.drop_last());
        let a = double_single_quotes(x.drop_last());
        let b = if x.last() == '\'' {
            seq!['\'', '\'']
        } else {
            seq![x.last()]
        };
        assert(x.last() == x[x.len() - 1]);
        assert forall|k: int| 0 <= k < (a + b).len() implies (a + b)[k] != '\n' by {
            if k >= a.len() {
                assert((a + b)[k] == b[k - a.len()]);
            }
        }
    }
}

/// The description line of an agent file is a single line.
proof fn lemma_description_no_nl(content: Seq<char>)
    ensures
        text::no_nl(yaml_single_quote_spec(first_paragraph_spec(content))),
{
    let ls = text::lines(content);
    text::lemma_lines_no_nl(content, 0);
    lemma_para_no_nl(ls, 0, Seq::empty());
    let p = para_from(ls, 0, Seq::empty());
    assert(text::no_nl(seq![' ']));
    text::lemma_join_no_nl(p, seq![' ']);
    let f = first_paragraph_spec(content);
    lemma_double_quotes_no_nl(f);
    let q = yaml_single_quote_spec(f);
    let d = double_single_quotes(f);
    assert forall|k: int| 0 <= k < q.len() implies q[k] != '\n' by {
        if 0 < k < q.len() - 1 {
            assert(q[k] == d[k - 1]);
        }
    }
}

/// The `name:` line of an agent file.
pub open spec fn name_line(slug: Seq<char>) -> Seq<char> {
    seq!['n', 'a', 'm', 'e', ':', ' '] + slug
}

/// The `description:` line of an agent file.
pub open spec fn description_line(content: Seq<char>) -> Seq<char> {
    seq!['d', 'e', 's', 'c', 'r', 'i', 'p', 't', 'i', 'o', 'n', ':', ' '] + yaml_single_quote_spec(
        first_paragraph_spec(content),
    )
}

/// The first five lines of an agent file: the fences around the name, the
/// description and the managed marker.
#[verifier::spinoff_prover]
#[verifier::rlimit(40)]
proof fn lemma_agent_file_lines(slug: Seq<char>, content: Seq<char>)
    requires
        forall|k: int| 0 <= k < slug.len() ==> !text::is_ws(#[trigger] slug[k]),
    ensures
        text::lines(agent_file_spec(slug, content)).len() >= 5,
        text::lines(agent_file_spec(slug, content))[0] == "---"@,
        text::lines(agent_file_spec(slug, content))[1] == name_line(slug),
        text::lines(agent_file_spec(slug, content))[2] == description_line(content),
        text::lines(agent_file_spec(slug, content))[3] == "simaris-managed: true"@,
        text::lines(agent_file_spec(slug, content))[4] == "---"@,
{
    reveal_strlit("---\nname: ");
    reveal_strlit("\ndescription: ");
    reveal_strlit("\nsimaris-managed: true\n---\n");
    reveal_strlit("---");
    reveal_strlit("simaris-managed: true");
    let d = yaml_single_quote_spec(first_paragraph_spec(content));
    lemma_description_no_nl(content);
    let tail = content + if text::ends_with(content, seq!['\n']) {
        Seq::<char>::empty()
    } else {
        seq!['\n']
    };
    let l0: Seq<char> = "---"@;
    let l1 = name_line(slug);
    let l2 = description_line(content);
    let l3: Seq<char> = "simaris-managed: true"@;
    let l4: Seq<char> = "---"@;
    let nl: Seq<char> = seq!['\n'];
    let s = agent_file_spec(slug, content);
    assert(s =~= l0 + nl + l1 + nl + l2 + nl + l3 + nl + l4 + nl + tail);
    let e0: int = l0.len() as int;
    let p1: int = e0 + 1;
    let e1: int = p1 + l1.len();
    let p2: int = e1 + 1;
    let e2: int = p2 + l2.len();
    let p3: int = e2 + 1;
    let e3: int = p3 + l3.len();
    let p4: int = e3 + 1;
    let e4: int = p4 + l4.len();
    assert(s.subrange(0, e0) =~= l0);
    assert(s[e0] == '\n');
    assert(s.subrange(p1, e1) =~= l1);
    assert(s[e1] == '\n');
    assert(s.subrange(p2, e2) =~= l2);
    assert(s[e2] == '\n');
    assert(s.subrange(p3, e3) =~= l3);
    assert(s[e3] == '\n');
    assert(s.subrange(p4, e4) =~= l4);
    assert(s[e4] == '\n');
    assert(text::no_nl(l0));
    assert forall|k: int| 0 <= k < l1.len() implies l1[k] != '\n' by {
        if k >= 6 {
            assert(l1[k] == slug[k - 6]);
            assert(!text::is_ws(slug[k - 6]));
        }
    }
    assert forall|k: int| 0 <= k < l2.len() implies l2[k] != '\n' by {
        if k >= 13 {
            assert(l2[k] == d[k - 13]);
        }
    }
    assert(text::no_nl(l3));
    if slug.len() > 0 {
        assert(l1.last() == slug[slug.len() - 1]);
        assert(!text::is_ws(slug[slug.len() - 1]));
    }
    assert(l2.last() == d[d.len() - 1]);
    text::lemma_line_step(s, 0, e0, l0);
    text::lemma_line_step(s, p1, e1, l1);
    text::lemma_line_step(s, p2, e2, l2);
    text::lemma_line_step(s, p3, e3, l3);
    text::lemma_line_step(s, p4, e4, l4);
    let rest = text::lines_from(s, e4 + 1);
    assert(text::lines(s) == seq![l0] + (seq![l1] + (seq![l2] + (seq![l3] + (seq![l4] + rest)))));
}

/// A file written for a slug is recognised as managed, under that slug:
/// emitting never produces a file that a later sweep would mistake for a
/// hand-authored one or attribute to another slug. Slugs hold no
/// whitespace (the slug rules allow only `[a-z0-9_-]`).
pub proof fn law_emitted_file_is_managed(slug: Seq<char>, content: Seq<char>)
    requires
        forall|k: int| 0 <= k < slug.len() ==> !text::is_ws(#[trigger] slug[k]),
    ensures
        managed_slug_spec(agent_file_spec(slug, content)) == Some(slug),
{
    reveal_strlit("---");
    reveal_strlit("name:");
    reveal_strlit("simaris-managed: true");
    lemma_agent_file_lines(slug, content);
    let ls = text::lines(agent_file_spec(slug, content));
    let l0: Seq<char> = "---"@;
    let l1 = name_line(slug);
    let l2 = description_line(content);
    let l3: Seq<char> = "simaris-managed: true"@;
    text::lemma_trim_id(l0);
    text::lemma_trim_id(l3);
    text::lemma_trim_first(l1);
    text::lemma_trim_first(l2);
    assert(text::trim(l1) != "---"@);
    assert(text::trim(l2) != "---"@);
    assert(text::trim(l3) != "---"@);
    assert(text::trim(l2) != "simaris-managed: true"@);
    assert(text::starts_with(l1, "name:"@)) by {
        assert(l1.subrange(0, 5) =~= "name:"@);
    }
    assert(l1.skip(5) =~= seq![' '] + slug);
    text::lemma_trim_space_prefix(slug);
    assert(!text::starts_with(l2, "name:"@)) by {
        if text::starts_with(l2, "name:"@) {
            assert(l2.subrange(0, 5)[0] == l2[0]);
        }
    }
    assert(!text::starts_with(l3, "name:"@)) by {
        if text::starts_with(l3, "name:"@) {
            assert(l3.subrange(0, 5)[0] == l3[0]);
        }
    }
    assert(managed_scan(ls, 4, Some(slug), true) == Some(slug));
    assert(managed_scan(ls, 3, Some(slug), false) == Some(slug));
    assert(managed_scan(ls, 2, Some(slug), false) == Some(slug));
    assert(managed_scan(ls, 1, None, false) == Some(slug));
}

/// The agent file emitted for any slug the store accepts is recognised as
/// managed under that slug.
pub proof fn law_files_of_accepted_slugs_are_managed(slug: Seq<char>, bytes: nat, content: Seq<char>)
    requires
        crate::store::slug_error(slug, bytes) is None,
    ensures
        managed_slug_spec(agent_file_spec(slug, content)) == Some(slug),
{
    crate::store::lemma_accepted_slug_chars(slug, bytes);
    law_emitted_file_is_managed(slug, content);
}

/// Recognise a file this tool manages from its text and return its slug.
pub fn parse_managed_slug(text: &str) -> (r: Option<String>)
    ensures
        r matches Some(s) ==> managed_slug_spec(text@) == Some(s@),
        r is None ==> managed_slug_spec(text@) is None,
{
    let c = chars_of(text);
    let ls = lines_of(&c);
    let ghost lv = text::views(ls@);
    let fence = lit("---");
    let name_key = lit("name:");
    let marker = lit("simaris-managed: true");
    if ls.len() == 0 {
        return None;
    }
    assert(lv[0] == ls@[0]@);
    if !chars_eq(&trim_chars(&ls[0]), &fence) {
        return None;
    }
    let mut name: Option<Vec<char>> = None;
    let mut managed = false;
    let mut i: usize = 1;
    let mut done = false;
    proof { reveal_strlit("name:"); }
    while i < ls.len() && !done
        invariant
            1 <= i <= ls@.len(),
            "name:"@.len() == 5,
            lv == text::views(ls@),
            lv == text::lines(c@),
            c@ == text@,
            fence@ == "---"@,
            name_key@ == "name:"@,
            marker@ == "simaris-managed: true"@,
            managed_scan(lv, i as int, match name { Some(n) => Some(n@), None => None }, managed)
                == managed_slug_spec(text@),
            done ==> i < ls@.len() && text::trim(lv[i as int]) == "---"@,
        decreases ls@.len() - i + (if done { 0int } else { 1int }),
    {
        let line = &ls[i];
        assert(lv[i as int] == line@);
        let t = trim_chars(line);
        if chars_eq(&t, &fence) {
            done = true;
        } else if starts_with_exec(line, &name_key) {
            let rest = copy_range(line, 5, line.len());
            assert(rest@ =~= line@.skip(5));
            name = Some(trim_chars(&rest));
        } else if chars_eq(&t, &marker) {
            managed = true;
        }
        if !done {
            i = i + 1;
        }
    }
    if managed {
        match name {
            Some(n) => Some(string_of(n.as_slice())),
            None => None,
        }
    } else {
        None
    }
}


// ---------------------------------------------------------------------------
// Emit plan
// ---------------------------------------------------------------------------

/// An aspect unit with its slugs, in the order the store lists them.
#[derive(Debug, Clone)]
pub struct AspectEntry {
    pub id: String,
    pub content: String,
    pub slugs: Vec<String>,
}

/// One agent file to write: `<slug>.md` with `body`.
#[derive(Debug, Clone)]
pub struct AgentFile {
    pub slug: String,
    pub body: String,
}

/// Every slug of every aspect, in order.
pub open spec fn all_slugs(a: Seq<AspectEntry>) -> Seq<Seq<char>>
    decreases a.len(),
{
    if a.len() == 0 {
        Seq::empty()
    } else {
        all_slugs(a.drop_last()) + text::string_views(a.last().slugs@)
    }
}

/// Ids of the aspects that have no slug, in order.
pub open spec fn slugless_ids(a: Seq<AspectEntry>) -> Seq<Seq<char>>
    decreases a.len(),
{
    if a.len() == 0 {
        Seq::empty()
    } else if a.last().slugs@.len() == 0 {
        slugless_ids(a.drop_last()).push(a.last().id@)
    } else {
        slugless_ids(a.drop_last())
    }
}

/// The file for each slug of each aspect, in order: the slug and the
/// rendered agent definition.
pub open spec fn agent_files_spec(a: Seq<AspectEntry>) -> Seq<(Seq<char>, Seq<char>)>
    decreases a.len(),
{
    if a.len() == 0 {
        Seq::empty()
    } else {
        let e = a.last();
        agent_files_spec(a.drop_last()) + e.slugs@.map_values(
            |s: String| (s@, agent_file_spec(s@, e.content@)),
        )
    }
}

pub open spec fn file_views(f: Seq<AgentFile>) -> Seq<(Seq<char>, Seq<char>)> {
    f.map_values(|x: AgentFile| (x.slug@, x.body@))
}

/// What an emit run writes and reports, before the sweep: one agent file
/// per slug of each aspect; the written slugs and the ids of slugless
/// aspects, each in ascending order; nothing swept yet.
pub fn emit_plan(aspects: &Vec<AspectEntry>) -> (r: (Vec<AgentFile>, EmitResult))
    ensures
        file_views(r.0@) == agent_files_spec(aspects@),
        text::string_views(r.1.written@).to_multiset() == all_slugs(aspects@).to_multiset(),
        text::strings_sorted(r.1.written@),
        text::string_views(r.1.skipped_uuids@).to_multiset() == slugless_ids(aspects@).to_multiset(),
        text::strings_sorted(r.1.skipped_uuids@),
        r.1.swept@.len() == 0,
{
    let ghost a = aspects@;
    let mut files: Vec<AgentFile> = Vec::new();
    let mut written: Vec<String> = Vec::new();
    let mut skipped: Vec<String> = Vec::new();
    let mut i: usize = 0;
    while i < aspects.len()
        invariant
            a == aspects@,
            i <= a.len(),
            file_views(files@) == agent_files_spec(a.take(i as int)),
            text::string_views(written@) == all_slugs(a.take(i as int)),
            text::string_views(skipped@) == slugless_ids(a.take(i as int)),
        decreases a.len() - i,
    {
        let e = &aspects[i];
        assert(a.take(i + 1).drop_last() =~= a.take(i as int));
        assert(a.take(i + 1).last() == a[i as int]);
        if e.slugs.len() == 0 {
            let ghost prev = text::string_views(skipped@);
            skipped.push(e.id.clone());
            assert(text::string_views(skipped@) =~= prev.push(e.id@));
        }
        let ghost f0 = file_views(files@);
        let ghost w0 = text::string_views(written@);
        let mut j: usize = 0;
        while j < e.slugs.len()
            invariant
                i < a.len(),
                e == a[i as int],
                j <= e.slugs@.len(),
                file_views(files@) == f0 + e.slugs@.take(j as int).map_values(
                    |s: String| (s@, agent_file_spec(s@, e.content@)),
                ),
                text::string_views(written@) == w0 + text::string_views(e.slugs@.take(j as int)),
            decreases e.slugs@.len() - j,
        {
            let slug = &e.slugs[j];
            let body = render_agent_file(slug.as_str(), e.content.as_str());
            let ghost fp = file_views(files@);
            let ghost wp = text::string_views(written@);
            files.push(AgentFile { slug: slug.clone(), body });
            written.push(slug.clone());
            proof {
                assert(e.slugs@.take(j + 1) =~= e.slugs@.take(j as int).push(e.slugs@[j as int]));
                assert(file_views(files@) =~= fp.push((slug@, agent_file_spec(slug@, e.content@))));
                assert(text::string_views(written@) =~= wp.push(slug@));
                assert(e.slugs@.take(j + 1).map_values(
                    |s: String| (s@, agent_file_spec(s@, e.content@)),
                ) =~= e.slugs@.take(j as int).map_values(
                    |s: String| (s@, agent_file_spec(s@, e.content@)),
                ).push((slug@, agent_file_spec(slug@, e.content@))));
                assert(text::string_views(e.slugs@.take(j + 1)) =~= text::string_views(
                    e.slugs@.take(j as int),
                ).push(slug@));
            }
            j = j + 1;
        }
        assert(e.slugs@.take(j as int) =~= e.slugs@);
        i = i + 1;
    }
    assert(a.take(i as int) =~= a);
    let written = sort_strings(written);
    let skipped = sort_strings(skipped);
    (files, EmitResult { written, swept: Vec::new(), skipped_uuids: skipped })
}

/// The file is managed under a slug that is not live.
pub open spec fn is_stale(m: Option<String>, live: Seq<Seq<char>>) -> bool {
    m matches Some(s) && !live.contains(s@)
}

/// Indices, in order, of the stale files among the first `k`.
pub open spec fn stale_files(managed: Seq<Option<String>>, live: Seq<Seq<char>>, k: int) -> Seq<usize>
    decreases k,
{
    if k <= 0 {
        Seq::empty()
    } else if is_stale(managed[k - 1], live) {
        stale_files(managed, live, k - 1).push((k - 1) as usize)
    } else {
        stale_files(managed, live, k - 1)
    }
}

/// File `i` (of the first `k`) is managed under a slug that is not live.
pub open spec fn removable(managed: Seq<Option<String>>, live: Seq<Seq<char>>, k: int, i: usize) -> bool {
    i < k && is_stale(managed[i as int], live)
}

/// A sweep removes only files this tool manages whose slug is no longer
/// live: hand-authored files and the files of live slugs are left alone.
pub proof fn law_sweep_spares_live_and_hand_authored(
    managed: Seq<Option<String>>,
    live: Seq<Seq<char>>,
    k: int,
)
    requires
        0 <= k <= managed.len(),
        managed.len() <= usize::MAX,
    ensures
        forall|x: int|
            0 <= x < stale_files(managed, live, k).len() ==> removable(
                managed,
                live,
                k,
                #[trigger] stale_files(managed, live, k)[x],
            ),
    decreases k,
{
    if k > 0 {
        law_sweep_spares_live_and_hand_authored(managed, live, k - 1);
        let prev = stale_files(managed, live, k - 1);
        let cur = stale_files(managed, live, k);
        if is_stale(managed[k - 1], live) {
            assert(cur == prev.push((k - 1) as usize));
        } else {
            assert(cur == prev);
        }
        assert forall|x: int| 0 <= x < cur.len() implies removable(managed, live, k, #[trigger] cur[x]) by {
            if x < prev.len() {
                assert(cur[x] == prev[x]);
                assert(removable(managed, live, k - 1, prev[x]));
            }
        }
    }
}

/// Which managed files a sweep removes: those whose managed slug (`None`
/// for a file this tool does not manage) is not among the live slugs.
pub fn sweep_targets(managed: &Vec<Option<String>>, live: &Vec<String>) -> (r: Vec<usize>)
    ensures
        r@ == stale_files(managed@, text::string_views(live@), managed@.len() as int),
{
    let mut out: Vec<usize> = Vec::new();
    let mut lv: Vec<Vec<char>> = Vec::new();
    let mut j: usize = 0;
    while j < live.len()
        invariant
            j <= live@.len(),
            lv@.len() == j,
            forall|k: int| 0 <= k < j ==> #[trigger] lv@[k]@ == live@[k]@,
        decreases live@.len() - j,
    {
        lv.push(chars_of(live[j].as_str()));
        j = j + 1;
    }
    assert(text::views(lv@) =~= text::string_views(live@));
    let ghost lw = text::string_views(live@);
    let mut i: usize = 0;
    while i < managed.len()
        invariant
            i <= managed@.len(),
            text::views(lv@) == lw,
            out@ == stale_files(managed@, lw, i as int),
        decreases managed@.len() - i,
    {
        match &managed[i] {
            Some(s) => {
                if !crate::wordset::contains_word(&lv, &chars_of(s.as_str())) {
                    out.push(i);
                }
            },
            None => {},
        }
        i = i + 1;
    }
    out
}

} // verus!
