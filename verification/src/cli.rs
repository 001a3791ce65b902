//! Command-line vocabulary: unit types, relationships and marks with their
//! stored names, and the validation of the per-type field flags of `add`.
use vstd::prelude::*;
use crate::text;
use crate::text::{append_chars, chars_of, lit, string_of};
use crate::emit;
use crate::emit::yaml_single_quote;

verus! {

broadcast use vstd::string::group_string_axioms;

/// Kinds of knowledge unit.
#[derive(Clone, Copy, Debug, PartialEq, Eq, Structural)]
pub enum UnitType {
    Fact,
    Procedure,
    Principle,
    Preference,
    Lesson,
    Idea,
    Aspect,
}

pub open spec fn unit_type_name(t: UnitType) -> Seq<char> {
    match t {
        UnitType::Fact => "fact"@,
        UnitType::Procedure => "procedure"@,
        UnitType::Principle => "principle"@,
        UnitType::Preference => "preference"@,
        UnitType::Lesson => "lesson"@,
        UnitType::Idea => "idea"@,
        UnitType::Aspect => "aspect"@,
    }
}

impl UnitType {
    /// The stored name of the type.
    pub fn as_str(&self) -> (r: &'static str)
        ensures
            r@ == unit_type_name(*self),
    {
        match self {
            UnitType::Fact => "fact",
            UnitType::Procedure => "procedure",
            UnitType::Principle => "principle",
            UnitType::Preference => "preference",
            UnitType::Lesson => "lesson",
            UnitType::Idea => "idea",
            UnitType::Aspect => "aspect",
        }
    }
}

/// Kinds of link between units.
#[derive(Clone, Copy, Debug, PartialEq, Eq, Structural)]
pub enum Relationship {
    RelatedTo,
    PartOf,
    DependsOn,
    Contradicts,
    Supersedes,
    SourcedFrom,
}

pub open spec fn relationship_name(r: Relationship) -> Seq<char> {
    match r {
        Relationship::RelatedTo => "related_to"@,
        Relationship::PartOf => "part_of"@,
        Relationship::DependsOn => "depends_on"@,
        Relationship::Contradicts => "contradicts"@,
        Relationship::Supersedes => "supersedes"@,
        Relationship::SourcedFrom => "sourced_from"@,
    }
}

impl Relationship {
    /// The stored name of the relationship.
    pub fn as_str(&self) -> (r: &'static str)
        ensures
            r@ == relationship_name(*self),
    {
        match self {
            Relationship::RelatedTo => "related_to",
            Relationship::PartOf => "part_of",
            Relationship::DependsOn => "depends_on",
            Relationship::Contradicts => "contradicts",
            Relationship::Supersedes => "supersedes",
            Relationship::SourcedFrom => "sourced_from",
        }
    }
}

/// Kinds of feedback mark on a unit.
#[derive(Clone, Copy, Debug, PartialEq, Eq, Structural)]
pub enum MarkKind {
    Used,
    Wrong,
    Outdated,
    Helpful,
}

pub open spec fn mark_name(m: MarkKind) -> Seq<char> {
    match m {
        MarkKind::Used => "used"@,
        MarkKind::Wrong => "wrong"@,
        MarkKind::Outdated => "outdated"@,
        MarkKind::Helpful => "helpful"@,
    }
}

impl MarkKind {
    /// The stored name of the mark.
    pub fn as_str(&self) -> (r: &'static str)
        ensures
            r@ == mark_name(*self),
    {
        match self {
            MarkKind::Used => "used",
            MarkKind::Wrong => "wrong",
            MarkKind::Outdated => "outdated",
            MarkKind::Helpful => "helpful",
        }
    }
}

/// The per-type frontmatter field flags of `add`.
#[derive(Clone, Debug, Default)]
pub struct AddFlags {
    pub trigger: Option<String>,
    pub check: Option<String>,
    pub caveat: Option<String>,
    pub prereq: Vec<String>,
    pub cadence: Option<String>,
    pub role: Option<String>,
    pub dispatches_to: Vec<String>,
    pub handles_directly: Vec<String>,
    pub scope: Option<String>,
    pub evidence: Option<String>,
    pub tension: Option<String>,
    pub context: Option<String>,
    pub refs: Vec<String>,
}

/// Each flag in checking order: whether it is given, its name, and the
/// unit types it is valid for.
pub open spec fn flag_table(f: AddFlags) -> Seq<(bool, Seq<char>, Seq<UnitType>)> {
    seq![
        (f.trigger is Some, "trigger"@, seq![UnitType::Procedure]),
        (f.check is Some, "check"@, seq![UnitType::Procedure]),
        (f.caveat is Some, "caveat"@, seq![UnitType::Procedure]),
        (f.prereq@.len() > 0, "prereq"@, seq![UnitType::Procedure]),
        (f.cadence is Some, "cadence"@, seq![UnitType::Procedure]),
        (f.role is Some, "role"@, seq![UnitType::Aspect]),
        (f.dispatches_to@.len() > 0, "dispatches-to"@, seq![UnitType::Aspect]),
        (f.handles_directly@.len() > 0, "handles-directly"@, seq![UnitType::Aspect]),
        (f.scope is Some, "scope"@, seq![UnitType::Fact, UnitType::Lesson]),
        (f.evidence is Some, "evidence"@, seq![UnitType::Fact]),
        (f.tension is Some, "tension"@, seq![UnitType::Principle]),
        (f.context is Some, "context"@, seq![UnitType::Lesson]),
        (
            f.refs@.len() > 0,
            "ref"@,
            seq![
                UnitType::Procedure,
                UnitType::Aspect,
                UnitType::Fact,
                UnitType::Principle,
                UnitType::Lesson,
            ],
        ),
    ]
}

/// Some field flag is given.
pub open spec fn any_set_spec(f: AddFlags) -> bool {
    exists|i: int| 0 <= i < flag_table(f).len() && (#[trigger] flag_table(f)[i]).0
}

impl AddFlags {
    /// Whether any field flag is given.
    pub fn any_set(&self) -> (r: bool)
        ensures
            r == any_set_spec(*self),
    {
        let r = self.trigger.is_some() || self.check.is_some() || self.caveat.is_some()
            || self.prereq.len() > 0 || self.cadence.is_some() || self.role.is_some()
            || self.dispatches_to.len() > 0 || self.handles_directly.len() > 0
            || self.scope.is_some() || self.evidence.is_some() || self.tension.is_some()
            || self.context.is_some() || self.refs.len() > 0;
        proof {
            let t = flag_table(*self);
            if r {
                if self.trigger is Some {
                    assert(t[0].0);
                } else if self.check is Some {
                    assert(t[1].0);
                } else if self.caveat is Some {
                    assert(t[2].0);
                } else if self.prereq@.len() > 0 {
                    assert(t[3].0);
                } else if self.cadence is Some {
                    assert(t[4].0);
                } else if self.role is Some {
                    assert(t[5].0);
                } else if self.dispatches_to@.len() > 0 {
                    assert(t[6].0);
                } else if self.handles_directly@.len() > 0 {
                    assert(t[7].0);
                } else if self.scope is Some {
                    assert(t[8].0);
                } else if self.evidence is Some {
                    assert(t[9].0);
                } else if self.tension is Some {
                    assert(t[10].0);
                } else if self.context is Some {
                    assert(t[11].0);
                } else {
                    assert(t[12].0);
                }
            }
        }
        r
    }
}

pub open spec fn mutex_message() -> Seq<char> {
    "--from-file is mutually exclusive with per-type field flags (--trigger, --check, --role, ...); pass fields inside the file's frontmatter"@
}

pub open spec fn content_message() -> Seq<char> {
    "positional <content> required when --from-file is not used"@
}

/// `--NAME is not valid for --type TYPE; valid types: T1, T2`.
pub open spec fn flag_message(name: Seq<char>, t: UnitType, valid: Seq<UnitType>) -> Seq<char> {
    "--"@ + name + " is not valid for --type "@ + unit_type_name(t) + "; valid types: "@
        + text::join(valid.map_values(|v: UnitType| unit_type_name(v)), ", "@)
}

/// The message of the first given flag (from position `i` on) that is not
/// valid for type `t`.
pub open spec fn first_bad_flag(tbl: Seq<(bool, Seq<char>, Seq<UnitType>)>, t: UnitType, i: int) -> Option<
    Seq<char>,
>
    decreases tbl.len() - i,
{
    if i < 0 || i >= tbl.len() {
        None
    } else if tbl[i].0 && !tbl[i].2.contains(t) {
        Some(flag_message(tbl[i].1, t, tbl[i].2))
    } else {
        first_bad_flag(tbl, t, i + 1)
    }
}

/// The error `add` reports for these flags, or `None` when they are
/// accepted: a file source excludes field flags; without a file the body
/// must be given; each given flag must suit the unit type.
pub open spec fn add_flags_error(t: UnitType, f: AddFlags, from_file: bool, has_content: bool) -> Option<
    Seq<char>,
> {
    if from_file && any_set_spec(f) {
        Some(mutex_message())
    } else if !from_file && !has_content {
        Some(content_message())
    } else {
        first_bad_flag(flag_table(f), t, 0)
    }
}

fn flag_check(present: bool, name: &str, t: UnitType, valid: &Vec<UnitType>) -> (r: Option<String>)
    ensures
        r matches Some(m) ==> present && !valid@.contains(t) && m@ == flag_message(name@, t, valid@),
        r is None ==> !(present && !valid@.contains(t)),
{
    if !present {
        return None;
    }
    let mut i: usize = 0;
    while i < valid.len()
        invariant
            i <= valid@.len(),
            forall|k: int| 0 <= k < i ==> valid@[k] != t,
        decreases valid@.len() - i,
    {
        if valid[i] == t {
            assert(valid@.contains(t)) by {
                assert(valid@[i as int] == t);
            }
            return None;
        }
        i = i + 1;
    }
    let mut names: Vec<Vec<char>> = Vec::new();
    let mut j: usize = 0;
    while j < valid.len()
        invariant
            j <= valid@.len(),
            names@.len() == j,
            forall|k: int| 0 <= k < j ==> #[trigger] names@[k]@ == unit_type_name(valid@[k]),
        decreases valid@.len() - j,
    {
        names.push(lit(valid[j].as_str()));
        j = j + 1;
    }
    assert(text::views(names@) =~= valid@.map_values(|v: UnitType| unit_type_name(v)));
    let joined = text::join_exec(&names, &lit(", "));
    let mut m = lit("--");
    append_chars(&mut m, &lit(name));
    append_chars(&mut m, &lit(" is not valid for --type "));
    append_chars(&mut m, &lit(t.as_str()));
    append_chars(&mut m, &lit("; valid types: "));
    append_chars(&mut m, &joined);
    Some(string_of(m.as_slice()))
}

/// Validate the field flags of `add` against the unit type, the optional
/// `--from-file` source and the optional positional content.
pub fn validate_add_flags(
    unit_type: UnitType,
    flags: &AddFlags,
    from_file: Option<&str>,
    content: Option<&str>,
) -> (r: Result<(), String>)
    ensures
        match add_flags_error(unit_type, *flags, from_file is Some, content is Some) {
            None => r is Ok,
            Some(m) => r matches Err(e) && e@ == m,
        },
{
    if from_file.is_some() && flags.any_set() {
        return Err(
            "--from-file is mutually exclusive with per-type field flags (--trigger, --check, --role, ...); pass fields inside the file's frontmatter".to_owned(),
        );
    }
    if from_file.is_none() && content.is_none() {
        return Err("positional <content> required when --from-file is not used".to_owned());
    }
    let ghost tbl = flag_table(*flags);
    let mut i: usize = 0;
    while i < 13
        invariant
            i <= 13,
            tbl == flag_table(*flags),
            !(from_file is Some && any_set_spec(*flags)),
            !(from_file is None && content is None),
            first_bad_flag(tbl, unit_type, i as int) == first_bad_flag(tbl, unit_type, 0),
        decreases 13 - i,
    {
        let (present, name, valid) = flag_entry(flags, i);
        match flag_check(present, name, unit_type, &valid) {
            Some(m) => {
                return Err(m);
            },
            None => {},
        }
        i = i + 1;
    }
    Ok(())
}

/// Entry `i` of the flag table.
fn flag_entry(f: &AddFlags, i: usize) -> (r: (bool, &'static str, Vec<UnitType>))
    requires
        i < 13,
    ensures
        (r.0, r.1@, r.2@) == flag_table(*f)[i as int],
{
    let ghost t = flag_table(*f);
    if i == 0 {
        (f.trigger.is_some(), "trigger", vec![UnitType::Procedure])
    } else if i == 1 {
        (f.check.is_some(), "check", vec![UnitType::Procedure])
    } else if i == 2 {
        (f.caveat.is_some(), "caveat", vec![UnitType::Procedure])
    } else if i == 3 {
        (f.prereq.len() > 0, "prereq", vec![UnitType::Procedure])
    } else if i == 4 {
        (f.cadence.is_some(), "cadence", vec![UnitType::Procedure])
    } else if i == 5 {
        (f.role.is_some(), "role", vec![UnitType::Aspect])
    } else if i == 6 {
        (f.dispatches_to.len() > 0, "dispatches-to", vec![UnitType::Aspect])
    } else if i == 7 {
        (f.handles_directly.len() > 0, "handles-directly", vec![UnitType::Aspect])
    } else if i == 8 {
        let r = (f.scope.is_some(), "scope", vec![UnitType::Fact, UnitType::Lesson]);
        assert(r.2@ =~= t[8].2);
        r
    } else if i == 9 {
        (f.evidence.is_some(), "evidence", vec![UnitType::Fact])
    } else if i == 10 {
        (f.tension.is_some(), "tension", vec![UnitType::Principle])
    } else if i == 11 {
        (f.context.is_some(), "context", vec![UnitType::Lesson])
    } else {
        let r = (
            f.refs.len() > 0,
            "ref",
            vec![
                UnitType::Procedure,
                UnitType::Aspect,
                UnitType::Fact,
                UnitType::Principle,
                UnitType::Lesson,
            ],
        );
        assert(r.2@ =~= t[12].2);
        r
    }
}


// ---------------------------------------------------------------------------
// Frontmatter from field flags
// ---------------------------------------------------------------------------

/// A frontmatter field value: one scalar or a list of scalars.
#[derive(Debug, Clone)]
pub enum FieldValue {
    Scalar(String),
    List(Vec<String>),
}

pub enum FieldValueView {
    Scalar(Seq<char>),
    List(Seq<Seq<char>>),
}

pub open spec fn field_value_view(v: FieldValue) -> FieldValueView {
    match v {
        FieldValue::Scalar(s) => FieldValueView::Scalar(s@),
        FieldValue::List(l) => FieldValueView::List(l@.map_values(|x: String| x@)),
    }
}

pub open spec fn fields_view(fs: Seq<(String, FieldValue)>) -> Seq<(Seq<char>, FieldValueView)> {
    fs.map_values(|e: (String, FieldValue)| (e.0@, field_value_view(e.1)))
}

/// An optional flag's value, empty when absent.
pub open spec fn or_empty(o: Option<String>) -> Seq<char> {
    match o {
        Some(s) => s@,
        None => Seq::empty(),
    }
}

pub open spec fn list_view(v: Vec<String>) -> Seq<Seq<char>> {
    v@.map_values(|x: String| x@)
}

/// The frontmatter schema of a type, filled from the flags: its fields in
/// schema order; none for preferences and ideas.
pub open spec fn type_fields(t: UnitType, f: AddFlags) -> Option<Seq<(Seq<char>, FieldValueView)>> {
    let sc = |o: Option<String>| FieldValueView::Scalar(or_empty(o));
    let ls = |v: Vec<String>| FieldValueView::List(list_view(v));
    match t {
        UnitType::Procedure => Some(
            seq![
                ("trigger"@, sc(f.trigger)),
                ("check"@, sc(f.check)),
                ("cadence"@, sc(f.cadence)),
                ("caveat"@, sc(f.caveat)),
                ("prereq"@, ls(f.prereq)),
                ("refs"@, ls(f.refs)),
            ],
        ),
        UnitType::Aspect => Some(
            seq![
                ("role"@, sc(f.role)),
                ("dispatches_to"@, ls(f.dispatches_to)),
                ("handles_directly"@, ls(f.handles_directly)),
                ("refs"@, ls(f.refs)),
            ],
        ),
        UnitType::Fact => Some(
            seq![("scope"@, sc(f.scope)), ("evidence"@, sc(f.evidence)), ("refs"@, ls(f.refs))],
        ),
        UnitType::Principle => Some(seq![("tension"@, sc(f.tension)), ("refs"@, ls(f.refs))]),
        UnitType::Lesson => Some(
            seq![("context"@, sc(f.context)), ("scope"@, sc(f.scope)), ("refs"@, ls(f.refs))],
        ),
        UnitType::Preference | UnitType::Idea => None,
    }
}

/// A field carries a value: a non-empty scalar or a non-empty list.
pub open spec fn field_set(v: FieldValueView) -> bool {
    match v {
        FieldValueView::Scalar(s) => s.len() > 0,
        FieldValueView::List(l) => l.len() > 0,
    }
}

/// `  - 'item'` lines for the first `k` items.
pub open spec fn item_lines(items: Seq<Seq<char>>, k: int) -> Seq<char>
    decreases k,
{
    if k <= 0 {
        Seq::empty()
    } else {
        item_lines(items, k - 1) + "  - "@ + emit::yaml_single_quote_spec(items[k - 1]) + "\n"@
    }
}

/// YAML lines for one field: `key: 'value'`, or `key:` then one quoted
/// item per line; nothing for a field without a value.
pub open spec fn field_lines(k: Seq<char>, v: FieldValueView) -> Seq<char> {
    if !field_set(v) {
        Seq::empty()
    } else {
        match v {
            FieldValueView::Scalar(s) => k + ": "@ + emit::yaml_single_quote_spec(s) + "\n"@,
            FieldValueView::List(l) => k + ":\n"@ + item_lines(l, l.len() as int),
        }
    }
}

pub open spec fn fields_lines(fs: Seq<(Seq<char>, FieldValueView)>, k: int) -> Seq<char>
    decreases k,
{
    if k <= 0 {
        Seq::empty()
    } else {
        fields_lines(fs, k - 1) + field_lines(fs[k - 1].0, fs[k - 1].1)
    }
}

/// A frontmatter block (`---` fences around the lines of the fields that
/// carry a value), or nothing when no field carries one.
pub open spec fn frontmatter_block(fs: Seq<(Seq<char>, FieldValueView)>) -> Option<Seq<char>> {
    if exists|i: int| 0 <= i < fs.len() && field_set(#[trigger] fs[i].1) {
        Some("---\n"@ + fields_lines(fs, fs.len() as int) + "---\n"@)
    } else {
        None
    }
}

fn field_lines_exec(k: &String, v: &FieldValue) -> (r: (bool, Vec<char>))
    ensures
        r.0 == field_set(field_value_view(*v)),
        r.1@ == field_lines(k@, field_value_view(*v)),
{
    match v {
        FieldValue::Scalar(s) => {
            if chars_of(s.as_str()).len() == 0 {
                return (false, Vec::new());
            }
            let mut out = chars_of(k.as_str());
            append_chars(&mut out, &lit(": "));
            append_chars(&mut out, &chars_of(yaml_single_quote(s.as_str()).as_str()));
            append_chars(&mut out, &lit("\n"));
            assert(out@ =~= field_lines(k@, field_value_view(*v)));
            (true, out)
        },
        FieldValue::List(items) => {
            let ghost iv = items@.map_values(|x: String| x@);
            if items.len() == 0 {
                return (false, Vec::new());
            }
            let mut out = chars_of(k.as_str());
            append_chars(&mut out, &lit(":\n"));
            let ghost head = out@;
            let mut j: usize = 0;
            while j < items.len()
                invariant
                    j <= items@.len(),
                    iv == items@.map_values(|x: String| x@),
                    out@ == head + item_lines(iv, j as int),
                decreases items@.len() - j,
            {
                append_chars(&mut out, &lit("  - "));
                append_chars(&mut out, &chars_of(yaml_single_quote(items[j].as_str()).as_str()));
                append_chars(&mut out, &lit("\n"));
                j = j + 1;
            }
            assert(out@ =~= field_lines(k@, field_value_view(*v)));
            (true, out)
        },
    }
}

/// Frontmatter block for the given fields: the fields that carry a value,
/// in order, between `---` fences; `None` when none carries a value.
pub fn build_frontmatter(fields: &Vec<(String, FieldValue)>) -> (r: Option<String>)
    ensures
        match r {
            Some(b) => frontmatter_block(fields_view(fields@)) == Some(b@),
            None => frontmatter_block(fields_view(fields@)) is None,
        },
{
    let ghost fv = fields_view(fields@);
    let mut out = lit("---\n");
    let mut any = false;
    let mut i: usize = 0;
    while i < fields.len()
        invariant
            i <= fields@.len(),
            fv == fields_view(fields@),
            out@ == "---\n"@ + fields_lines(fv, i as int),
            any == exists|m: int| 0 <= m < i && field_set(#[trigger] fv[m].1),
        decreases fields@.len() - i,
    {
        let (set, lines) = field_lines_exec(&fields[i].0, &fields[i].1);
        if set {
            any = true;
        }
        assert(fv[i as int] == (fields@[i as int].0@, field_value_view(fields@[i as int].1)));
        append_chars(&mut out, &lines);
        assert(out@ =~= "---\n"@ + fields_lines(fv, i + 1));
        i = i + 1;
    }
    if !any {
        return None;
    }
    append_chars(&mut out, &lit("---\n"));
    Some(string_of(out.as_slice()))
}

fn scalar_field(key: &str, o: &Option<String>) -> (r: (String, FieldValue))
    ensures
        r.0@ == key@,
        field_value_view(r.1) == FieldValueView::Scalar(or_empty(*o)),
{
    let v = match o {
        Some(s) => s.clone(),
        None => String::new(),
    };
    (key.to_owned(), FieldValue::Scalar(v))
}

fn list_field(key: &str, v: &Vec<String>) -> (r: (String, FieldValue))
    ensures
        r.0@ == key@,
        field_value_view(r.1) == FieldValueView::List(list_view(*v)),
{
    let mut out: Vec<String> = Vec::new();
    let mut i: usize = 0;
    while i < v.len()
        invariant
            i <= v@.len(),
            out@.len() == i,
            forall|k: int| 0 <= k < i ==> #[trigger] out@[k]@ == v@[k]@,
        decreases v@.len() - i,
    {
        out.push(v[i].clone());
        i = i + 1;
    }
    assert(out@.map_values(|x: String| x@) =~= list_view(*v));
    (key.to_owned(), FieldValue::List(out))
}

/// The frontmatter block built from the per-type field flags: the type's
/// schema fields in order, those given written as YAML; `None` for types
/// without a schema or when no field is given.
pub fn build_type_frontmatter(unit_type: UnitType, flags: &AddFlags) -> (r: Option<String>)
    ensures
        match type_fields(unit_type, *flags) {
            None => r is None,
            Some(fs) => match r {
                Some(b) => frontmatter_block(fs) == Some(b@),
                None => frontmatter_block(fs) is None,
            },
        },
{
    let mut fields: Vec<(String, FieldValue)> = Vec::new();
    match unit_type {
        UnitType::Procedure => {
            fields.push(scalar_field("trigger", &flags.trigger));
            fields.push(scalar_field("check", &flags.check));
            fields.push(scalar_field("cadence", &flags.cadence));
            fields.push(scalar_field("caveat", &flags.caveat));
            fields.push(list_field("prereq", &flags.prereq));
            fields.push(list_field("refs", &flags.refs));
        },
        UnitType::Aspect => {
            fields.push(scalar_field("role", &flags.role));
            fields.push(list_field("dispatches_to", &flags.dispatches_to));
            fields.push(list_field("handles_directly", &flags.handles_directly));
            fields.push(list_field("refs", &flags.refs));
        },
        UnitType::Fact => {
            fields.push(scalar_field("scope", &flags.scope));
            fields.push(scalar_field("evidence", &flags.evidence));
            fields.push(list_field("refs", &flags.refs));
        },
        UnitType::Principle => {
            fields.push(scalar_field("tension", &flags.tension));
            fields.push(list_field("refs", &flags.refs));
        },
        UnitType::Lesson => {
            fields.push(scalar_field("context", &flags.context));
            fields.push(scalar_field("scope", &flags.scope));
            fields.push(list_field("refs", &flags.refs));
        },
        UnitType::Preference | UnitType::Idea => {
            return None;
        },
    }
    proof {
        assert(fields_view(fields@) =~= type_fields(unit_type, *flags)->0);
    }
    build_frontmatter(&fields)
}

} // verus!
