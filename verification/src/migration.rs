//! Moving a store from integer keys to UUID keys: every unit gets a fresh
//! UUID, and the rows that pointed at units by their old integer key are
//! carried over with the new ids, or dropped when the unit they point at
//! no longer exists.
use vstd::prelude::*;
use crate::store;
use crate::text;

verus! {

broadcast use vstd::string::group_string_axioms;

/// Fresh ids drawn in this process, remembering the last one drawn. Only
/// `new` and `draw` touch the field, so it always holds the text of an
/// earlier `now_v7` id of this process, or nothing.
struct IdClock {
    last: Option<String>,
}

/// A version 7 UUID in hyphenated text: the version digit `7` at 14 and a
/// variant digit `8`, `9`, `a` or `b` at 19.
pub open spec fn v7_text(s: Seq<char>) -> bool {
    &&& store::hyphenated_uuid(s)
    &&& s[14] == '7'
    &&& (s[19] == '8' || s[19] == '9' || s[19] == 'a' || s[19] == 'b')
}

impl IdClock {
    spec fn last_id(&self) -> Option<Seq<char>> {
        match self.last {
            Some(s) => Some(s@),
            None => None,
        }
    }

    fn new() -> (r: Self)
        ensures
            r.last_id() is None,
    {
        IdClock { last: None }
    }

    /// `uuid::Uuid::now_v7()` as text. Its `Display` (the crate's
    /// `format_hyphenated`) writes 36 lowercase hexadecimal digits and
    /// hyphens at 8, 13, 18 and 23; the builder sets version 7 and the RFC
    /// variant. The crate documents that all ids `now_v7` makes in one
    /// process are ordered by creation; in this text form that order is the
    /// character order, so a drawn id comes after the one drawn before it.
    /// The digits themselves, which depend on the clock and on random
    /// bytes, are not stated.
    #[verifier::external_body]
    fn draw(&mut self) -> (r: String)
        ensures
            v7_text(r@),
            match old(self).last_id() {
                Some(p) => text::lex_lt(p, r@),
                None => true,
            },
            final(self).last_id() == Some(r@),
    {
        let id = uuid::Uuid::now_v7().to_string();
        self.last = Some(id.clone());
        id
    }
}

/// `n` fresh unit ids, one per old unit row: version 7 UUID text, in
/// strictly ascending order, hence all distinct.
pub fn new_unit_ids(n: usize) -> (r: Vec<String>)
    ensures
        r@.len() == n,
        forall|i: int| 0 <= i < n ==> v7_text(#[trigger] r@[i]@),
        forall|i: int, j: int| 0 <= i < j < n ==> text::lex_lt(#[trigger] r@[i]@, #[trigger] r@[j]@),
{
    let mut clock = IdClock::new();
    let mut out: Vec<String> = Vec::new();
    let mut i: usize = 0;
    while i < n
        invariant
            i <= n,
            out@.len() == i,
            forall|k: int| 0 <= k < i ==> v7_text(#[trigger] out@[k]@),
            forall|a: int, b: int| 0 <= a < b < i ==> text::lex_lt(#[trigger] out@[a]@, #[trigger] out@[b]@),
            i == 0 ==> clock.last_id() is None,
            i > 0 ==> clock.last_id() == Some(out@[i - 1]@),
        decreases n - i,
    {
        let id = clock.draw();
        proof {
            assert forall|a: int| 0 <= a < i implies text::lex_lt(out@[a]@, id@) by {
                if a < i - 1 {
                    text::law_lex_order_transitive(out@[a]@, out@[i - 1]@, id@);
                }
            }
        }
        out.push(id);
        i = i + 1;
    }
    out
}

/// Index of the last of the first `n` old keys equal to `x`, or -1.
pub open spec fn last_key(old: Seq<i64>, x: i64, n: int) -> int
    decreases n,
{
    if n <= 0 {
        -1
    } else if old[n - 1] == x {
        n - 1
    } else {
        last_key(old, x, n - 1)
    }
}

/// The new id of the unit whose old key is `x` (the one assigned last, as
/// a map filled row by row keeps), if any unit had that key.
pub open spec fn new_id_of(old: Seq<i64>, new: Seq<String>, x: i64) -> Option<Seq<char>> {
    let k = last_key(old, x, old.len() as int);
    if k >= 0 {
        Some(new[k]@)
    } else {
        None
    }
}

fn lookup(old: &Vec<i64>, new: &Vec<String>, x: i64) -> (r: Option<String>)
    requires
        old@.len() == new@.len(),
    ensures
        match new_id_of(old@, new@, x) {
            Some(id) => r matches Some(s) && s@ == id,
            None => r is None,
        },
{
    let mut j: usize = old.len();
    while j > 0
        invariant
            old@.len() == new@.len(),
            j <= old@.len(),
            last_key(old@, x, old@.len() as int) == last_key(old@, x, j as int),
        decreases j,
    {
        if old[j - 1] == x {
            let s = new[j - 1].clone();
            return Some(s);
        }
        j = j - 1;
    }
    None
}

/// The new endpoints of each old link (by the old keys of its two units):
/// both new ids when both units exist, else nothing (the link is dropped).
pub fn remap_links(old: &Vec<i64>, new: &Vec<String>, links: &Vec<(i64, i64)>) -> (r: Vec<
    Option<(String, String)>,
>)
    requires
        old@.len() == new@.len(),
    ensures
        r@.len() == links@.len(),
        forall|i: int|
            0 <= i < links@.len() ==> match (
                new_id_of(old@, new@, links@[i].0),
                new_id_of(old@, new@, links@[i].1),
            ) {
                (Some(a), Some(b)) => #[trigger] r@[i] matches Some(p) && p.0@ == a && p.1@ == b,
                _ => r@[i] is None,
            },
{
    let mut out: Vec<Option<(String, String)>> = Vec::new();
    let mut i: usize = 0;
    while i < links.len()
        invariant
            old@.len() == new@.len(),
            i <= links@.len(),
            out@.len() == i,
            forall|k: int|
                0 <= k < i ==> match (
                    new_id_of(old@, new@, links@[k].0),
                    new_id_of(old@, new@, links@[k].1),
                ) {
                    (Some(a), Some(b)) => #[trigger] out@[k] matches Some(p) && p.0@ == a && p.1@ == b,
                    _ => out@[k] is None,
                },
        decreases links@.len() - i,
    {
        let (from, to) = links[i];
        let e = match (lookup(old, new, from), lookup(old, new, to)) {
            (Some(a), Some(b)) => Some((a, b)),
            _ => None,
        };
        out.push(e);
        i = i + 1;
    }
    out
}

/// The new unit id for each row that points at a unit by its old key
/// (a mark), or nothing when that unit does not exist (the row is dropped).
pub fn remap_refs(old: &Vec<i64>, new: &Vec<String>, refs: &Vec<i64>) -> (r: Vec<Option<String>>)
    requires
        old@.len() == new@.len(),
    ensures
        r@.len() == refs@.len(),
        forall|i: int|
            0 <= i < refs@.len() ==> match new_id_of(old@, new@, refs@[i]) {
                Some(a) => #[trigger] r@[i] matches Some(s) && s@ == a,
                None => r@[i] is None,
            },
{
    let mut out: Vec<Option<String>> = Vec::new();
    let mut i: usize = 0;
    while i < refs.len()
        invariant
            old@.len() == new@.len(),
            i <= refs@.len(),
            out@.len() == i,
            forall|k: int|
                0 <= k < i ==> match new_id_of(old@, new@, refs@[k]) {
                    Some(a) => #[trigger] out@[k] matches Some(s) && s@ == a,
                    None => out@[k] is None,
                },
        decreases refs@.len() - i,
    {
        out.push(lookup(old, new, refs[i]));
        i = i + 1;
    }
    out
}

} // verus!
