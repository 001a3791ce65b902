//! Turning free text into full-text-search queries: words are split on
//! whitespace and hyphens, stripped to alphanumerics and underscores,
//! lowercased, quoted, and joined with `OR`.
use vstd::prelude::*;
use crate::text;
use crate::text::{append_chars, chars_of, is_whitespace, lit, string_of};
use crate::tag_guard;
use crate::tag_guard::to_lowercase;
use crate::lint;
use crate::lint::is_alnum;

verus! {

broadcast use vstd::string::group_string_axioms;

/// The query with every hyphen turned into a space.
pub open spec fn dehyphen(q: Seq<char>) -> Seq<char> {
    q.map_values(|c: char| if c == '-' { ' ' } else { c })
}

/// Characters kept inside a search term.
pub open spec fn term_char(c: char) -> bool {
    lint::alphanumeric(c) || c == '_'
}

/// Whitespace-separated words of `s` from position `i`, with the word in
/// progress `cur` (its kept characters only, so far) and terms `acc`
/// collected: each word's kept characters, lowercased; words with none
/// dropped.
pub open spec fn terms_from(s: Seq<char>, i: int, cur: Seq<char>, acc: Seq<Seq<char>>) -> Seq<Seq<char>>
    decreases s.len() - i,
{
    if i < 0 || i >= s.len() {
        if tag_guard::lowercase(cur).len() > 0 {
            acc.push(tag_guard::lowercase(cur))
        } else {
            acc
        }
    } else if text::is_ws(s[i]) {
        terms_from(
            s,
            i + 1,
            Seq::empty(),
            if tag_guard::lowercase(cur).len() > 0 {
                acc.push(tag_guard::lowercase(cur))
            } else {
                acc
            },
        )
    } else if term_char(s[i]) {
        terms_from(s, i + 1, cur.push(s[i]), acc)
    } else {
        terms_from(s, i + 1, cur, acc)
    }
}

/// The search terms of a query.
pub open spec fn query_terms(q: Seq<char>) -> Seq<Seq<char>> {
    terms_from(dehyphen(q), 0, Seq::empty(), Seq::empty())
}

/// `"term"`.
pub open spec fn quoted(t: Seq<char>) -> Seq<char> {
    seq!['"'] + t + seq!['"']
}

/// Terms quoted and joined with ` OR `.
pub open spec fn or_query(ts: Seq<Seq<char>>) -> Seq<char> {
    text::join(ts.map_values(|t: Seq<char>| quoted(t)), " OR "@)
}

fn flush(acc: &mut Vec<Vec<char>>, cur: &Vec<char>)
    ensures
        text::views(final(acc)@) == if tag_guard::lowercase(cur@).len() > 0 {
            text::views(old(acc)@).push(tag_guard::lowercase(cur@))
        } else {
            text::views(old(acc)@)
        },
{
    let w = chars_of(to_lowercase(string_of(cur.as_slice()).as_str()).as_str());
    if w.len() > 0 {
        let ghost before = text::views(acc@);
        acc.push(w);
        assert(text::views(acc@) =~= before.push(tag_guard::lowercase(cur@)));
    }
}

/// The search terms of a query, as character vectors.
pub fn query_terms_exec(q: &str) -> (r: Vec<Vec<char>>)
    ensures
        text::views(r@) == query_terms(q@),
{
    let raw = chars_of(q);
    let mut s: Vec<char> = Vec::new();
    let mut k: usize = 0;
    while k < raw.len()
        invariant
            k <= raw@.len(),
            s@ == dehyphen(raw@).take(k as int),
        decreases raw@.len() - k,
    {
        let c = raw[k];
        s.push(if c == '-' { ' ' } else { c });
        k = k + 1;
        assert(s@ =~= dehyphen(raw@).take(k as int));
    }
    assert(dehyphen(raw@).take(raw@.len() as int) =~= dehyphen(q@));
    let mut acc: Vec<Vec<char>> = Vec::new();
    let mut cur: Vec<char> = Vec::new();
    let mut i: usize = 0;
    assert(text::views(acc@) =~= Seq::<Seq<char>>::empty());
    while i < s.len()
        invariant
            i <= s@.len(),
            s@ == dehyphen(q@),
            terms_from(s@, i as int, cur@, text::views(acc@)) == query_terms(q@),
        decreases s@.len() - i,
    {
        let c = s[i];
        if is_whitespace(c) {
            flush(&mut acc, &cur);
            cur = Vec::new();
        } else if is_alnum(c) || c == '_' {
            cur.push(c);
        }
        i = i + 1;
    }
    flush(&mut acc, &cur);
    acc
}

/// Quote each term and join with ` OR `.
pub fn or_query_exec(ts: &Vec<Vec<char>>) -> (r: Vec<char>)
    ensures
        r@ == or_query(text::views(ts@)),
{
    let mut q: Vec<Vec<char>> = Vec::new();
    let mut i: usize = 0;
    while i < ts.len()
        invariant
            i <= ts@.len(),
            q@.len() == i,
            forall|k: int| 0 <= k < i ==> #[trigger] q@[k]@ == quoted(ts@[k]@),
        decreases ts@.len() - i,
    {
        let mut w: Vec<char> = Vec::new();
        w.push('"');
        append_chars(&mut w, &ts[i]);
        w.push('"');
        assert(w@ =~= quoted(ts@[i as int]@));
        q.push(w);
        i = i + 1;
    }
    assert(text::views(q@) =~= text::views(ts@).map_values(|t: Seq<char>| quoted(t)));
    let sep = lit(" OR ");
    text::join_exec(&q, &sep)
}

/// The store's search query for free text: the terms quoted and joined
/// with `OR`; when no term survives, the text itself with hyphens turned
/// into spaces.
pub open spec fn store_query_spec(q: Seq<char>) -> Seq<char> {
    if query_terms(q).len() == 0 {
        dehyphen(q)
    } else {
        or_query(query_terms(q))
    }
}

/// Sanitize free text for the store's full-text index.
pub fn sanitize_fts_query(query: &str) -> (r: String)
    ensures
        r@ == store_query_spec(query@),
{
    let ts = query_terms_exec(query);
    if ts.len() == 0 {
        let raw = chars_of(query);
        let mut s: Vec<char> = Vec::new();
        let mut k: usize = 0;
        while k < raw.len()
            invariant
                k <= raw@.len(),
                s@ == dehyphen(raw@).take(k as int),
            decreases raw@.len() - k,
        {
            let c = raw[k];
            s.push(if c == '-' { ' ' } else { c });
            k = k + 1;
            assert(s@ =~= dehyphen(raw@).take(k as int));
        }
        assert(dehyphen(raw@).take(raw@.len() as int) =~= dehyphen(query@));
        return string_of(s.as_slice());
    }
    let q = or_query_exec(&ts);
    string_of(q.as_slice())
}

} // verus!
