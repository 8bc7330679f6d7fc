//! The matcher: the lines of a text that contain a query, exactly or with
//! case folded.

use vstd::prelude::*;
use crate::lines::split_lines;
use crate::text::{contains_seq, has_substring, lines_of, lower_of, lowercase, newline_pieces};

verus! {

/// Whether a line holds the query exactly.
pub open spec fn holds_query(q: Seq<char>) -> spec_fn(Seq<char>) -> bool {
    |l: Seq<char>| contains_seq(l, q)
}

/// Whether a line holds the query once both are lowercased.
pub open spec fn holds_query_folded(q: Seq<char>) -> spec_fn(Seq<char>) -> bool {
    |l: Seq<char>| contains_seq(lower_of(l), lower_of(q))
}

/// The lines of `c` that contain `q`, in their order in `c`.
pub open spec fn search_spec(q: Seq<char>, c: Seq<char>) -> Seq<Seq<char>> {
    lines_of(c).filter(holds_query(q))
}

/// The lines of `c` whose lowercase form contains the lowercase form of `q`,
/// in their order in `c` and with their own case.
pub open spec fn search_ignore_case_spec(q: Seq<char>, c: Seq<char>) -> Seq<Seq<char>> {
    lines_of(c).filter(holds_query_folded(q))
}

/// The lines whose key, at the same position, contains `q`.
pub open spec fn select_by_key(
    lines: Seq<Seq<char>>,
    keys: Seq<Seq<char>>,
    q: Seq<char>,
) -> Seq<Seq<char>>
    decreases lines.len(),
{
    if lines.len() == 0 {
        lines
    } else {
        let sub = select_by_key(lines.drop_last(), keys.drop_last(), q);
        if contains_seq(keys[lines.len() - 1], q) {
            sub.push(lines.last())
        } else {
            sub
        }
    }
}

/// The text of each line.
pub open spec fn texts<'a>(v: Seq<&'a str>) -> Seq<Seq<char>> {
    v.map_values(|l: &'a str| l@)
}

/// The text of each string.
pub open spec fn owned_texts(v: Seq<String>) -> Seq<Seq<char>> {
    v.map_values(|l: String| l@)
}

/// Returns the lines of `content` that contain `query`, in order.
pub fn search<'a>(query: &str, content: &'a str) -> (r: Vec<&'a str>)
    ensures
        texts(r@) == search_spec(query@, content@),
{
    let lines = split_lines(content);
    let ghost all = texts(lines@);
    let mut found: Vec<&'a str> = Vec::new();
    let mut i: usize = 0;
    while i < lines.len()
        invariant
            i <= lines.len(),
            all == texts(lines@),
            all == lines_of(content@),
            texts(found@) == all.take(i as int).filter(holds_query(query@)),
        decreases lines.len() - i,
    {
        let line = lines[i];
        let keep = has_substring(line, query);
        proof {
            reveal(Seq::filter);
            assert(all.take(i + 1).drop_last() =~= all.take(i as int));
            assert(all.take(i + 1).last() == line@);
            assert(holds_query(query@)(line@) == keep);
        }
        let ghost before = texts(found@);
        if keep {
            found.push(line);
            assert(texts(found@) =~= before.push(line@));
        }
        i = i + 1;
    }
    assert(all.take(i as int) =~= all);
    found
}

/// Returns `lines[i]` for each `i` whose `folded[i]` contains
/// `query_folded`, in order.
pub fn search_folded<'a>(query_folded: &str, lines: &Vec<&'a str>, folded: &Vec<String>) -> (r: Vec<
    &'a str,
>)
    requires
        lines.len() == folded.len(),
    ensures
        texts(r@) == select_by_key(texts(lines@), owned_texts(folded@), query_folded@),
{
    let ghost all = texts(lines@);
    let ghost keys = owned_texts(folded@);
    let mut found: Vec<&'a str> = Vec::new();
    let mut i: usize = 0;
    while i < lines.len()
        invariant
            i <= lines.len(),
            lines.len() == folded.len(),
            all == texts(lines@),
            keys == owned_texts(folded@),
            texts(found@) == select_by_key(
                all.take(i as int),
                keys.take(i as int),
                query_folded@,
            ),
        decreases lines.len() - i,
    {
        let keep = has_substring(folded[i].as_str(), query_folded);
        proof {
            assert(all.take(i + 1).drop_last() =~= all.take(i as int));
            assert(keys.take(i + 1).drop_last() =~= keys.take(i as int));
        }
        let ghost before = texts(found@);
        if keep {
            found.push(lines[i]);
            assert(texts(found@) =~= before.push(all[i as int]));
        }
        i = i + 1;
    }
    assert(all.take(i as int) =~= all);
    assert(keys.take(i as int) =~= keys);
    found
}

proof fn lemma_select_by_folded_key(lines: Seq<Seq<char>>, keys: Seq<Seq<char>>, q: Seq<char>)
    requires
        keys.len() == lines.len(),
        forall|i: int| 0 <= i < lines.len() ==> keys[i] == lower_of(#[trigger] lines[i]),
    ensures
        select_by_key(lines, keys, lower_of(q)) == lines.filter(holds_query_folded(q)),
    decreases lines.len(),
{
    reveal(Seq::filter);
    if lines.len() > 0 {
        let n = lines.len() - 1;
        assert(lines[n] == lines.last());
        assert(keys[n] == lower_of(lines[n]));
        assert forall|i: int| 0 <= i < n implies keys.drop_last()[i] == lower_of(
            #[trigger] lines.drop_last()[i],
        ) by {
            assert(keys[i] == lower_of(lines[i]));
        }
        lemma_select_by_folded_key(lines.drop_last(), keys.drop_last(), q);
        assert(holds_query_folded(q)(lines.last()) == contains_seq(keys[n], lower_of(q)));
    }
}

/// Returns the lines of `content` that contain `query` when both are
/// lowercased, in order and with their own case.
pub fn search_ignore_case<'a>(query: &str, content: &'a str) -> (r: Vec<&'a str>)
    ensures
        texts(r@) == search_ignore_case_spec(query@, content@),
{
    let query_folded = lowercase(query);
    let lines = split_lines(content);
    let mut folded: Vec<String> = Vec::new();
    let mut i: usize = 0;
    while i < lines.len()
        invariant
            i <= lines.len(),
            folded.len() == i,
            forall|j: int| 0 <= j < i ==> (#[trigger] folded@[j])@ == lower_of(lines@[j]@),
        decreases lines.len() - i,
    {
        folded.push(lowercase(lines[i]));
        i = i + 1;
    }
    let found = search_folded(query_folded.as_str(), &lines, &folded);
    proof {
        lemma_select_by_folded_key(texts(lines@), owned_texts(folded@), query@);
    }
    found
}

/// `idx` lists, for each element of `r`, a position in `s` holding it, and the
/// positions rise strictly: `r` is `s` with some elements left out and the
/// rest kept in their order.
pub open spec fn picked_from<A>(r: Seq<A>, s: Seq<A>, idx: Seq<int>) -> bool {
    &&& idx.len() == r.len()
    &&& forall|j: int| 0 <= j < idx.len() ==> 0 <= #[trigger] idx[j] < s.len() && r[j] == s[idx[j]]
    &&& forall|j: int, k: int| 0 <= j < k < idx.len() ==> #[trigger] idx[j] < #[trigger] idx[k]
}

/// The positions in `s` of the elements that `p` keeps.
pub open spec fn kept_positions<A>(s: Seq<A>, p: spec_fn(A) -> bool) -> Seq<int>
    decreases s.len(),
{
    if s.len() == 0 {
        Seq::empty()
    } else {
        let sub = kept_positions(s.drop_last(), p);
        if p(s.last()) {
            sub.push(s.len() - 1)
        } else {
            sub
        }
    }
}

proof fn lemma_filter_picks<A>(s: Seq<A>, p: spec_fn(A) -> bool)
    ensures
        picked_from(s.filter(p), s, kept_positions(s, p)),
        forall|i: int|
            0 <= i < s.len() && p(#[trigger] s[i]) ==> kept_positions(s, p).contains(i),
    decreases s.len(),
{
    reveal(Seq::filter);
    if s.len() > 0 {
        let t = s.drop_last();
        lemma_filter_picks(t, p);
        let sub = kept_positions(t, p);
        let n = s.len() - 1;
        assert forall|i: int| 0 <= i < s.len() && p(#[trigger] s[i]) implies kept_positions(
            s,
            p,
        ).contains(i) by {
            if i < n {
                assert(t[i] == s[i]);
                let j = choose|j: int| 0 <= j < sub.len() && sub[j] == i;
                if p(s.last()) {
                    assert(sub.push(n)[j] == i);
                }
            } else {
                assert(sub.push(n)[sub.len() as int] == n);
            }
        }
    }
}

/// Every line that `search` returns contains the query, and the lines come in
/// the order they have in the content.
pub proof fn law_search_lines_contain_query(q: Seq<char>, c: Seq<char>)
    ensures
        forall|j: int|
            0 <= j < search_spec(q, c).len() ==> contains_seq(#[trigger] search_spec(q, c)[j], q),
        exists|idx: Seq<int>| picked_from(search_spec(q, c), lines_of(c), idx),
{
    let lines = lines_of(c);
    let p = holds_query(q);
    lemma_filter_picks(lines, p);
    assert forall|j: int| 0 <= j < search_spec(q, c).len() implies contains_seq(
        #[trigger] search_spec(q, c)[j],
        q,
    ) by {
        lines.lemma_filter_pred(p, j);
    }
}

/// `search` picks out of the lines of the content exactly those that contain
/// the query: what it leaves out does not contain the query.
pub proof fn law_search_keeps_exactly_matching(q: Seq<char>, c: Seq<char>)
    ensures
        exists|idx: Seq<int>|
            picked_from(search_spec(q, c), lines_of(c), idx) && forall|i: int|
                0 <= i < lines_of(c).len() && !idx.contains(i) ==> !contains_seq(
                    #[trigger] lines_of(c)[i],
                    q,
                ),
{
    let lines = lines_of(c);
    let p = holds_query(q);
    lemma_filter_picks(lines, p);
    let idx = kept_positions(lines, p);
    assert forall|i: int| 0 <= i < lines.len() && !idx.contains(i) implies !contains_seq(
        #[trigger] lines[i],
        q,
    ) by {
        if contains_seq(lines[i], q) {
            assert(p(lines[i]));
        }
    }
    assert(picked_from(search_spec(q, c), lines, idx));
}

/// `search_ignore_case` returns, in order, exactly the lines that contain the
/// query once both are lowercased, whatever the case they are written in.
pub proof fn law_search_ignore_case_matching(q: Seq<char>, c: Seq<char>)
    ensures
        forall|j: int|
            0 <= j < search_ignore_case_spec(q, c).len() ==> contains_seq(
                lower_of(#[trigger] search_ignore_case_spec(q, c)[j]),
                lower_of(q),
            ),
        exists|idx: Seq<int>|
            picked_from(search_ignore_case_spec(q, c), lines_of(c), idx) && forall|i: int|
                0 <= i < lines_of(c).len() && contains_seq(
                    lower_of(#[trigger] lines_of(c)[i]),
                    lower_of(q),
                ) ==> idx.contains(i),
{
    let lines = lines_of(c);
    let p = holds_query_folded(q);
    lemma_filter_picks(lines, p);
    assert forall|j: int| 0 <= j < search_ignore_case_spec(q, c).len() implies contains_seq(
        lower_of(#[trigger] search_ignore_case_spec(q, c)[j]),
        lower_of(q),
    ) by {
        lines.lemma_filter_pred(p, j);
    }
    let idx = kept_positions(lines, p);
    assert forall|i: int|
        0 <= i < lines.len() && contains_seq(
            lower_of(#[trigger] lines[i]),
            lower_of(q),
        ) implies idx.contains(i) by {
        assert(p(lines[i]));
    }
}

/// With an empty query, `search` returns every line of the content.
pub proof fn law_search_empty_query(c: Seq<char>)
    ensures
        search_spec(Seq::empty(), c) == lines_of(c),
{
    lemma_filter_all(lines_of(c), Seq::empty());
}

proof fn lemma_filter_all(s: Seq<Seq<char>>, q: Seq<char>)
    requires
        q.len() == 0,
    ensures
        s.filter(holds_query(q)) == s,
    decreases s.len(),
{
    reveal(Seq::filter);
    if s.len() > 0 {
        lemma_filter_all(s.drop_last(), q);
        assert(s.last().subrange(0, 0 + q.len() as int) =~= q);
        assert(holds_query(q)(s.last()));
        assert(s.drop_last().push(s.last()) =~= s);
    }
}

/// In empty content `search` finds nothing.
pub proof fn law_search_empty_content(q: Seq<char>)
    ensures
        search_spec(q, Seq::empty()) == Seq::<Seq<char>>::empty(),
{
    reveal(Seq::filter);
    let p = newline_pieces(Seq::empty());
    assert(p.last().len() == 0);
    assert(lines_of(Seq::empty()) =~= Seq::<Seq<char>>::empty());
}

} // verus!
