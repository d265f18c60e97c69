//! Searching the indexed documents and ranking what was found.
use vstd::prelude::*;

use crate::diagnostics::{bytes_lt, bytes_lt_exec};
use crate::symbol_search::candidate::{match_view, symbol_match_spec, workspace_symbol_from_definition, SymbolMatch, WorkspaceSymbolKind};
use crate::symbol_search::score::{normalize_query, normalized_query};
use crate::position::Range;
use crate::symbols::Definition;
use crate::text::utf8;

verus! {

/// An indexed document: its URI, text, path inside the workspace and definitions.
pub struct IndexedText {
    pub uri: String,
    pub text: String,
    pub relative_path: String,
    pub definitions: Vec<Definition>,
}

/// A search result with the URI of its document.
pub struct RankedSymbol {
    pub uri: String,
    pub symbol: SymbolMatch,
}

pub type MatchV = (Seq<char>, WorkspaceSymbolKind, Range, Option<Seq<char>>, u32);

pub type RankedV = (Seq<char>, MatchV);

pub open spec fn ranked_view(r: RankedSymbol) -> RankedV {
    (r.uri@, match_view(r.symbol))
}

pub open spec fn ranked_views(s: Seq<RankedSymbol>) -> Seq<RankedV> {
    s.map_values(|r: RankedSymbol| ranked_view(r))
}

/// The results for the first `k` definitions of a document.
pub open spec fn doc_matches(d: IndexedText, q: Seq<char>, k: int) -> Seq<RankedV>
    decreases k,
{
    if k <= 0 {
        seq![]
    } else {
        doc_matches(d, q, k - 1) + match symbol_match_spec(d.text@, d.definitions@[k - 1], d.relative_path@, q) {
            Some(m) => seq![(d.uri@, m)],
            None => seq![],
        }
    }
}

pub open spec fn all_matches(docs: Seq<IndexedText>, q: Seq<char>, k: int) -> Seq<RankedV>
    decreases k,
{
    if k <= 0 {
        seq![]
    } else {
        all_matches(docs, q, k - 1) + doc_matches(docs[k - 1], q, docs[k - 1].definitions@.len() as int)
    }
}

/// `a` ranks before `b`: higher score, then name, URI, line and column.
pub open spec fn ranks_before(a: RankedV, b: RankedV) -> bool {
    let (ua, ma) = a;
    let (ub, mb) = b;
    ||| ma.4 > mb.4
    ||| (ma.4 == mb.4 && bytes_lt(utf8(ma.0), utf8(mb.0), 0))
    ||| (ma.4 == mb.4 && ma.0 == mb.0 && bytes_lt(utf8(ua), utf8(ub), 0))
    ||| (ma.4 == mb.4 && ma.0 == mb.0 && ua == ub && ma.2.start.line < mb.2.start.line)
    ||| (ma.4 == mb.4 && ma.0 == mb.0 && ua == ub && ma.2.start.line == mb.2.start.line
        && ma.2.start.character < mb.2.start.character)
}

/// Where a stable sort puts `x` among the sorted `s`.
pub open spec fn rank_pos(s: Seq<RankedV>, x: RankedV, p: int) -> int
    decreases s.len() - p,
{
    if p < 0 || p >= s.len() {
        s.len() as int
    } else if ranks_before(x, s[p]) {
        p
    } else {
        rank_pos(s, x, p + 1)
    }
}

/// The results ranked, ties kept in the order they were found.
pub open spec fn ranked(s: Seq<RankedV>) -> Seq<RankedV>
    decreases s.len(),
{
    if s.len() == 0 {
        seq![]
    } else {
        let r = ranked(s.drop_last());
        r.insert(rank_pos(r, s.last(), 0), s.last())
    }
}

/// The symbols that a query finds in the indexed documents, best first.
pub open spec fn workspace_symbols_spec(docs: Seq<IndexedText>, query: Seq<char>) -> Seq<RankedV> {
    ranked(all_matches(docs, normalized_query(query), docs.len() as int))
}

fn ranks_before_exec(a: &RankedSymbol, b: &RankedSymbol) -> (r: bool)
    ensures
        r == ranks_before(ranked_view(*a), ranked_view(*b)),
{
    let na = a.symbol.name.as_str().as_bytes();
    let nb = b.symbol.name.as_str().as_bytes();
    let ua = a.uri.as_str().as_bytes();
    let ub = b.uri.as_str().as_bytes();
    let same_name = crate::text::str_eq(a.symbol.name.as_str(), b.symbol.name.as_str());
    let same_uri = crate::text::str_eq(a.uri.as_str(), b.uri.as_str());
    let sa = a.symbol.range.start;
    let sb = b.symbol.range.start;
    a.symbol.score > b.symbol.score || (a.symbol.score == b.symbol.score && bytes_lt_exec(na, nb)) || (
    a.symbol.score == b.symbol.score && same_name && bytes_lt_exec(ua, ub)) || (a.symbol.score
        == b.symbol.score && same_name && same_uri && sa.line < sb.line) || (a.symbol.score == b.symbol.score
        && same_name && same_uri && sa.line == sb.line && sa.character < sb.character)
}

fn rank_symbols(found: Vec<RankedSymbol>) -> (sorted: Vec<RankedSymbol>)
    ensures
        ranked_views(sorted@) == ranked(ranked_views(found@)),
{
    let mut rest = found;
    let ghost input = ranked_views(rest@);
    let mut sorted: Vec<RankedSymbol> = Vec::new();
    let mut done: usize = 0;
    let total = rest.len();
    while rest.len() > 0
        invariant
            done + rest@.len() == total,
            total == input.len(),
            ranked_views(rest@) =~= input.subrange(done as int, total as int),
            ranked_views(sorted@) =~= ranked(input.subrange(0, done as int)),
        decreases rest@.len(),
    {
        let ghost rest_before = rest@;
        let x = rest.remove(0);
        let ghost xv = ranked_view(x);
        let ghost prev = ranked_views(sorted@);
        proof {
            assert(ranked_views(rest@) =~= ranked_views(rest_before).subrange(1, rest_before.len() as int));
        }
        let mut p: usize = 0;
        while p < sorted.len() && !ranks_before_exec(&x, &sorted[p])
            invariant
                p <= sorted@.len(),
                prev == ranked_views(sorted@),
                xv == ranked_view(x),
                rank_pos(prev, xv, p as int) == rank_pos(prev, xv, 0),
            decreases sorted@.len() - p,
        {
            p = p + 1;
        }
        sorted.insert(p, x);
        proof {
            assert(input.subrange(done as int, total as int)[0] == xv);
            assert(input.subrange(0, done + 1).drop_last() =~= input.subrange(0, done as int));
            assert(input.subrange(0, done + 1).last() == xv);
            assert(ranked_views(sorted@) =~= prev.insert(p as int, xv));
            assert(ranked_views(rest@) =~= input.subrange(done + 1, total as int));
        }
        done = done + 1;
    }
    proof {
        assert(input.subrange(0, total as int) =~= input);
    }
    sorted
}

/// The symbols that a query finds among the indexed documents (given in URI order), best
/// first: by score, then name, URI and position.
pub fn workspace_symbols(documents: &Vec<IndexedText>, query: &str) -> (r: Vec<RankedSymbol>)
    ensures
        ranked_views(r@) == workspace_symbols_spec(documents@, query@),
{
    let q = normalize_query(query);
    let mut found: Vec<RankedSymbol> = Vec::new();
    let n = documents.len();
    let mut k: usize = 0;
    while k < n
        invariant
            k <= n,
            n == documents@.len(),
            q@ == normalized_query(query@),
            ranked_views(found@) == all_matches(documents@, q@, k as int),
        decreases n - k,
    {
        let d = &documents[k];
        let m = d.definitions.len();
        let mut i: usize = 0;
        let ghost base = ranked_views(found@);
        while i < m
            invariant
                i <= m,
                m == d.definitions@.len(),
                *d == documents@[k as int],
                ranked_views(found@) == base + doc_matches(*d, q@, i as int),
            decreases m - i,
        {
            let ghost before = found@;
            match workspace_symbol_from_definition(
                d.text.as_str(),
                &d.definitions[i],
                d.relative_path.as_str(),
                q.as_str(),
            ) {
                Some(symbol) => {
                    found.push(RankedSymbol { uri: d.uri.clone(), symbol });
                    proof {
                        assert(ranked_views(found@) =~= ranked_views(before).push(ranked_view(found@.last())));
                    }
                },
                None => {},
            }
            proof {
                assert(ranked_views(found@) =~= base + doc_matches(*d, q@, i + 1));
            }
            i = i + 1;
        }
        k = k + 1;
    }
    rank_symbols(found)
}

pub open spec fn scores_descend(s: Seq<RankedV>) -> bool {
    forall|i: int, j: int| 0 <= i < j < s.len() ==> (#[trigger] s[i]).1.4 >= (#[trigger] s[j]).1.4
}

proof fn lemma_rank_pos(s: Seq<RankedV>, x: RankedV, p: int)
    requires
        0 <= p <= s.len(),
    ensures
        p <= rank_pos(s, x, p) <= s.len(),
        forall|i: int| p <= i < rank_pos(s, x, p) ==> !ranks_before(x, #[trigger] s[i]),
        rank_pos(s, x, p) < s.len() ==> ranks_before(x, s[rank_pos(s, x, p)]),
    decreases s.len() - p,
{
    if p < s.len() && !ranks_before(x, s[p]) {
        lemma_rank_pos(s, x, p + 1);
    }
}

proof fn lemma_ranked_descends(s: Seq<RankedV>)
    ensures
        scores_descend(ranked(s)),
        ranked(s).len() == s.len(),
    decreases s.len(),
{
    if s.len() > 0 {
        let r = ranked(s.drop_last());
        lemma_ranked_descends(s.drop_last());
        let x = s.last();
        let p = rank_pos(r, x, 0);
        lemma_rank_pos(r, x, 0);
        let w = r.insert(p, x);
        assert forall|i: int, j: int| 0 <= i < j < w.len() implies (#[trigger] w[i]).1.4 >= (#[trigger] w[j]).1.4 by {
            if i < p {
                assert(!ranks_before(x, r[i]));
                if j == p {
                } else if j > p {
                    if p < r.len() {
                        assert(ranks_before(x, r[p]));
                        assert(r[p].1.4 >= r[j - 1].1.4 || p == j - 1);
                    }
                } else {
                }
            } else if i == p {
                assert(ranks_before(x, r[p]));
                if j - 1 > p {
                    assert(r[p].1.4 >= r[j - 1].1.4);
                }
            } else {
            }
        }
    }
}

/// Workspace symbol search lists better matches first: the score of each result is at
/// least the score of every result after it.
pub proof fn law_symbols_best_first(docs: Seq<IndexedText>, query: Seq<char>)
    ensures
        forall|i: int, j: int|
            0 <= i < j < workspace_symbols_spec(docs, query).len() ==> (#[trigger] workspace_symbols_spec(docs, query)[i]).1.4
                >= (#[trigger] workspace_symbols_spec(docs, query)[j]).1.4,
{
    lemma_ranked_descends(all_matches(docs, normalized_query(query), docs.len() as int));
}

} // verus!
