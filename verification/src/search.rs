//! Case-insensitive symbol and name search with relevance ranking.
//!
//! Each entry is scored against the lower-cased query — an exact symbol
//! match ranks above a symbol prefix, a symbol substring, a name prefix and
//! a name substring, in that order — and the matching entries are returned
//! ranked by score, ties broken by symbol, capped at a result limit.

use vstd::prelude::*;

verus! {

use vstd::seq_lib::group_to_multiset_ensures;
use vstd::utf8::encode_utf8;
use crate::arith::min_i;

broadcast use group_to_multiset_ensures;

/// One searchable listing: a ticker symbol and a company name.
#[derive(Debug)]
pub struct SymbolEntry {
    pub symbol: String,
    pub name: String,
}

/// An entry paired with its relevance score while ranking.
struct ScoredEntry {
    entry: SymbolEntry,
    score: i32,
}

/// The lower-cased form of a character sequence, as `str::to_lowercase`
/// computes it.
pub uninterp spec fn lower_of(s: Seq<char>) -> Seq<char>;

/// Relies on str::to_lowercase: the result depends on the characters alone.
#[verifier::external_body]
fn str_to_lowercase(s: &str) -> (r: String)
    ensures
        r@ == lower_of(s@),
{
    s.to_lowercase()
}

/// `pre` is a prefix of `s`.
pub open spec fn is_prefix_of(pre: Seq<char>, s: Seq<char>) -> bool {
    pre.len() <= s.len() && s.subrange(0, pre.len() as int) == pre
}

/// `sub` occurs in `s` starting at position `k`.
pub open spec fn contains_at(s: Seq<char>, sub: Seq<char>, k: int) -> bool {
    0 <= k <= s.len() - sub.len() && s.subrange(k, k + sub.len()) == sub
}

/// `sub` occurs somewhere in `s`.
pub open spec fn contains_seq(s: Seq<char>, sub: Seq<char>) -> bool {
    exists|k: int| contains_at(s, sub, k)
}

/// Relies on str::starts_with: true exactly when the pattern is a prefix.
#[verifier::external_body]
fn str_starts_with(s: &str, pre: &str) -> (r: bool)
    ensures
        r == is_prefix_of(pre@, s@),
{
    s.starts_with(pre)
}

/// Relies on str::contains: true exactly when the pattern occurs as a
/// substring.
#[verifier::external_body]
fn str_contains(s: &str, sub: &str) -> (r: bool)
    ensures
        r == contains_seq(s@, sub@),
{
    s.contains(sub)
}

/// Relevance of a lower-cased symbol and name against the lower-cased
/// query: exact symbol match, symbol prefix, symbol substring, name prefix,
/// name substring, or no match.
pub open spec fn score_of(q: Seq<char>, sym: Seq<char>, name: Seq<char>) -> int {
    if sym == q {
        100
    } else if is_prefix_of(q, sym) {
        80
    } else if contains_seq(sym, q) {
        60
    } else if is_prefix_of(q, name) {
        40
    } else if contains_seq(name, q) {
        20
    } else {
        0
    }
}

/// Relevance of one entry against the lower-cased query.
pub open spec fn entry_score(q: Seq<char>, e: SymbolEntry) -> int {
    score_of(q, lower_of(e.symbol@), lower_of(e.name@))
}

/// Ranking order on two entries for the lower-cased query: a higher score
/// comes first, and equal scores order by the symbol's bytes.
pub open spec fn ranked_le(q: Seq<char>, a: SymbolEntry, b: SymbolEntry) -> bool {
    ||| entry_score(q, a) > entry_score(q, b)
    ||| (entry_score(q, a) == entry_score(q, b) && bytes_le(
        encode_utf8(a.symbol@),
        encode_utf8(b.symbol@),
    ))
}

/// The subsequence of entries that match the lower-cased query, in input
/// order.
pub open spec fn matches_of(q: Seq<char>, s: Seq<SymbolEntry>) -> Seq<SymbolEntry>
    decreases s.len(),
{
    if s.len() == 0 {
        Seq::<SymbolEntry>::empty()
    } else if entry_score(q, s.last()) > 0 {
        matches_of(q, s.drop_last()).push(s.last())
    } else {
        matches_of(q, s.drop_last())
    }
}

/// Every matching entry scores positive and comes from the input.
proof fn lemma_matches_of_members(q: Seq<char>, s: Seq<SymbolEntry>)
    ensures
        forall|k: int|
            0 <= k < matches_of(q, s).len() ==> entry_score(q, #[trigger] matches_of(q, s)[k]) > 0,
        forall|k: int|
            0 <= k < matches_of(q, s).len() ==> exists|j: int|
                0 <= j < s.len() && #[trigger] matches_of(q, s)[k] == s[j],
    decreases s.len(),
{
    if s.len() > 0 {
        lemma_matches_of_members(q, s.drop_last());
        assert forall|k: int| 0 <= k < matches_of(q, s).len() implies exists|j: int|
            0 <= j < s.len() && #[trigger] matches_of(q, s)[k] == s[j] by {
            if entry_score(q, s.last()) > 0 && k == matches_of(q, s).len() - 1 {
                assert(matches_of(q, s)[k] == s[s.len() - 1]);
            } else {
                assert(matches_of(q, s)[k] == matches_of(q, s.drop_last())[k]);
                let j = choose|j: int|
                    0 <= j < s.drop_last().len() && matches_of(q, s.drop_last())[k]
                        == s.drop_last()[j];
                assert(s.drop_last()[j] == s[j]);
            }
        }
    }
}

/// Every input entry that scores positive appears among the matches.
proof fn lemma_matches_of_complete(q: Seq<char>, s: Seq<SymbolEntry>, j: int)
    requires
        0 <= j < s.len(),
        entry_score(q, s[j]) > 0,
    ensures
        matches_of(q, s).contains(s[j]),
    decreases s.len(),
{
    if j == s.len() - 1 {
        assert(matches_of(q, s).last() == s[j]);
        assert(matches_of(q, s).contains(s[j]));
    } else {
        lemma_matches_of_complete(q, s.drop_last(), j);
        let k = choose|k: int|
            0 <= k < matches_of(q, s.drop_last()).len() && matches_of(q, s.drop_last())[k] == s
                .drop_last()[j];
        assert(s.drop_last()[j] == s[j]);
        assert(matches_of(q, s)[k] == s[j]);
        assert(matches_of(q, s).contains(s[j]));
    }
}

/// Lexicographic order on byte strings: the empty string first, then by the
/// first differing byte.
pub open spec fn bytes_le(a: Seq<u8>, b: Seq<u8>) -> bool
    decreases a.len(),
{
    if a.len() == 0 {
        true
    } else if b.len() == 0 {
        false
    } else if a[0] < b[0] {
        true
    } else if a[0] > b[0] {
        false
    } else {
        bytes_le(a.drop_first(), b.drop_first())
    }
}

/// The byte order relates every pair one way or the other.
proof fn lemma_bytes_le_total(a: Seq<u8>, b: Seq<u8>)
    ensures
        bytes_le(a, b) || bytes_le(b, a),
    decreases a.len(),
{
    if a.len() > 0 && b.len() > 0 && a[0] == b[0] {
        lemma_bytes_le_total(a.drop_first(), b.drop_first());
    }
}

/// The byte order is transitive.
proof fn lemma_bytes_le_trans(a: Seq<u8>, b: Seq<u8>, c: Seq<u8>)
    requires
        bytes_le(a, b),
        bytes_le(b, c),
    ensures
        bytes_le(a, c),
    decreases a.len(),
{
    if a.len() > 0 && b.len() > 0 && c.len() > 0 && a[0] == b[0] && b[0] == c[0] {
        lemma_bytes_le_trans(a.drop_first(), b.drop_first(), c.drop_first());
    }
}

/// Ranking order on scored entries: higher score first, ties by symbol
/// bytes.
spec fn scored_le(a: ScoredEntry, b: ScoredEntry) -> bool {
    ||| a.score > b.score
    ||| (a.score == b.score && bytes_le(encode_utf8(a.entry.symbol@), encode_utf8(b.entry.symbol@)))
}

/// The ranking order relates every pair one way or the other.
proof fn lemma_scored_le_total(a: ScoredEntry, b: ScoredEntry)
    ensures
        scored_le(a, b) || scored_le(b, a),
{
    lemma_bytes_le_total(encode_utf8(a.entry.symbol@), encode_utf8(b.entry.symbol@));
}

/// The ranking order is transitive.
proof fn lemma_scored_le_trans(a: ScoredEntry, b: ScoredEntry, c: ScoredEntry)
    requires
        scored_le(a, b),
        scored_le(b, c),
    ensures
        scored_le(a, c),
{
    if a.score == b.score && b.score == c.score {
        lemma_bytes_le_trans(
            encode_utf8(a.entry.symbol@),
            encode_utf8(b.entry.symbol@),
            encode_utf8(c.entry.symbol@),
        );
    }
}

/// Lexicographic comparison of two byte slices, executable form.
fn bytes_le_exec(a: &[u8], b: &[u8]) -> (r: bool)
    ensures
        r == bytes_le(a@, b@),
{
    let mut i: usize = 0;
    proof {
        assert(a@.skip(0) =~= a@);
        assert(b@.skip(0) =~= b@);
    }
    while i < a.len() && i < b.len()
        invariant
            i <= a@.len(),
            i <= b@.len(),
            bytes_le(a@, b@) == bytes_le(a@.skip(i as int), b@.skip(i as int)),
        decreases a@.len() - i,
    {
        let x = a[i];
        let y = b[i];
        proof {
            assert(a@.skip(i as int)[0] == a@[i as int]);
            assert(b@.skip(i as int)[0] == b@[i as int]);
        }
        if x < y {
            return true;
        }
        if x > y {
            return false;
        }
        proof {
            assert(a@.skip(i as int).drop_first() =~= a@.skip(i as int + 1));
            assert(b@.skip(i as int).drop_first() =~= b@.skip(i as int + 1));
        }
        i = i + 1;
    }
    proof {
        if i >= a@.len() {
            assert(a@.skip(i as int).len() == 0);
        } else {
            assert(b@.skip(i as int).len() == 0);
            assert(a@.skip(i as int).len() > 0);
        }
    }
    i >= a.len()
}

/// Ranking comparison of two scored entries, executable form.
fn ranked_before_exec(a: &ScoredEntry, b: &ScoredEntry) -> (r: bool)
    ensures
        r == scored_le(*a, *b),
{
    if a.score > b.score {
        true
    } else if a.score < b.score {
        false
    } else {
        bytes_le_exec(a.entry.symbol.as_str().as_bytes(), b.entry.symbol.as_str().as_bytes())
    }
}

/// Entries carried by a scored sequence, in order.
spec fn entries_of(s: Seq<ScoredEntry>) -> Seq<SymbolEntry> {
    s.map_values(|se: ScoredEntry| se.entry)
}

/// Sorts scored entries by rank: a permutation of the input, ordered by
/// score descending with ties by symbol bytes ascending.
fn sort_scored(v: Vec<ScoredEntry>) -> (r: Vec<ScoredEntry>)
    ensures
        r@.to_multiset() == v@.to_multiset(),
        r@.len() == v@.len(),
        forall|i: int, j: int| 0 <= i < j < r@.len() ==> scored_le(#[trigger] r@[i], #[trigger] r@[j]),
        forall|i: int| 0 <= i < r@.len() ==> v@.contains(#[trigger] r@[i]),
{
    let ghost orig = v@;
    let mut rest = v;
    let mut out: Vec<ScoredEntry> = Vec::new();
    while rest.len() > 0
        invariant
            out@.to_multiset().add(rest@.to_multiset()) == orig.to_multiset(),
            out@.len() + rest@.len() == orig.len(),
            forall|i: int, j: int|
                0 <= i < j < out@.len() ==> scored_le(#[trigger] out@[i], #[trigger] out@[j]),
            forall|i: int, j: int|
                0 <= i < out@.len() && 0 <= j < rest@.len() ==> scored_le(
                    #[trigger] out@[i],
                    #[trigger] rest@[j],
                ),
        decreases rest@.len(),
    {
        let mut best: usize = 0;
        let mut k: usize = 1;
        proof {
            lemma_scored_le_total(rest@[0], rest@[0]);
        }
        while k < rest.len()
            invariant
                rest@.len() > 0,
                best < k,
                k <= rest@.len(),
                forall|t: int| 0 <= t < k ==> scored_le(rest@[best as int], #[trigger] rest@[t]),
            decreases rest@.len() - k,
        {
            let keep = ranked_before_exec(&rest[best], &rest[k]);
            if !keep {
                proof {
                    lemma_scored_le_total(rest@[best as int], rest@[k as int]);
                    assert forall|t: int| 0 <= t < k + 1 implies scored_le(
                        rest@[k as int],
                        #[trigger] rest@[t],
                    ) by {
                        if t < k {
                            lemma_scored_le_trans(rest@[k as int], rest@[best as int], rest@[t]);
                        } else {
                            lemma_scored_le_total(rest@[k as int], rest@[k as int]);
                        }
                    }
                }
                best = k;
            }
            k = k + 1;
        }
        let ghost old_rest = rest@;
        let e = rest.remove(best);
        proof {
            assert(out@.push(e).to_multiset() =~= out@.to_multiset().insert(e));
            assert(old_rest.remove(best as int).to_multiset() =~= old_rest.to_multiset().remove(e));
            assert(out@.push(e).to_multiset().add(rest@.to_multiset()) =~= orig.to_multiset());
            assert forall|j: int| 0 <= j < rest@.len() implies scored_le(e, #[trigger] rest@[j]) by {
                if j < best {
                    assert(rest@[j] == old_rest[j]);
                } else {
                    assert(rest@[j] == old_rest[j + 1]);
                }
            }
            assert forall|i: int, j: int|
                0 <= i < out@.len() && 0 <= j < rest@.len() implies scored_le(
                #[trigger] out@[i],
                #[trigger] rest@[j],
            ) by {
                if j < best {
                    assert(rest@[j] == old_rest[j]);
                } else {
                    assert(rest@[j] == old_rest[j + 1]);
                }
            }
        }
        out.push(e);
    }
    proof {
        assert forall|x: ScoredEntry| rest@.to_multiset().count(x) == 0 by {
            assert(!rest@.contains(x));
        }
        assert(out@.to_multiset() =~= orig.to_multiset());
        assert forall|i: int| 0 <= i < out@.len() implies orig.contains(#[trigger] out@[i]) by {
            assert(out@.contains(out@[i]));
            assert(out@.to_multiset().count(out@[i]) > 0);
            assert(orig.to_multiset().count(out@[i]) > 0);
        }
    }
    out
}

/// Relevance of one entry, executable form: lower-cases the fields and
/// applies the match tests in rank order.
fn score_entry(e: &SymbolEntry, q_low: &String) -> (s: i32)
    ensures
        s == entry_score(q_low@, *e),
        s == 0 || s == 20 || s == 40 || s == 60 || s == 80 || s == 100,
{
    let sym_low = str_to_lowercase(e.symbol.as_str());
    let name_low = str_to_lowercase(e.name.as_str());
    if sym_low == *q_low {
        100
    } else if str_starts_with(sym_low.as_str(), q_low.as_str()) {
        80
    } else if str_contains(sym_low.as_str(), q_low.as_str()) {
        60
    } else if str_starts_with(name_low.as_str(), q_low.as_str()) {
        40
    } else if str_contains(name_low.as_str(), q_low.as_str()) {
        20
    } else {
        0
    }
}

/// Case-insensitive search over the entries: every entry matching the query
/// is scored (exact symbol match above symbol prefix, symbol substring,
/// name prefix and name substring), and the matches are returned ranked by
/// score, ties broken by symbol bytes, capped at `max_results`. An empty
/// query returns the first `max_results` entries unranked.
pub fn filter_symbols_impl(entries: &Vec<SymbolEntry>, query: &str, max_results: usize) -> (r: Vec<
    SymbolEntry,
>)
    ensures
        query@.len() == 0 ==> r@ == entries@.take(
            min_i(entries@.len() as int, max_results as int),
        ),
        query@.len() > 0 ==> {
            &&& r@.len() == min_i(
                matches_of(lower_of(query@), entries@).len() as int,
                max_results as int,
            )
            &&& forall|i: int|
                0 <= i < r@.len() ==> entry_score(lower_of(query@), #[trigger] r@[i]) > 0
            &&& forall|i: int|
                0 <= i < r@.len() ==> exists|j: int|
                    0 <= j < entries@.len() && #[trigger] r@[i] == entries@[j]
            &&& forall|i: int, j: int|
                0 <= i < j < r@.len() ==> ranked_le(lower_of(query@), #[trigger] r@[i], #[trigger] r@[j])
            &&& (matches_of(lower_of(query@), entries@).len() <= max_results as int
                ==> forall|j: int|
                0 <= j < entries@.len() && entry_score(lower_of(query@), #[trigger] entries@[j])
                    > 0 ==> r@.contains(entries@[j]))
        },
{
    let n = entries.len();
    if query.is_empty() {
        let cap = if max_results < n {
            max_results
        } else {
            n
        };
        let mut out: Vec<SymbolEntry> = Vec::new();
        let mut k: usize = 0;
        while k < cap
            invariant
                k <= cap,
                cap <= n == entries@.len(),
                out@ == entries@.subrange(0, k as int),
            decreases cap - k,
        {
            out.push(
                SymbolEntry { symbol: entries[k].symbol.clone(), name: entries[k].name.clone() },
            );
            proof {
                assert(entries@.subrange(0, k as int + 1) =~= entries@.subrange(0, k as int).push(
                    entries@[k as int],
                ));
                assert(out@.last() == entries@[k as int]);
            }
            k = k + 1;
        }
        return out;
    }
    let q_low = str_to_lowercase(query);
    let ghost lq = lower_of(query@);
    let mut scored: Vec<ScoredEntry> = Vec::new();
    let mut idx: usize = 0;
    while idx < n
        invariant
            idx <= n == entries@.len(),
            q_low@ == lq,
            entries_of(scored@) == matches_of(lq, entries@.take(idx as int)),
            forall|k: int|
                0 <= k < scored@.len() ==> (#[trigger] scored@[k]).score == entry_score(
                    lq,
                    scored@[k].entry,
                ),
            forall|k: int| 0 <= k < scored@.len() ==> (#[trigger] scored@[k]).score > 0,
            forall|k: int|
                0 <= k < scored@.len() ==> exists|j: int|
                    0 <= j < entries@.len() && (#[trigger] scored@[k]).entry == entries@[j],
        decreases n - idx,
    {
        let s = score_entry(&entries[idx], &q_low);
        proof {
            assert(entries@.take(idx as int + 1).drop_last() =~= entries@.take(idx as int));
            assert(entries@.take(idx as int + 1).last() == entries@[idx as int]);
        }
        if s > 0 {
            let entry_copy = SymbolEntry {
                symbol: entries[idx].symbol.clone(),
                name: entries[idx].name.clone(),
            };
            proof {
                assert(entry_copy == entries@[idx as int]);
            }
            scored.push(ScoredEntry { entry: entry_copy, score: s });
            proof {
                assert(entries_of(scored@) =~= matches_of(lq, entries@.take(idx as int)).push(
                    entries@[idx as int],
                ));
            }
        }
        idx = idx + 1;
    }
    proof {
        assert(entries@.take(n as int) =~= entries@);
    }
    let ghost scored_snapshot = scored@;
    let mut ranked = sort_scored(scored);
    proof {
        lemma_matches_of_members(lq, entries@);
        assert forall|i: int| 0 <= i < ranked@.len() implies (#[trigger] ranked@[i]).score
            == entry_score(lq, ranked@[i].entry) && exists|j: int|
            0 <= j < entries@.len() && ranked@[i].entry == entries@[j] by {
            assert(scored_snapshot.contains(ranked@[i]));
            let k = choose|k: int|
                0 <= k < scored_snapshot.len() && scored_snapshot[k] == ranked@[i];
        }
    }
    let ghost full_ranked = ranked@;
    ranked.truncate(max_results);
    let mut out: Vec<SymbolEntry> = Vec::new();
    let mut k2: usize = 0;
    while k2 < ranked.len()
        invariant
            k2 <= ranked@.len(),
            out@ == entries_of(ranked@).take(k2 as int),
        decreases ranked@.len() - k2,
    {
        out.push(
            SymbolEntry {
                symbol: ranked[k2].entry.symbol.clone(),
                name: ranked[k2].entry.name.clone(),
            },
        );
        proof {
            assert(out@.last() == entries_of(ranked@)[k2 as int]);
            assert(entries_of(ranked@).take(k2 as int + 1) =~= entries_of(ranked@).take(
                k2 as int,
            ).push(entries_of(ranked@)[k2 as int]));
        }
        k2 = k2 + 1;
    }
    proof {
        assert(out@ =~= entries_of(ranked@));
        assert(entries_of(scored_snapshot).len() == scored_snapshot.len());
        assert(matches_of(lq, entries@) == matches_of(lq, entries@.take(n as int)));
        assert(full_ranked.len() == scored_snapshot.len());
        assert forall|i: int| 0 <= i < ranked@.len() implies ranked@[i] == full_ranked[i] by {}
        assert forall|i: int| 0 <= i < out@.len() implies entry_score(lq, #[trigger] out@[i]) > 0
            && exists|j: int| 0 <= j < entries@.len() && out@[i] == entries@[j] by {
            assert(out@[i] == ranked@[i].entry);
            assert(ranked@[i] == full_ranked[i]);
        }
        assert forall|i: int, j: int| 0 <= i < j < out@.len() implies ranked_le(
            lq,
            #[trigger] out@[i],
            #[trigger] out@[j],
        ) by {
            assert(scored_le(full_ranked[i], full_ranked[j]));
            assert(full_ranked[i].score == entry_score(lq, full_ranked[i].entry));
            assert(full_ranked[j].score == entry_score(lq, full_ranked[j].entry));
            assert(out@[i] == full_ranked[i].entry);
            assert(out@[j] == full_ranked[j].entry);
        }
        if matches_of(lq, entries@).len() <= max_results as int {
            assert(ranked@ == full_ranked);
            assert forall|j: int|
                0 <= j < entries@.len() && entry_score(lq, #[trigger] entries@[j]) > 0 implies out@
                .contains(entries@[j]) by {
                lemma_matches_of_complete(lq, entries@, j);
                let k = choose|k: int|
                    0 <= k < matches_of(lq, entries@).len() && matches_of(lq, entries@)[k]
                        == entries@[j];
                assert(entries_of(scored_snapshot)[k] == entries@[j]);
                assert(scored_snapshot[k].entry == entries@[j]);
                assert(scored_snapshot.contains(scored_snapshot[k]));
                assert(scored_snapshot.to_multiset().count(scored_snapshot[k]) > 0);
                assert(full_ranked.to_multiset() == scored_snapshot.to_multiset());
                assert(full_ranked.to_multiset().count(scored_snapshot[k]) > 0);
                assert(full_ranked.contains(scored_snapshot[k]));
                let t = choose|t: int|
                    0 <= t < full_ranked.len() && full_ranked[t] == scored_snapshot[k];
                assert(out@[t] == entries_of(ranked@)[t]);
                assert(out@[t] == entries@[j]);
                assert(out@.contains(entries@[j]));
            }
        }
    }
    out
}

} // verus!
