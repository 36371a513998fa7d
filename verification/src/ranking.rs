//! The ranked leaderboard: aggregation of canonical keys into counts, the
//! descending ranking, and fixed-size page rendering.

use vstd::prelude::*;
use vstd::multiset::Multiset;
use vstd::seq_lib::group_to_multiset_ensures;
use vstd::string::StringExecFns;
use crate::canonical::{display_of_key, display_part};
use crate::store::{count_of_key, has_key, EventView, UsageStore};
use crate::text::{decimal_of, u64_to_string};

verus! {

/// How many entries of `values` have this view.
pub open spec fn count_in(values: Seq<String>, v: Seq<char>) -> nat
    decreases values.len(),
{
    if values.len() == 0 {
        0
    } else {
        count_in(values.drop_last(), v) + (if values.last()@ == v {
            1nat
        } else {
            0nat
        })
    }
}

/// Some entry of `values` has this view.
pub open spec fn appears_in(values: Seq<String>, v: Seq<char>) -> bool {
    exists|i: int| 0 <= i < values.len() && values[i]@ == v
}

pub proof fn lemma_appears_iff_count_positive(values: Seq<String>, v: Seq<char>)
    ensures
        appears_in(values, v) <==> count_in(values, v) > 0,
    decreases values.len(),
{
    if values.len() > 0 {
        lemma_appears_iff_count_positive(values.drop_last(), v);
        if values.last()@ == v {
            assert(values[values.len() - 1]@ == v);
        } else {
            if appears_in(values, v) {
                let i = choose|i: int| 0 <= i < values.len() && values[i]@ == v;
                assert(i < values.len() - 1);
                assert(values.drop_last()[i]@ == v);
            }
            if appears_in(values.drop_last(), v) {
                let i = choose|i: int|
                    0 <= i < values.drop_last().len() && values.drop_last()[i]@ == v;
                assert(values[i]@ == v);
            }
        }
    }
}

/// Tallies the multiplicity of every distinct value: each value that
/// appears in the input appears exactly once as a key, paired with the
/// number of its occurrences.
pub fn count_all_entries(iterable: Vec<String>) -> (tally: Vec<(String, u64)>)
    ensures
        forall|j1: int, j2: int|
            0 <= j1 < j2 < tally@.len() ==> tally@[j1].0@ != tally@[j2].0@,
        forall|j: int|
            0 <= j < tally@.len() ==> tally@[j].1 == count_in(iterable@, #[trigger] tally@[j].0@)
                && tally@[j].1 > 0 && appears_in(iterable@, tally@[j].0@),
        forall|v: Seq<char>|
            #[trigger] appears_in(iterable@, v) ==> exists|j: int|
                0 <= j < tally@.len() && tally@[j].0@ == v,
{
    let total = iterable.len();
    let mut tally: Vec<(String, u64)> = Vec::new();
    let mut i: usize = 0;
    while i < total
        invariant
            0 <= i <= total,
            total == iterable@.len(),
            forall|j1: int, j2: int|
                0 <= j1 < j2 < tally@.len() ==> tally@[j1].0@ != tally@[j2].0@,
            forall|j: int|
                0 <= j < tally@.len() ==> tally@[j].1 == count_in(
                    iterable@.take(i as int),
                    #[trigger] tally@[j].0@,
                ) && tally@[j].1 > 0 && tally@[j].1 <= i && appears_in(
                    iterable@.take(i as int),
                    tally@[j].0@,
                ),
            forall|v: Seq<char>|
                #[trigger] appears_in(iterable@.take(i as int), v) ==> exists|j: int|
                    0 <= j < tally@.len() && tally@[j].0@ == v,
        decreases total - i,
    {
        let v = iterable[i].clone();
        let n = tally.len();
        let mut found: bool = false;
        let mut pos: usize = 0;
        let mut j: usize = 0;
        while j < n
            invariant
                0 <= j <= n,
                n == tally@.len(),
                found ==> 0 <= pos < j && tally@[pos as int].0@ == v@,
                !found ==> forall|k: int| 0 <= k < j ==> tally@[k].0@ != v@,
            decreases n - j,
        {
            if tally[j].0 == v {
                found = true;
                pos = j;
            }
            j = j + 1;
        }
        proof {
            assert(iterable@.take(i + 1).drop_last() =~= iterable@.take(i as int));
            assert(iterable@.take(i + 1).last() == iterable@[i as int]);
            assert(v@ == iterable@[i as int]@);
            assert forall|w: Seq<char>| w != v@ implies count_in(iterable@.take(i + 1), w)
                == count_in(iterable@.take(i as int), w) by {}
            assert(count_in(iterable@.take(i + 1), v@) == count_in(iterable@.take(i as int), v@)
                + 1);
        }
        let ghost tally0 = tally@;
        if found {
            let entry = tally.remove(pos);
            tally.insert(pos, (entry.0, entry.1 + 1));
            proof {
                assert(tally@ =~= tally0.update(pos as int, (entry.0, (entry.1 + 1) as u64)));
            }
        } else {
            tally.push((v, 1));
            proof {
                if count_in(iterable@.take(i as int), v@) > 0 {
                    lemma_appears_iff_count_positive(iterable@.take(i as int), v@);
                    let j2 = choose|j2: int| 0 <= j2 < tally0.len() && tally0[j2].0@ == v@;
                    assert(false);
                }
            }
        }
        proof {
            assert forall|j2: int| 0 <= j2 < tally@.len() implies tally@[j2].1 == count_in(
                iterable@.take(i + 1),
                #[trigger] tally@[j2].0@,
            ) && tally@[j2].1 > 0 && tally@[j2].1 <= i + 1 && appears_in(
                iterable@.take(i + 1),
                tally@[j2].0@,
            ) by {
                if found {
                    if j2 == pos {
                        assert(tally@[j2].0@ == v@);
                        assert(iterable@.take(i + 1)[i as int]@ == v@);
                    } else {
                        assert(tally@[j2] == tally0[j2]);
                        assert(tally0[pos as int].0@ == v@);
                        assert(tally@[j2].0@ != v@);
                        let k = choose|k: int|
                            0 <= k < iterable@.take(i as int).len() && (#[trigger] iterable@.take(
                                i as int,
                            )[k])@ == tally0[j2].0@;
                        assert(iterable@.take(i + 1)[k]@ == tally@[j2].0@);
                    }
                } else {
                    if j2 == tally@.len() - 1 {
                        assert(tally@[j2].0@ == v@);
                        assert(iterable@.take(i + 1)[i as int]@ == v@);
                    } else {
                        assert(tally@[j2] == tally0[j2]);
                        assert(tally@[j2].0@ != v@);
                        let k = choose|k: int|
                            0 <= k < iterable@.take(i as int).len() && (#[trigger] iterable@.take(
                                i as int,
                            )[k])@ == tally0[j2].0@;
                        assert(iterable@.take(i + 1)[k]@ == tally@[j2].0@);
                    }
                }
            }
            assert forall|w: Seq<char>| #[trigger] appears_in(iterable@.take(i + 1), w) implies
                exists|j2: int| 0 <= j2 < tally@.len() && tally@[j2].0@ == w by {
                if w == v@ {
                    if found {
                        assert(tally@[pos as int].0@ == w);
                    } else {
                        assert(tally@[tally@.len() - 1].0@ == w);
                    }
                } else {
                    let k = choose|k: int|
                        0 <= k < iterable@.take(i + 1).len() && (#[trigger] iterable@.take(
                            i + 1,
                        )[k])@ == w;
                    assert(k < i);
                    assert(iterable@.take(i as int)[k]@ == w);
                    assert(appears_in(iterable@.take(i as int), w));
                    let j3 = choose|j3: int| 0 <= j3 < tally0.len() && tally0[j3].0@ == w;
                    if found {
                        assert(tally@[j3].0@ == w);
                    } else {
                        assert(tally@[j3].0@ == w);
                    }
                }
            }
        }
        i = i + 1;
    }
    proof {
        assert(iterable@.take(total as int) =~= iterable@);
    }
    tally
}

/// Sorts entries by count, highest first. The result is a permutation of
/// the input; the order among entries of equal count is left open.
pub fn rank_descending(entries: Vec<(String, u64)>) -> (ranked: Vec<(String, u64)>)
    ensures
        ranked@.to_multiset() == entries@.to_multiset(),
        ranked@.len() == entries@.len(),
        forall|j1: int, j2: int| 0 <= j1 < j2 < ranked@.len() ==> ranked@[j1].1 >= ranked@[j2].1,
{
    broadcast use group_to_multiset_ensures;

    let mut src = entries;
    let mut ranked: Vec<(String, u64)> = Vec::new();
    proof {
        assert(ranked@.to_multiset().add(src@.to_multiset()) =~= entries@.to_multiset());
    }
    while src.len() > 0
        invariant
            ranked@.to_multiset().add(src@.to_multiset()) == entries@.to_multiset(),
            ranked@.len() + src@.len() == entries@.len(),
            forall|j1: int, j2: int|
                0 <= j1 < j2 < ranked@.len() ==> ranked@[j1].1 >= ranked@[j2].1,
            forall|j: int, k: int|
                0 <= j < ranked@.len() && 0 <= k < src@.len() ==> ranked@[j].1 >= src@[k].1,
        decreases src@.len(),
    {
        let n = src.len();
        let mut best: usize = 0;
        let mut i: usize = 1;
        while i < n
            invariant
                0 <= best < i <= n,
                n == src@.len(),
                forall|k: int| 0 <= k < i ==> src@[best as int].1 >= src@[k].1,
            decreases n - i,
        {
            if src[i].1 > src[best].1 {
                best = i;
            }
            i = i + 1;
        }
        let ghost ranked0 = ranked@;
        let ghost src0 = src@;
        let x = src.remove(best);
        ranked.push(x);
        proof {
            broadcast use group_to_multiset_ensures;

            assert(src@.to_multiset() =~= src0.to_multiset().remove(x));
            assert(ranked@.to_multiset() =~= ranked0.to_multiset().insert(x));
            assert(src0[best as int] == x);
            assert(src0.to_multiset().count(x) > 0) by {
                assert(src0.contains(x));
            }
            assert(ranked@.to_multiset().add(src@.to_multiset()) =~= entries@.to_multiset());
            assert forall|j: int, k: int|
                0 <= j < ranked@.len() && 0 <= k < src@.len() implies ranked@[j].1 >= src@[k].1 by {
                if k < best {
                    assert(src@[k] == src0[k]);
                } else {
                    assert(src@[k] == src0[k + 1]);
                }
            }
        }
    }
    proof {
        assert(src@.to_multiset() =~= Multiset::<(String, u64)>::empty());
        assert(ranked@.to_multiset() =~= ranked@.to_multiset().add(src@.to_multiset()));
    }
    ranked
}

/// One leaderboard line: the emote's display name, `=>`, and its count,
/// newline-terminated.
pub open spec fn line_of(key: Seq<char>, count: u64) -> Seq<char> {
    display_part(key) + (" => ")@ + decimal_of(count as nat) + ("\n")@
}

/// The lines for the entries with indices in `[start, end)`, concatenated
/// in order; empty when the window is empty or out of range.
pub open spec fn rendered_lines(entries: Seq<(String, u64)>, start: int, end: int) -> Seq<char>
    decreases end - start,
{
    if start < 0 || start >= end || end > entries.len() {
        Seq::empty()
    } else {
        line_of(entries[start].0@, entries[start].1) + rendered_lines(entries, start + 1, end)
    }
}

/// Where the window of page `page` ends: one past its last entry index.
pub open spec fn page_window_end(len: int, page: int, size: int) -> int {
    if (page + 1) * size <= len {
        (page + 1) * size
    } else {
        len
    }
}

proof fn lemma_rendered_lines_snoc(entries: Seq<(String, u64)>, start: int, i: int)
    requires
        0 <= start <= i < entries.len(),
    ensures
        rendered_lines(entries, start, i + 1) == rendered_lines(entries, start, i) + line_of(
            entries[i].0@,
            entries[i].1,
        ),
    decreases i - start,
{
    if start == i {
        assert(rendered_lines(entries, start, i) == Seq::<char>::empty());
        assert(rendered_lines(entries, start + 1, i + 1) == Seq::<char>::empty());
        assert(rendered_lines(entries, start, i + 1) =~= rendered_lines(entries, start, i)
            + line_of(entries[i].0@, entries[i].1));
    } else {
        lemma_rendered_lines_snoc(entries, start + 1, i);
        assert(rendered_lines(entries, start, i + 1) =~= rendered_lines(entries, start, i)
            + line_of(entries[i].0@, entries[i].1));
    }
}

proof fn lemma_rendered_lines_nonempty(entries: Seq<(String, u64)>, start: int, end: int)
    requires
        0 <= start < end <= entries.len(),
    ensures
        rendered_lines(entries, start, end).len() > 0,
{
    reveal_strlit("\n");
    assert(line_of(entries[start].0@, entries[start].1).len() > 0);
}

/// Renders one page of the ranking: the entries with indices in
/// `[page * page_size, (page + 1) * page_size)`, one line each; the empty
/// string exactly when the page lies beyond the last entry.
pub fn format_page(ranked: &Vec<(String, u64)>, page: usize, page_size: usize) -> (s: String)
    requires
        page_size >= 1,
    ensures
        s@ == rendered_lines(
            ranked@,
            (page as int) * (page_size as int),
            page_window_end(ranked@.len() as int, page as int, page_size as int),
        ),
        s@.len() == 0 <==> (page as int) * (page_size as int) >= ranked@.len(),
{
    let len = ranked.len();
    let start = match page.checked_mul(page_size) {
        Some(start) => start,
        None => {
            proof {
                assert((page as int) * (page_size as int) > usize::MAX >= ranked@.len());
            }
            return String::new();
        },
    };
    if start >= len {
        return String::new();
    }
    let end = if len - start > page_size {
        start + page_size
    } else {
        len
    };
    proof {
        assert(end == page_window_end(ranked@.len() as int, page as int, page_size as int)) by {
            assert((page as int + 1) * (page_size as int) == (page as int) * (page_size as int)
                + (page_size as int)) by (nonlinear_arith);
        }
    }
    let mut s = String::new();
    let mut i = start;
    while i < end
        invariant
            start <= i <= end <= len,
            len == ranked@.len(),
            start < end,
            s@ == rendered_lines(ranked@, start as int, i as int),
        decreases end - i,
    {
        let display = display_of_key(ranked[i].0.as_str());
        s.append(display.as_str());
        s.append(" => ");
        let digits = u64_to_string(ranked[i].1);
        s.append(digits.as_str());
        s.append("\n");
        proof {
            lemma_rendered_lines_snoc(ranked@, start as int, i as int);
            assert(s@ =~= rendered_lines(ranked@, start as int, i + 1));
        }
        i = i + 1;
    }
    proof {
        lemma_rendered_lines_nonempty(ranked@, start as int, end as int);
    }
    s
}

/// The keys of ranked entries, as character sequences.
pub open spec fn keys_of(entries: Seq<(String, u64)>) -> Seq<Seq<char>> {
    entries.map_values(|p: (String, u64)| p.0@)
}

/// The set of canonical keys present in the log.
pub open spec fn key_set(log: Seq<EventView>) -> Set<Seq<char>> {
    Set::new(|k: Seq<char>| has_key(log, k))
}

/// The number of distinct canonical keys in the log: how many emotes are
/// tracked.
pub open spec fn num_tracked(log: Seq<EventView>) -> nat {
    key_set(log).len()
}

/// `ranked` is a ranking of the log: every tracked canonical key appears
/// exactly once, paired with its count, counts descending.
pub open spec fn is_ranking(log: Seq<EventView>, ranked: Seq<(String, u64)>) -> bool {
    &&& forall|j1: int, j2: int| 0 <= j1 < j2 < ranked.len() ==> ranked[j1].0@ != ranked[j2].0@
    &&& forall|j: int|
        0 <= j < ranked.len() ==> ranked[j].1 == count_of_key(log, #[trigger] ranked[j].0@)
            && has_key(log, ranked[j].0@)
    &&& forall|key: Seq<char>|
        #[trigger] has_key(log, key) ==> exists|j: int|
            0 <= j < ranked.len() && ranked[j].0@ == key
    &&& forall|j1: int, j2: int| 0 <= j1 < j2 < ranked.len() ==> ranked[j1].1 >= ranked[j2].1
}

/// `s` renders page `page` of some ranking of the log.
pub open spec fn rendered_page(log: Seq<EventView>, page: int, size: int, s: Seq<char>) -> bool {
    exists|ranked: Seq<(String, u64)>|
        is_ranking(log, ranked) && s == rendered_lines(
            ranked,
            page * size,
            page_window_end(ranked.len() as int, page, size),
        )
}

proof fn lemma_count_in_matches_log(keys: Seq<String>, log: Seq<EventView>, k: Seq<char>)
    requires
        keys.len() == log.len(),
        forall|i: int| 0 <= i < log.len() ==> keys[i]@ == log[i].key,
    ensures
        count_in(keys, k) == count_of_key(log, k),
    decreases log.len(),
{
    if log.len() > 0 {
        lemma_count_in_matches_log(keys.drop_last(), log.drop_last(), k);
    }
}

/// The canonical keys of the log's events, in log order.
pub open spec fn log_keys(log: Seq<EventView>) -> Seq<Seq<char>> {
    log.map_values(|e: EventView| e.key)
}

proof fn lemma_key_set_is_to_set(log: Seq<EventView>)
    ensures
        key_set(log) == log_keys(log).to_set(),
{
    let ks = log_keys(log);
    assert(key_set(log) =~= ks.to_set()) by {
        assert forall|k: Seq<char>| #[trigger] key_set(log).contains(k) implies ks.to_set().contains(
            k,
        ) by {
            let i = choose|i: int| 0 <= i < log.len() && log[i].key == k;
            assert(ks[i] == k);
            assert(ks.contains(k));
        }
        assert forall|k: Seq<char>| #[trigger] ks.to_set().contains(k) implies key_set(
            log,
        ).contains(k) by {
            let i = choose|i: int| 0 <= i < ks.len() && ks[i] == k;
            assert(log[i].key == k);
        }
    }
}

/// Law: as soon as one occurrence is recorded, at least one emote is
/// tracked, so the first leaderboard page is never empty.
pub proof fn lemma_num_tracked_positive(log: Seq<EventView>)
    requires
        log.len() > 0,
    ensures
        num_tracked(log) > 0,
{
    broadcast use vstd::seq_lib::seq_to_set_is_finite;

    let ks = log_keys(log);
    lemma_key_set_is_to_set(log);
    assert(ks.to_set().contains(ks[0]));
    if ks.to_set().len() == 0 {
        ks.to_set().lemma_len0_is_empty();
    }
}

/// There are never more tracked emotes than recorded events.
pub proof fn lemma_num_tracked_le_len(log: Seq<EventView>)
    ensures
        num_tracked(log) <= log.len(),
{
    let ks = log_keys(log);
    lemma_key_set_is_to_set(log);
    ks.lemma_cardinality_of_set();
}

/// Every ranking of a log has one entry per tracked key.
pub proof fn lemma_ranking_len(log: Seq<EventView>, ranked: Seq<(String, u64)>)
    requires
        is_ranking(log, ranked),
    ensures
        ranked.len() == num_tracked(log),
{
    let ks = keys_of(ranked);
    assert(ks.no_duplicates()) by {
        assert forall|i: int, j: int| 0 <= i < j < ks.len() implies ks[i] != ks[j] by {
            assert(ks[i] == ranked[i].0@);
            assert(ks[j] == ranked[j].0@);
        }
    }
    ks.unique_seq_to_set();
    assert(ks.to_set() =~= key_set(log)) by {
        assert forall|k: Seq<char>| #[trigger] ks.to_set().contains(k) implies key_set(
            log,
        ).contains(k) by {
            let i = choose|i: int| 0 <= i < ks.len() && ks[i] == k;
            assert(ranked[i].0@ == k);
        }
        assert forall|k: Seq<char>| #[trigger] key_set(log).contains(k) implies ks.to_set().contains(
            k,
        ) by {
            let j = choose|j: int| 0 <= j < ranked.len() && ranked[j].0@ == k;
            assert(ks[j] == k);
            assert(ks.contains(k));
        }
    }
}

/// The full aggregation: the count of every tracked canonical key, each
/// key exactly once, in no promised order.
pub fn count_by_emote(store: &UsageStore) -> (tally: Vec<(String, u64)>)
    ensures
        forall|j1: int, j2: int|
            0 <= j1 < j2 < tally@.len() ==> tally@[j1].0@ != tally@[j2].0@,
        forall|j: int|
            0 <= j < tally@.len() ==> tally@[j].1 == count_of_key(store@, #[trigger] tally@[j].0@)
                && has_key(store@, tally@[j].0@),
        forall|key: Seq<char>|
            #[trigger] has_key(store@, key) ==> exists|j: int|
                0 <= j < tally@.len() && tally@[j].0@ == key,
{
    let keys = store.all_keys();
    let tally = count_all_entries(keys);
    proof {
        assert forall|j: int| 0 <= j < tally@.len() implies tally@[j].1 == count_of_key(
            store@,
            #[trigger] tally@[j].0@,
        ) && has_key(store@, tally@[j].0@) by {
            lemma_count_in_matches_log(keys@, store@, tally@[j].0@);
            let i = choose|i: int| 0 <= i < keys@.len() && (#[trigger] keys@[i])@ == tally@[j].0@;
            assert(store@[i].key == tally@[j].0@);
        }
        assert forall|key: Seq<char>| #[trigger] has_key(store@, key) implies exists|j: int|
            0 <= j < tally@.len() && tally@[j].0@ == key by {
            let i = choose|i: int| 0 <= i < store@.len() && store@[i].key == key;
            assert(keys@[i]@ == key);
            assert(appears_in(keys@, key));
        }
    }
    tally
}

/// Computes the descending ranking and renders its page `page`: the empty
/// string exactly when the page lies beyond the last tracked emote.
pub fn render_page(store: &UsageStore, page: usize, page_size: usize) -> (s: String)
    requires
        page_size >= 1,
    ensures
        rendered_page(store@, page as int, page_size as int, s@),
        s@.len() == 0 <==> (page as int) * (page_size as int) >= num_tracked(store@),
{
    broadcast use group_to_multiset_ensures;

    let tally = count_by_emote(store);
    let ranked = rank_descending(tally);
    proof {
        assert forall|j: int| 0 <= j < ranked@.len() implies exists|i: int|
            0 <= i < tally@.len() && tally@[i] == #[trigger] ranked@[j] by {
            assert(ranked@.contains(ranked@[j]));
            assert(tally@.to_multiset().count(ranked@[j]) > 0);
            assert(tally@.contains(ranked@[j]));
        }
        assert(tally@.no_duplicates()) by {
            assert forall|i: int, j: int| 0 <= i < j < tally@.len() implies tally@[i] != tally@[j]
                by {
                assert(tally@[i].0@ != tally@[j].0@);
            }
        }
        tally@.lemma_multiset_has_no_duplicates();
        ranked@.lemma_multiset_has_no_duplicates_conv();
        assert forall|j1: int, j2: int| 0 <= j1 < j2 < ranked@.len() implies ranked@[j1].0@
            != ranked@[j2].0@ by {
            if ranked@[j1].0@ == ranked@[j2].0@ {
                assert(ranked@[j1] != ranked@[j2]);
                let i1 = choose|i: int| 0 <= i < tally@.len() && tally@[i] == ranked@[j1];
                let i2 = choose|i: int| 0 <= i < tally@.len() && tally@[i] == ranked@[j2];
                assert(i1 != i2);
                assert(tally@[i1].0@ != tally@[i2].0@);
            }
        }
        assert(is_ranking(store@, ranked@)) by {
            assert forall|j: int| 0 <= j < ranked@.len() implies ranked@[j].1 == count_of_key(
                store@,
                #[trigger] ranked@[j].0@,
            ) && has_key(store@, ranked@[j].0@) by {
                let i = choose|i: int| 0 <= i < tally@.len() && tally@[i] == ranked@[j];
                assert(tally@[i].0@ == ranked@[j].0@);
            }
            assert forall|key: Seq<char>| #[trigger] has_key(store@, key) implies exists|j: int|
                0 <= j < ranked@.len() && ranked@[j].0@ == key by {
                let i = choose|i: int| 0 <= i < tally@.len() && tally@[i].0@ == key;
                assert(ranked@.to_multiset().count(tally@[i]) > 0) by {
                    assert(tally@.contains(tally@[i]));
                }
                assert(ranked@.contains(tally@[i]));
                let j = choose|j: int| 0 <= j < ranked@.len() && ranked@[j] == tally@[i];
                assert(ranked@[j].0@ == key);
            }
        }
    }
    let s = format_page(&ranked, page, page_size);
    proof {
        lemma_ranking_len(store@, ranked@);
    }
    s
}

} // verus!
