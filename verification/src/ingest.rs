//! Usage ingestion: turning raw platform events — a posted message, a
//! reaction added or removed — into usage store mutations.

use vstd::prelude::*;
use vstd::string::{StrSliceExecFns, StringExecFns};
use crate::StoreError;
use crate::canonical::{canonical_key, get_emote, valid_emote_name};
use crate::filter::{trackable_by, TrackabilityFilter};
use crate::store::{count_of_key, has_key, last_index_of_key, EventView, UsageStore};
use crate::text::{
    all_digits, colon_count, colon_index, count_occurrences, decimal_value,
    lemma_colon_index_at, lemma_decimal_value_nonneg, occurrence_count, parse_u64,
};

verus! {

/// Splits a reaction payload of the shape `name:id` at its single `':'`.
/// Succeeds exactly when the payload holds one `':'` and what follows it
/// is a decimal emote identifier that fits in a `u64`.
pub fn parse_reaction_payload(s: &str) -> (r: Option<(String, u64)>)
    ensures
        r is Some <==> (colon_count(s@) == 1 && s@.skip(colon_index(s@) + 1).len() > 0
            && all_digits(s@.skip(colon_index(s@) + 1)) && decimal_value(
            s@.skip(colon_index(s@) + 1),
        ) <= u64::MAX),
        r matches Some(pair) ==> pair.0@ == s@.take(colon_index(s@)) && pair.1 == decimal_value(
            s@.skip(colon_index(s@) + 1),
        ),
{
    let len = s.unicode_len();
    let mut colons: usize = 0;
    let mut first: usize = 0;
    let mut i: usize = 0;
    while i < len
        invariant
            0 <= i <= len,
            len == s@.len(),
            colons <= i,
            colons == colon_count(s@.take(i as int)),
            colons > 0 ==> 0 <= first < i && s@[first as int] == ':' && (forall|j: int|
                0 <= j < first ==> s@[j] != ':'),
            colons == 0 ==> forall|j: int| 0 <= j < i ==> s@[j] != ':',
        decreases len - i,
    {
        let c = s.get_char(i);
        proof {
            assert(s@.take(i + 1).drop_last() =~= s@.take(i as int));
            assert(s@.take(i + 1).last() == s@[i as int]);
        }
        if c == ':' {
            if colons == 0 {
                first = i;
            }
            colons = colons + 1;
        }
        i = i + 1;
    }
    proof {
        assert(s@.take(len as int) =~= s@);
    }
    if colons != 1 {
        return None;
    }
    proof {
        lemma_colon_index_at(s@, first as int);
    }
    let name = s.substring_char(0, first);
    let digits = s.substring_char(first + 1, len);
    proof {
        assert(digits@ =~= s@.skip(first + 1));
        assert(name@ =~= s@.take(first as int));
    }
    let parsed = parse_u64(digits);
    proof {
        if parsed is Some {
            lemma_decimal_value_nonneg(digits@);
        }
    }
    match parsed {
        Some(id) => Some((String::from_str(name), id)),
        None => None,
    }
}

/// Records one occurrence for an added reaction, when the emote is
/// trackable. Returns whether an occurrence was recorded; a trackable but
/// malformed reference is reported, not recorded.
pub fn on_reaction_added(
    store: &mut UsageStore,
    filter: &TrackabilityFilter,
    emote_id: u64,
    display_name: &str,
) -> (r: Result<bool, StoreError>)
    ensures
        !trackable_by(filter.pattern_view(), display_name@) ==> r == Ok::<bool, StoreError>(false)
            && final(store)@ == old(store)@,
        trackable_by(filter.pattern_view(), display_name@) && valid_emote_name(display_name@)
            ==> r == Ok::<bool, StoreError>(true) && final(store)@.len() == old(store)@.len() + 1
            && final(store)@.drop_last() == old(store)@ && final(store)@.last().emote_id == emote_id
            && final(store)@.last().key == canonical_key(emote_id, display_name@),
        trackable_by(filter.pattern_view(), display_name@) && !valid_emote_name(display_name@)
            ==> r == Err::<bool, StoreError>(StoreError::InvalidInput) && final(store)@ == old(
            store,
        )@,
{
    if !filter.is_trackable(display_name) {
        return Ok(false);
    }
    match store.record_occurrence(emote_id, display_name) {
        Ok(()) => Ok(true),
        Err(e) => Err(e),
    }
}

/// Removes one occurrence for a removed reaction, when the emote is
/// trackable. A removal that finds nothing is reported as `NotFound` and
/// is benign; the log is unchanged.
pub fn on_reaction_removed(
    store: &mut UsageStore,
    filter: &TrackabilityFilter,
    emote_id: u64,
    display_name: &str,
) -> (r: Result<bool, StoreError>)
    ensures
        ({
            let key = canonical_key(emote_id, display_name@);
            let trackable = trackable_by(filter.pattern_view(), display_name@);
            &&& !trackable ==> r == Ok::<bool, StoreError>(false) && final(store)@ == old(store)@
            &&& trackable && valid_emote_name(display_name@) && has_key(old(store)@, key) ==> r
                == Ok::<bool, StoreError>(true) && final(store)@ == old(store)@.remove(
                last_index_of_key(old(store)@, key),
            )
            &&& trackable && !valid_emote_name(display_name@) ==> r == Err::<bool, StoreError>(
                StoreError::InvalidInput,
            ) && final(store)@ == old(store)@
            &&& trackable && valid_emote_name(display_name@) && !has_key(old(store)@, key) ==> r
                == Err::<bool, StoreError>(StoreError::NotFound) && final(store)@ == old(store)@
        }),
{
    if !filter.is_trackable(display_name) {
        return Ok(false);
    }
    match store.remove_one_occurrence(emote_id, display_name) {
        Ok(()) => Ok(true),
        Err(e) => Err(e),
    }
}

/// The catalog entries as plain values.
pub open spec fn emotes_view(catalog: Seq<(u64, String)>) -> Seq<(u64, Seq<char>)> {
    catalog.map_values(|p: (u64, String)| (p.0, p.1@))
}

/// The keys that ingesting `content` appends for one catalog entry: its
/// canonical key once per non-overlapping occurrence of that key in the
/// content, when the emote is trackable and well-formed; nothing
/// otherwise.
pub open spec fn emote_chunk(entry: (u64, Seq<char>), content: Seq<char>, pattern: Seq<char>) -> Seq<
    Seq<char>,
> {
    let key = canonical_key(entry.0, entry.1);
    if trackable_by(pattern, entry.1) && valid_emote_name(entry.1) {
        Seq::new(occurrence_count(content, key), |i: int| key)
    } else {
        Seq::empty()
    }
}

/// The keys that ingesting `content` against the whole catalog appends,
/// catalog order kept.
pub open spec fn ingested_keys(
    emotes: Seq<(u64, Seq<char>)>,
    content: Seq<char>,
    pattern: Seq<char>,
) -> Seq<Seq<char>>
    decreases emotes.len(),
{
    if emotes.len() == 0 {
        Seq::empty()
    } else {
        emote_chunk(emotes[0], content, pattern) + ingested_keys(emotes.skip(1), content, pattern)
    }
}

proof fn lemma_ingested_keys_snoc(
    emotes: Seq<(u64, Seq<char>)>,
    entry: (u64, Seq<char>),
    content: Seq<char>,
    pattern: Seq<char>,
)
    ensures
        ingested_keys(emotes.push(entry), content, pattern) == ingested_keys(
            emotes,
            content,
            pattern,
        ) + emote_chunk(entry, content, pattern),
    decreases emotes.len(),
{
    if emotes.len() == 0 {
        assert(emotes.push(entry)[0] == entry);
        assert(emotes.push(entry).skip(1) =~= Seq::<(u64, Seq<char>)>::empty());
        assert(ingested_keys(emotes, content, pattern) == Seq::<Seq<char>>::empty());
        assert(ingested_keys(emotes.push(entry).skip(1), content, pattern) == Seq::<
            Seq<char>,
        >::empty());
        assert(ingested_keys(emotes.push(entry), content, pattern) == emote_chunk(
            entry,
            content,
            pattern,
        ) + ingested_keys(emotes.push(entry).skip(1), content, pattern));
        assert(ingested_keys(emotes.push(entry), content, pattern) =~= ingested_keys(
            emotes,
            content,
            pattern,
        ) + emote_chunk(entry, content, pattern));
    } else {
        assert(emotes.push(entry)[0] == emotes[0]);
        assert(emotes.push(entry).skip(1) =~= emotes.skip(1).push(entry));
        lemma_ingested_keys_snoc(emotes.skip(1), entry, content, pattern);
        assert(ingested_keys(emotes.push(entry), content, pattern) =~= ingested_keys(
            emotes,
            content,
            pattern,
        ) + emote_chunk(entry, content, pattern));
    }
}

/// How many of these keys equal `key`.
pub open spec fn count_key_in(keys: Seq<Seq<char>>, key: Seq<char>) -> nat
    decreases keys.len(),
{
    if keys.len() == 0 {
        0
    } else {
        count_key_in(keys.drop_last(), key) + (if keys.last() == key {
            1nat
        } else {
            0nat
        })
    }
}

proof fn lemma_count_key_in_concat(a: Seq<Seq<char>>, b: Seq<Seq<char>>, key: Seq<char>)
    ensures
        count_key_in(a + b, key) == count_key_in(a, key) + count_key_in(b, key),
    decreases b.len(),
{
    if b.len() == 0 {
        assert(a + b =~= a);
    } else {
        assert((a + b).drop_last() =~= a + b.drop_last());
        assert((a + b).last() == b.last());
        lemma_count_key_in_concat(a, b.drop_last(), key);
    }
}

proof fn lemma_count_key_in_repeat(n: nat, k: Seq<char>, key: Seq<char>)
    ensures
        count_key_in(Seq::new(n, |i: int| k), key) == (if k == key {
            n
        } else {
            0nat
        }),
    decreases n,
{
    if n > 0 {
        assert(Seq::new(n, |i: int| k).drop_last() =~= Seq::new((n - 1) as nat, |i: int| k));
        assert(Seq::new(n, |i: int| k).last() == k);
        lemma_count_key_in_repeat((n - 1) as nat, k, key);
    }
}

proof fn lemma_count_key_in_chunk(
    entry: (u64, Seq<char>),
    content: Seq<char>,
    pattern: Seq<char>,
    key: Seq<char>,
)
    ensures
        count_key_in(emote_chunk(entry, content, pattern), key) == (if canonical_key(entry.0, entry.1)
            == key && trackable_by(pattern, entry.1) && valid_emote_name(entry.1) {
            occurrence_count(content, key)
        } else {
            0nat
        }),
{
    let k = canonical_key(entry.0, entry.1);
    if trackable_by(pattern, entry.1) && valid_emote_name(entry.1) {
        lemma_count_key_in_repeat(occurrence_count(content, k), k, key);
    }
}

/// Law: occurrence counting. Ingesting a message appends, for a trackable
/// well-formed catalog emote whose canonical key no other catalog entry
/// shares, exactly one usage event per non-overlapping occurrence of its
/// rendering in the content — zero occurrences append nothing.
pub proof fn lemma_message_occurrence_count(
    emotes: Seq<(u64, Seq<char>)>,
    content: Seq<char>,
    pattern: Seq<char>,
    j: int,
)
    requires
        0 <= j < emotes.len(),
        trackable_by(pattern, emotes[j].1),
        valid_emote_name(emotes[j].1),
        forall|j2: int|
            0 <= j2 < emotes.len() && j2 != j ==> canonical_key(
                (#[trigger] emotes[j2]).0,
                emotes[j2].1,
            ) != canonical_key(emotes[j].0, emotes[j].1),
    ensures
        count_key_in(
            ingested_keys(emotes, content, pattern),
            canonical_key(emotes[j].0, emotes[j].1),
        ) == occurrence_count(content, canonical_key(emotes[j].0, emotes[j].1)),
    decreases emotes.len(),
{
    let key = canonical_key(emotes[j].0, emotes[j].1);
    lemma_count_key_in_concat(
        emote_chunk(emotes[0], content, pattern),
        ingested_keys(emotes.skip(1), content, pattern),
        key,
    );
    lemma_count_key_in_chunk(emotes[0], content, pattern, key);
    if j == 0 {
        lemma_ingested_keys_misses(emotes.skip(1), content, pattern, key);
    } else {
        assert(canonical_key(emotes[0].0, emotes[0].1) != key);
        assert(emotes.skip(1)[j - 1] == emotes[j]);
        assert forall|j2: int|
            0 <= j2 < emotes.skip(1).len() && j2 != j - 1 implies canonical_key(
            (#[trigger] emotes.skip(1)[j2]).0,
            emotes.skip(1)[j2].1,
        ) != canonical_key(emotes.skip(1)[j - 1].0, emotes.skip(1)[j - 1].1) by {
            assert(emotes.skip(1)[j2] == emotes[j2 + 1]);
        }
        lemma_message_occurrence_count(emotes.skip(1), content, pattern, j - 1);
    }
}

proof fn lemma_ingested_keys_misses(
    emotes: Seq<(u64, Seq<char>)>,
    content: Seq<char>,
    pattern: Seq<char>,
    key: Seq<char>,
)
    requires
        forall|j: int|
            0 <= j < emotes.len() ==> canonical_key((#[trigger] emotes[j]).0, emotes[j].1) != key,
    ensures
        count_key_in(ingested_keys(emotes, content, pattern), key) == 0,
    decreases emotes.len(),
{
    if emotes.len() > 0 {
        lemma_count_key_in_concat(
            emote_chunk(emotes[0], content, pattern),
            ingested_keys(emotes.skip(1), content, pattern),
            key,
        );
        lemma_count_key_in_chunk(emotes[0], content, pattern, key);
        assert(forall|j: int|
            0 <= j < emotes.skip(1).len() ==> (#[trigger] emotes.skip(1)[j]) == emotes[j + 1]);
        lemma_ingested_keys_misses(emotes.skip(1), content, pattern, key);
    }
}

/// Appending events whose keys are `keys` raises each key's count by its
/// multiplicity among them; together with `lemma_message_occurrence_count`
/// this carries the occurrence count of a message into the aggregation.
pub proof fn lemma_count_of_key_append(
    log1: Seq<EventView>,
    log2: Seq<EventView>,
    keys: Seq<Seq<char>>,
    key: Seq<char>,
)
    requires
        log2.len() == log1.len() + keys.len(),
        forall|i: int| 0 <= i < log1.len() ==> log2[i] == log1[i],
        forall|i: int| 0 <= i < keys.len() ==> log2[log1.len() + i].key == keys[i],
    ensures
        count_of_key(log2, key) == count_of_key(log1, key) + count_key_in(keys, key),
    decreases keys.len(),
{
    if keys.len() == 0 {
        assert(log2 =~= log1);
    } else {
        assert(log2.last().key == keys.last());
        assert(forall|i: int|
            0 <= i < keys.drop_last().len() ==> log2.drop_last()[log1.len() + i].key == (
            #[trigger] keys.drop_last()[i]));
        lemma_count_of_key_append(log1, log2.drop_last(), keys.drop_last(), key);
    }
}

/// Ingests a posted message: for each catalog emote whose canonical
/// rendering occurs in the content, records one occurrence per
/// non-overlapping occurrence, subject to the trackability filter. Every
/// occurrence is attempted independently; a failing one never blocks the
/// rest.
pub fn on_message_posted(
    store: &mut UsageStore,
    filter: &TrackabilityFilter,
    content: &str,
    known_emotes: &Vec<(u64, String)>,
)
    ensures
        ({
            let ingested = ingested_keys(
                emotes_view(known_emotes@),
                content@,
                filter.pattern_view(),
            );
            &&& final(store)@.len() == old(store)@.len() + ingested.len()
            &&& forall|i: int| 0 <= i < old(store)@.len() ==> final(store)@[i] == old(store)@[i]
            &&& forall|i: int|
                0 <= i < ingested.len() ==> final(store)@[old(store)@.len() + i].key
                    == ingested[i]
        }),
{
    let total = known_emotes.len();
    let mut e: usize = 0;
    while e < total
        invariant
            0 <= e <= total,
            total == known_emotes@.len(),
            ({
                let ingested = ingested_keys(
                    emotes_view(known_emotes@.take(e as int)),
                    content@,
                    filter.pattern_view(),
                );
                &&& store@.len() == old(store)@.len() + ingested.len()
                &&& forall|i: int| 0 <= i < old(store)@.len() ==> store@[i] == old(store)@[i]
                &&& forall|i: int|
                    0 <= i < ingested.len() ==> store@[old(store)@.len() + i].key == ingested[i]
            }),
        decreases total - e,
    {
        let emote_id = known_emotes[e].0;
        let ghost entry_view = (known_emotes@[e as int].0, known_emotes@[e as int].1@);
        let ghost chunk = emote_chunk(entry_view, content@, filter.pattern_view());
        let ghost base = store@;
        if filter.is_trackable(known_emotes[e].1.as_str()) {
            let key = get_emote(emote_id, known_emotes[e].1.clone());
            let occurrences = count_occurrences(content, key.as_str());
            let mut c: usize = 0;
            while c < occurrences
                invariant
                    0 <= c <= occurrences,
                    total == known_emotes@.len(),
                    0 <= e < total,
                    emote_id == known_emotes@[e as int].0,
                    key@ == canonical_key(emote_id, known_emotes@[e as int].1@),
                    valid_emote_name(known_emotes@[e as int].1@) ==> store@.len() == base.len()
                        + c,
                    valid_emote_name(known_emotes@[e as int].1@) ==> forall|i: int|
                        0 <= i < base.len() ==> store@[i] == base[i],
                    valid_emote_name(known_emotes@[e as int].1@) ==> forall|i: int|
                        base.len() <= i < store@.len() ==> store@[i].key == key@
                            && store@[i].emote_id == emote_id,
                    !valid_emote_name(known_emotes@[e as int].1@) ==> store@ == base,
                decreases occurrences - c,
            {
                let ghost before = store@;
                // a failing occurrence is dropped; the rest still record
                let _ = store.record_occurrence(emote_id, known_emotes[e].1.as_str());
                proof {
                    if valid_emote_name(known_emotes@[e as int].1@) {
                        assert(store@.drop_last() == before);
                        assert forall|i: int| 0 <= i < before.len() implies store@[i]
                            == before[i] by {
                            assert(store@.drop_last()[i] == store@[i]);
                        }
                        assert(store@[store@.len() - 1] == store@.last());
                        assert(store@.last().key == key@);
                        assert forall|i: int|
                            base.len() <= i < store@.len() implies store@[i].key == key@
                            && store@[i].emote_id == emote_id by {
                            if i < store@.len() - 1 {
                                assert(store@[i] == before[i]);
                            } else {
                                assert(store@[i] == store@.last());
                            }
                        }
                    }
                }
                c = c + 1;
            }
            proof {
                if valid_emote_name(known_emotes@[e as int].1@) {
                    assert(chunk =~= Seq::new(
                        occurrence_count(content@, key@),
                        |i: int| key@,
                    ));
                } else {
                    assert(chunk =~= Seq::<Seq<char>>::empty());
                }
            }
        } else {
            proof {
                assert(chunk =~= Seq::<Seq<char>>::empty());
            }
        }
        proof {
            assert(emotes_view(known_emotes@.take(e + 1)) =~= emotes_view(
                known_emotes@.take(e as int),
            ).push(entry_view));
            lemma_ingested_keys_snoc(
                emotes_view(known_emotes@.take(e as int)),
                entry_view,
                content@,
                filter.pattern_view(),
            );
        }
        e = e + 1;
    }
    proof {
        assert(known_emotes@.take(total as int) =~= known_emotes@);
        assert(emotes_view(known_emotes@.take(total as int)) =~= emotes_view(known_emotes@));
    }
}

} // verus!
