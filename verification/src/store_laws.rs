//! What holds of reads that follow a write.

use crate::store::{deadline, found, swept, written, Record, Ttl};
use vstd::prelude::*;

verus! {

/// The entries after reads of `key` at each of `times`, in order.
pub open spec fn after_reads(entries: Map<Seq<char>, Record>, key: Seq<char>, times: Seq<u64>) -> Map<
    Seq<char>,
    Record,
>
    decreases times.len(),
{
    if times.len() == 0 {
        entries
    } else {
        swept(after_reads(entries, key, times.drop_last()), key, times.last())
    }
}

/// Whether one of `times` lies after `end`.
pub open spec fn some_after(times: Seq<u64>, end: nat) -> bool {
    exists|i: int| 0 <= i < times.len() && #[trigger] times[i] > end
}

/// An entry written with a time to live is read back, whatever was read before,
/// by every read up to the end of its life. A read after that end finds nothing
/// and removes the entry; from then on the entry is gone for every read, and no
/// later read changes the store.
pub proof fn law_expiry(
    entries: Map<Seq<char>, Record>,
    key: Seq<char>,
    value: Seq<char>,
    ttl: Ttl,
    set_at: u64,
    earlier: Seq<u64>,
    now: u64,
)
    ensures
        ({
            let fresh = written(entries, key, value, Some(ttl), set_at);
            let end = set_at as nat + ttl.millis();
            let before = after_reads(fresh, key, earlier);
            &&& before == if some_after(earlier, end) {
                fresh.remove(key)
            } else {
                fresh
            }
            &&& found(before, key, now) == if now <= end && !some_after(earlier, end) {
                Some(value)
            } else {
                None
            }
            &&& swept(before, key, now) == if now <= end && !some_after(earlier, end) {
                fresh
            } else {
                fresh.remove(key)
            }
        }),
    decreases earlier.len(),
{
    let fresh = written(entries, key, value, Some(ttl), set_at);
    let end = set_at as nat + ttl.millis();
    if earlier.len() == 0 {
    } else {
        let head = earlier.drop_last();
        let last = earlier.last();
        law_expiry(entries, key, value, ttl, set_at, head, last);
        if some_after(head, end) {
            let i = choose|i: int| 0 <= i < head.len() && #[trigger] head[i] > end;
            assert(earlier[i] == head[i]);
        } else if last > end {
            assert(earlier[earlier.len() - 1] > end);
        } else {
            if some_after(earlier, end) {
                let i = choose|i: int| 0 <= i < earlier.len() && #[trigger] earlier[i] > end;
                if i < head.len() {
                    assert(head[i] == earlier[i]);
                }
            }
        }
    }
    let before = after_reads(fresh, key, earlier);
    assert(fresh.remove(key).remove(key) =~= fresh.remove(key));
}

/// An entry written without a time to live is read back by every read, at any
/// instant and after any number of earlier reads, and no read changes the store.
pub proof fn law_no_ttl_persists(
    entries: Map<Seq<char>, Record>,
    key: Seq<char>,
    value: Seq<char>,
    set_at: u64,
    earlier: Seq<u64>,
    now: u64,
)
    ensures
        ({
            let fresh = written(entries, key, value, None, set_at);
            &&& after_reads(fresh, key, earlier) == fresh
            &&& found(after_reads(fresh, key, earlier), key, now) == Some(value)
            &&& swept(after_reads(fresh, key, earlier), key, now) == fresh
        }),
    decreases earlier.len(),
{
    if earlier.len() > 0 {
        law_no_ttl_persists(entries, key, value, set_at, earlier.drop_last(), earlier.last());
    }
}

/// A second write to a key replaces the first one whole: the store is as if the
/// first had never been made, so the value and the end of life are those of the
/// second write alone.
pub proof fn law_overwrite(
    entries: Map<Seq<char>, Record>,
    key: Seq<char>,
    first: Seq<char>,
    first_ttl: Option<Ttl>,
    first_at: u64,
    second: Seq<char>,
    second_ttl: Option<Ttl>,
    second_at: u64,
    now: u64,
)
    ensures
        written(
            written(entries, key, first, first_ttl, first_at),
            key,
            second,
            second_ttl,
            second_at,
        ) == written(entries, key, second, second_ttl, second_at),
        found(
            written(
                written(entries, key, first, first_ttl, first_at),
                key,
                second,
                second_ttl,
                second_at,
            ),
            key,
            now,
        ) == match deadline(second_at, second_ttl) {
            Some(end) => if now <= end {
                Some(second)
            } else {
                None
            },
            None => Some(second),
        },
{
    assert(written(
        written(entries, key, first, first_ttl, first_at),
        key,
        second,
        second_ttl,
        second_at,
    ) =~= written(entries, key, second, second_ttl, second_at));
}

/// A write and a read of one key leave every other key as it was.
pub proof fn law_other_keys_untouched(
    entries: Map<Seq<char>, Record>,
    key: Seq<char>,
    value: Seq<char>,
    ttl: Option<Ttl>,
    now: u64,
    other: Seq<char>,
)
    requires
        other != key,
    ensures
        written(entries, key, value, ttl, now).contains_key(other) == entries.contains_key(other),
        entries.contains_key(other) ==> written(entries, key, value, ttl, now)[other]
            == entries[other],
        swept(entries, key, now).contains_key(other) == entries.contains_key(other),
        entries.contains_key(other) ==> swept(entries, key, now)[other] == entries[other],
        found(written(entries, key, value, ttl, now), other, now) == found(entries, other, now),
        found(swept(entries, key, now), other, now) == found(entries, other, now),
{
}

} // verus!
