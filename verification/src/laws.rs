use vstd::prelude::*;
use crate::reassemble::ReassemblerV;
use crate::reassemble::chunks_for;
use crate::reassemble::feed_step;
use crate::store::DeviceEntry;
use crate::store::DeviceRecordV;
use crate::store::count_diff;
use crate::store::count_same;
use crate::store::dev_lookup;
use crate::store::unique_keys;
use crate::store::upsert_result;
use crate::time::ts_lt;
use crate::CHUNK_BYTES;

verus! {

/// The machine after feeding a whole sequence of continuation fragments.
pub open spec fn run_feeds(st: ReassemblerV, frags: Seq<Seq<u8>>) -> ReassemblerV
    decreases frags.len(),
{
    if frags.len() == 0 {
        st
    } else {
        run_feeds(feed_step(st, frags.first()), frags.drop_first())
    }
}

/// `buffer` followed by every fragment in order.
pub open spec fn concat_all(buffer: Seq<u8>, frags: Seq<Seq<u8>>) -> Seq<u8>
    decreases frags.len(),
{
    if frags.len() == 0 {
        buffer
    } else {
        concat_all(buffer + frags.first(), frags.drop_first())
    }
}

proof fn lemma_run_feeds_partial(st: ReassemblerV, frags: Seq<Seq<u8>>)
    requires
        st.remaining > frags.len(),
    ensures
        run_feeds(st, frags) == (ReassemblerV {
            remaining: (st.remaining - frags.len()) as u64,
            buffer: concat_all(st.buffer, frags),
            pending: st.pending,
        }),
    decreases frags.len(),
{
    if frags.len() > 0 {
        lemma_run_feeds_partial(feed_step(st, frags.first()), frags.drop_first());
    }
}

/// The chunk count is exactly the ceiling of the byte length over the chunk
/// size: the chunks cover the declared length, and one fewer would not.
pub proof fn lemma_chunks_exact(len: u64)
    ensures
        chunks_for(len) * (CHUNK_BYTES as int) >= len,
        len > 0 ==> (chunks_for(len) - 1) * (CHUNK_BYTES as int) < len,
        len == 0 ==> chunks_for(len) == 0,
{
    let c = CHUNK_BYTES as int;
    assert(chunks_for(len) == (len + (c - 1)) / c);
    assert((len + (c - 1)) / c * c >= len) by (nonlinear_arith)
        requires
            c == 32,
    {}
    if len > 0 {
        assert(((len + (c - 1)) / c - 1) * c < len) by (nonlinear_arith)
            requires
                c == 32,
                len > 0,
        {}
    }
}

/// Message reassembly consumes exactly the number of continuation lines the
/// publish-start declared: a machine expecting `n` fragments is still
/// assembling after any `n - 1` of them, and the `n`-th returns it to idle
/// having assembled the whole sequence of fragments in order.
pub proof fn lemma_reassembly_consumes_exact(st: ReassemblerV, frags: Seq<Seq<u8>>)
    requires
        st.remaining == frags.len(),
        frags.len() >= 1,
    ensures
        forall|k: int|
            0 <= k < frags.len() ==> (#[trigger] run_feeds(st, frags.take(k))).remaining
                == frags.len() - k,
        run_feeds(st, frags.take(frags.len() - 1)).buffer + frags.last() == concat_all(
            st.buffer,
            frags,
        ),
        run_feeds(st, frags.take(frags.len() - 1)).pending == st.pending,
        run_feeds(st, frags).remaining == 0,
{
    assert forall|k: int| 0 <= k < frags.len() implies (#[trigger] run_feeds(
        st,
        frags.take(k),
    )).remaining == frags.len() - k by {
        lemma_run_feeds_partial(st, frags.take(k));
    }
    let n = frags.len() as int;
    lemma_run_feeds_partial(st, frags.take(n - 1));
    lemma_concat_take_last(st.buffer, frags);
    assert(run_feeds(st, frags) == run_feeds(
        feed_step(st, frags.first()),
        frags.drop_first(),
    ));
    if n > 1 {
        lemma_run_feeds_last(st, frags);
    }
}

proof fn lemma_concat_take_last(buffer: Seq<u8>, frags: Seq<Seq<u8>>)
    requires
        frags.len() >= 1,
    ensures
        concat_all(buffer, frags.take(frags.len() - 1)) + frags.last() == concat_all(
            buffer,
            frags,
        ),
    decreases frags.len(),
{
    let n = frags.len() as int;
    if n == 1 {
        assert(frags.take(0) =~= Seq::<Seq<u8>>::empty());
        assert(frags.drop_first() =~= Seq::<Seq<u8>>::empty());
        assert(concat_all(buffer + frags.first(), frags.drop_first()) == buffer + frags.first());
        assert(concat_all(buffer, frags) == buffer + frags.first());
        assert(frags.last() == frags.first());
    } else {
        lemma_concat_take_last(buffer + frags.first(), frags.drop_first());
        assert(frags.take(n - 1).first() == frags.first());
        assert(frags.take(n - 1).drop_first() =~= frags.drop_first().take(n - 2));
        assert(frags.drop_first().last() == frags.last());
    }
}

proof fn lemma_run_feeds_last(st: ReassemblerV, frags: Seq<Seq<u8>>)
    requires
        st.remaining == frags.len(),
        frags.len() >= 1,
    ensures
        run_feeds(st, frags).remaining == 0,
    decreases frags.len(),
{
    if frags.len() > 1 {
        lemma_run_feeds_last(feed_step(st, frags.first()), frags.drop_first());
    } else {
        assert(frags.drop_first().len() == 0);
        assert(run_feeds(feed_step(st, frags.first()), frags.drop_first()) == feed_step(
            st,
            frags.first(),
        ));
    }
}

/// Delivering two payloads for the same device out of chronological order
/// leaves the store holding the later-timestamped one regardless of arrival
/// order: storing the earlier then the later overwrites, and the later then
/// the earlier discards the earlier, ending in the same entry either way.
pub proof fn lemma_upsert_order_independent(
    prev: Option<DeviceRecordV>,
    early: DeviceRecordV,
    late: DeviceRecordV,
)
    requires
        ts_lt(early.time, late.time),
    ensures
        upsert_result(upsert_result(prev, early), late) == upsert_result(
            upsert_result(prev, late),
            early,
        ),
        prev is None ==> upsert_result(upsert_result(prev, early), late) == Some(late),
{
}

/// Devices that both groups track with the same connectivity.
pub open spec fn matched_devices(es: Seq<DeviceEntry>, g1: Seq<u8>, g2: Seq<u8>) -> Set<Seq<u8>> {
    Set::new(
        |d: Seq<u8>|
            dev_lookup(es, g1, d) matches Some(a) && (dev_lookup(es, g2, d) matches Some(b)
                && a.connected == b.connected),
    )
}

/// Devices that both groups track with different connectivity.
pub open spec fn mismatched_devices(es: Seq<DeviceEntry>, g1: Seq<u8>, g2: Seq<u8>) -> Set<
    Seq<u8>,
> {
    Set::new(
        |d: Seq<u8>|
            dev_lookup(es, g1, d) matches Some(a) && (dev_lookup(es, g2, d) matches Some(b)
                && a.connected != b.connected),
    )
}

/// Cross-subscription comparison is symmetric in classification: the devices
/// classified as matching, and those classified as mismatched, are the same
/// sets whichever group serves as the reference.
pub proof fn lemma_comparison_symmetric(es: Seq<DeviceEntry>, g1: Seq<u8>, g2: Seq<u8>)
    ensures
        matched_devices(es, g1, g2) == matched_devices(es, g2, g1),
        mismatched_devices(es, g1, g2) == mismatched_devices(es, g2, g1),
{
    assert(matched_devices(es, g1, g2) =~= matched_devices(es, g2, g1));
    assert(mismatched_devices(es, g1, g2) =~= mismatched_devices(es, g2, g1));
}

/// Devices of group `g1` among the first `k` entries that the matching (or,
/// with `same` false, mismatching) classification selects.
pub open spec fn classified_prefix(
    es: Seq<DeviceEntry>,
    g1: Seq<u8>,
    g2: Seq<u8>,
    k: int,
    same: bool,
) -> Set<Seq<u8>> {
    Set::new(
        |d: Seq<u8>|
            exists|i: int|
                0 <= i < k <= es.len() && (#[trigger] es[i]).group@ == g1 && es[i].device@ == d && (
                dev_lookup(es, g2, d) matches Some(b) && (b.connected == es[i].record@.connected)
                    == same),
    )
}

proof fn lemma_classified_prefix_finite(
    es: Seq<DeviceEntry>,
    g1: Seq<u8>,
    g2: Seq<u8>,
    k: int,
    same: bool,
)
    requires
        0 <= k <= es.len(),
    ensures
        classified_prefix(es, g1, g2, k, same).finite(),
        classified_prefix(es, g1, g2, k, same).len() <= k,
    decreases k,
{
    if k == 0 {
        assert(classified_prefix(es, g1, g2, 0, same) =~= Set::<Seq<u8>>::empty());
    } else {
        lemma_classified_prefix_finite(es, g1, g2, k - 1, same);
        let prior = classified_prefix(es, g1, g2, k - 1, same);
        let here = classified_prefix(es, g1, g2, k, same);
        let e = es[k - 1];
        if e.group@ == g1 && (dev_lookup(es, g2, e.device@) matches Some(b) && (b.connected
            == e.record@.connected) == same) && !prior.contains(e.device@) {
            assert(here =~= prior.insert(e.device@));
        } else {
            assert(here =~= prior);
        }
    }
}

proof fn lemma_count_is_prefix_card(
    es: Seq<DeviceEntry>,
    g1: Seq<u8>,
    g2: Seq<u8>,
    k: int,
    same: bool,
)
    requires
        unique_keys(es),
        0 <= k <= es.len(),
    ensures
        (if same {
            count_same(es.take(k), es, g1, g2)
        } else {
            count_diff(es.take(k), es, g1, g2)
        }) == classified_prefix(es, g1, g2, k, same).len(),
        classified_prefix(es, g1, g2, k, same).finite(),
    decreases k,
{
    lemma_classified_prefix_finite(es, g1, g2, k, same);
    if k == 0 {
        assert(es.take(0) =~= Seq::<DeviceEntry>::empty());
        assert(classified_prefix(es, g1, g2, 0, same) =~= Set::<Seq<u8>>::empty());
    } else {
        lemma_count_is_prefix_card(es, g1, g2, k - 1, same);
        lemma_classified_prefix_finite(es, g1, g2, k - 1, same);
        let prior = classified_prefix(es, g1, g2, k - 1, same);
        let here = classified_prefix(es, g1, g2, k, same);
        let e = es[k - 1];
        assert(es.take(k).drop_last() =~= es.take(k - 1));
        assert(es.take(k).last() == e);
        if e.group@ == g1 && (dev_lookup(es, g2, e.device@) matches Some(b) && (b.connected
            == e.record@.connected) == same) {
            assert(!prior.contains(e.device@));
            assert(here =~= prior.insert(e.device@));
        } else {
            assert(here =~= prior);
        }
    }
}

/// A device selected by scanning the whole store under group `g1` is exactly
/// one the set view classifies so.
proof fn lemma_prefix_is_set(es: Seq<DeviceEntry>, g1: Seq<u8>, g2: Seq<u8>, same: bool)
    requires
        unique_keys(es),
    ensures
        classified_prefix(es, g1, g2, es.len() as int, same) =~= (if same {
            matched_devices(es, g1, g2)
        } else {
            mismatched_devices(es, g1, g2)
        }),
{
    let target = if same {
        matched_devices(es, g1, g2)
    } else {
        mismatched_devices(es, g1, g2)
    };
    assert forall|d: Seq<u8>|
        classified_prefix(es, g1, g2, es.len() as int, same).contains(d) implies target.contains(
        d,
    ) by {
        let i = choose|i: int|
            0 <= i < es.len() && (#[trigger] es[i]).group@ == g1 && es[i].device@ == d && (
            dev_lookup(es, g2, d) matches Some(b) && (b.connected == es[i].record@.connected)
                == same);
        crate::store::lemma_dev_lookup_at(es, i);
    }
    assert forall|d: Seq<u8>| target.contains(d) implies classified_prefix(
        es,
        g1,
        g2,
        es.len() as int,
        same,
    ).contains(d) by {
        let a = dev_lookup(es, g1, d).unwrap();
        let i = crate::store::lemma_dev_lookup_index(es, g1, d);
        assert(0 <= i < es.len() && (#[trigger] es[i]).group@ == g1 && es[i].device@ == d && (
        dev_lookup(es, g2, d) matches Some(b) && (b.connected == es[i].record@.connected)
            == same));
    }
}

/// The aggregate counts the comparison reports are symmetric between the two
/// groups: over a store with unique keys, the number of matching devices and
/// the number of mismatched devices do not depend on which group is the
/// reference.
pub proof fn lemma_counts_symmetric(es: Seq<DeviceEntry>, g1: Seq<u8>, g2: Seq<u8>)
    requires
        unique_keys(es),
    ensures
        count_same(es, es, g1, g2) == count_same(es, es, g2, g1),
        count_diff(es, es, g1, g2) == count_diff(es, es, g2, g1),
{
    let n = es.len() as int;
    assert(es.take(n) =~= es);
    lemma_count_is_prefix_card(es, g1, g2, n, true);
    lemma_count_is_prefix_card(es, g2, g1, n, true);
    lemma_prefix_is_set(es, g1, g2, true);
    lemma_prefix_is_set(es, g2, g1, true);
    lemma_comparison_symmetric(es, g1, g2);
    lemma_count_is_prefix_card(es, g1, g2, n, false);
    lemma_count_is_prefix_card(es, g2, g1, n, false);
    lemma_prefix_is_set(es, g1, g2, false);
    lemma_prefix_is_set(es, g2, g1, false);
}

} // verus!
