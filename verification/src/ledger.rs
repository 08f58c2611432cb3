//! The position ledger: a keyed, append-only store of per-account debit
//! histories (long, short, liquidity) plus a checkpoint-price cache.
//!
//! Histories are held as association lists with unique keys; their
//! mathematical model is a `Map` from key to the sequence of entries, in the
//! order they were applied. Entries per key strictly increase in block
//! height, and a checkpoint price, once recorded, is never overwritten.

use vstd::prelude::*;

use crate::types::{entry_bounded, ClassifyError, DebitEntry, LpKey, PositionClass, PositionKey, SharePrice};

verus! {

// ---------------------------------------------------------------------------
// Association-list model
// ---------------------------------------------------------------------------

/// No key occurs twice in the association list.
pub open spec fn alist_keys_unique<K, V>(s: Seq<(K, V)>) -> bool {
    forall|i: int, j: int| 0 <= i < j < s.len() ==> (#[trigger] s[i]).0 != (#[trigger] s[j]).0
}

/// The map a history association list stands for.
pub open spec fn hist_view<K>(s: Seq<(K, Vec<DebitEntry>)>) -> Map<K, Seq<DebitEntry>>
    decreases s.len(),
{
    if s.len() == 0 {
        Map::empty()
    } else {
        hist_view(s.drop_last()).insert(s.last().0, s.last().1@)
    }
}

/// The map the checkpoint-price association list stands for.
pub open spec fn price_view(s: Seq<(u64, SharePrice)>) -> Map<u64, SharePrice>
    decreases s.len(),
{
    if s.len() == 0 {
        Map::empty()
    } else {
        price_view(s.drop_last()).insert(s.last().0, s.last().1)
    }
}

proof fn lemma_hist_view_dom<K>(s: Seq<(K, Vec<DebitEntry>)>, k: K)
    ensures
        hist_view(s).dom().contains(k) <==> exists|i: int| 0 <= i < s.len() && (#[trigger] s[i]).0 == k,
    decreases s.len(),
{
    if s.len() > 0 {
        lemma_hist_view_dom(s.drop_last(), k);
        if s.last().0 == k {
            assert(s[s.len() - 1].0 == k);
        } else if hist_view(s).dom().contains(k) {
            let i = choose|i: int| 0 <= i < s.drop_last().len() && (#[trigger] s.drop_last()[i]).0 == k;
            assert(s[i].0 == k);
        } else {
            assert forall|i: int| 0 <= i < s.len() implies (#[trigger] s[i]).0 != k by {
                if i < s.len() - 1 {
                    assert(s.drop_last()[i] == s[i]);
                }
            }
        }
    }
}

proof fn lemma_hist_view_get<K>(s: Seq<(K, Vec<DebitEntry>)>, i: int)
    requires
        alist_keys_unique(s),
        0 <= i < s.len(),
    ensures
        hist_view(s).dom().contains(s[i].0),
        hist_view(s)[s[i].0] == s[i].1@,
    decreases s.len(),
{
    if i == s.len() - 1 {
    } else {
        assert(s.drop_last()[i] == s[i]);
        assert(alist_keys_unique(s.drop_last())) by {
            assert forall|x: int, y: int| 0 <= x < y < s.drop_last().len() implies
                (#[trigger] s.drop_last()[x]).0 != (#[trigger] s.drop_last()[y]).0 by {
                assert(s.drop_last()[x] == s[x]);
                assert(s.drop_last()[y] == s[y]);
            }
        }
        lemma_hist_view_get(s.drop_last(), i);
        assert(s[i].0 != s.last().0);
    }
}

proof fn lemma_hist_view_update<K>(s: Seq<(K, Vec<DebitEntry>)>, i: int, h: Vec<DebitEntry>)
    requires
        alist_keys_unique(s),
        0 <= i < s.len(),
    ensures
        hist_view(s.update(i, (s[i].0, h))) == hist_view(s).insert(s[i].0, h@),
        alist_keys_unique(s.update(i, (s[i].0, h))),
    decreases s.len(),
{
    let t = s.update(i, (s[i].0, h));
    assert(alist_keys_unique(t)) by {
        assert forall|x: int, y: int| 0 <= x < y < t.len() implies
            (#[trigger] t[x]).0 != (#[trigger] t[y]).0 by {
            assert(t[x].0 == s[x].0 && t[y].0 == s[y].0);
        }
    }
    if i == s.len() - 1 {
        assert(t.drop_last() =~= s.drop_last());
        assert(hist_view(t) == hist_view(s.drop_last()).insert(s[i].0, h@));
        assert(hist_view(s.drop_last()).insert(s[i].0, h@)
            =~= hist_view(s).insert(s[i].0, h@));
    } else {
        assert(t.drop_last() =~= s.drop_last().update(i, (s[i].0, h)));
        assert(alist_keys_unique(s.drop_last())) by {
            assert forall|x: int, y: int| 0 <= x < y < s.drop_last().len() implies
                (#[trigger] s.drop_last()[x]).0 != (#[trigger] s.drop_last()[y]).0 by {
                assert(s.drop_last()[x] == s[x]);
                assert(s.drop_last()[y] == s[y]);
            }
        }
        assert(s.drop_last()[i] == s[i]);
        lemma_hist_view_update(s.drop_last(), i, h);
        assert(s[i].0 != s.last().0);
        assert(hist_view(t)
            == hist_view(s.drop_last()).insert(s[i].0, h@).insert(s.last().0, s.last().1@));
        assert(hist_view(s.drop_last()).insert(s[i].0, h@).insert(s.last().0, s.last().1@)
            =~= hist_view(s).insert(s[i].0, h@));
    }
}

proof fn lemma_hist_view_push<K>(s: Seq<(K, Vec<DebitEntry>)>, p: (K, Vec<DebitEntry>))
    ensures
        hist_view(s.push(p)) == hist_view(s).insert(p.0, p.1@),
{
    assert(s.push(p).drop_last() =~= s);
    assert(s.push(p).last() == p);
}

proof fn lemma_price_view_dom(s: Seq<(u64, SharePrice)>, k: u64)
    ensures
        price_view(s).dom().contains(k) <==> exists|i: int| 0 <= i < s.len() && (#[trigger] s[i]).0 == k,
    decreases s.len(),
{
    if s.len() > 0 {
        lemma_price_view_dom(s.drop_last(), k);
        if s.last().0 == k {
            assert(s[s.len() - 1].0 == k);
        } else if price_view(s).dom().contains(k) {
            let i = choose|i: int| 0 <= i < s.drop_last().len() && (#[trigger] s.drop_last()[i]).0 == k;
            assert(s[i].0 == k);
        } else {
            assert forall|i: int| 0 <= i < s.len() implies (#[trigger] s[i]).0 != k by {
                if i < s.len() - 1 {
                    assert(s.drop_last()[i] == s[i]);
                }
            }
        }
    }
}

proof fn lemma_price_view_get(s: Seq<(u64, SharePrice)>, i: int)
    requires
        alist_keys_unique(s),
        0 <= i < s.len(),
    ensures
        price_view(s).dom().contains(s[i].0),
        price_view(s)[s[i].0] == s[i].1,
    decreases s.len(),
{
    if i == s.len() - 1 {
    } else {
        assert(s.drop_last()[i] == s[i]);
        assert(alist_keys_unique(s.drop_last())) by {
            assert forall|x: int, y: int| 0 <= x < y < s.drop_last().len() implies
                (#[trigger] s.drop_last()[x]).0 != (#[trigger] s.drop_last()[y]).0 by {
                assert(s.drop_last()[x] == s[x]);
                assert(s.drop_last()[y] == s[y]);
            }
        }
        lemma_price_view_get(s.drop_last(), i);
        assert(s[i].0 != s.last().0);
    }
}

proof fn lemma_price_view_push(s: Seq<(u64, SharePrice)>, p: (u64, SharePrice))
    ensures
        price_view(s.push(p)) == price_view(s).insert(p.0, p.1),
{
    assert(s.push(p).drop_last() =~= s);
    assert(s.push(p).last() == p);
}

// ---------------------------------------------------------------------------
// Well-formedness
// ---------------------------------------------------------------------------

/// Entries of one history are bounded and strictly increase in block height.
pub open spec fn history_wf(h: Seq<DebitEntry>) -> bool {
    (forall|i: int| 0 <= i < h.len() ==> entry_bounded(#[trigger] h[i]))
    && (forall|i: int, j: int| 0 <= i < j < h.len()
        ==> (#[trigger] h[i]).block_height < (#[trigger] h[j]).block_height)
}

/// Every history in the map is well-formed.
pub open spec fn histories_wf<K>(m: Map<K, Seq<DebitEntry>>) -> bool {
    forall|k: K| m.dom().contains(k) ==> history_wf(#[trigger] m[k])
}

pub open spec fn list_hists_wf<K>(s: Seq<(K, Vec<DebitEntry>)>) -> bool {
    forall|i: int| 0 <= i < s.len() ==> history_wf((#[trigger] s[i]).1@)
}

proof fn lemma_list_hists_wf<K>(s: Seq<(K, Vec<DebitEntry>)>)
    requires
        alist_keys_unique(s),
        list_hists_wf(s),
    ensures
        histories_wf(hist_view(s)),
{
    assert forall|k: K| hist_view(s).dom().contains(k) implies history_wf(#[trigger] hist_view(s)[k]) by {
        lemma_hist_view_dom(s, k);
        let i = choose|i: int| 0 <= i < s.len() && (#[trigger] s[i]).0 == k;
        lemma_hist_view_get(s, i);
    }
}

// ---------------------------------------------------------------------------
// Spec-level transitions
// ---------------------------------------------------------------------------

/// The history map after appending one entry under `key`, creating the
/// history if absent.
pub open spec fn append_entry<K>(m: Map<K, Seq<DebitEntry>>, key: K, entry: DebitEntry) -> Map<
    K,
    Seq<DebitEntry>,
> {
    m.insert(
        key,
        (if m.dom().contains(key) {
            m[key]
        } else {
            Seq::empty()
        }).push(entry),
    )
}

/// Chain order: a new entry at this block height would lie strictly above
/// everything already recorded under the key.
pub open spec fn height_admissible<K>(m: Map<K, Seq<DebitEntry>>, key: K, height: u64) -> bool {
    m.dom().contains(key) && m[key].len() > 0 ==> height > m[key].last().block_height
}

/// Chain order for one concrete entry.
pub open spec fn entry_admissible<K>(m: Map<K, Seq<DebitEntry>>, key: K, entry: DebitEntry) -> bool {
    height_admissible(m, key, entry.block_height)
}

/// The checkpoint-price map after one recording attempt: the first writer
/// wins, a later sample for the same time changes nothing.
pub open spec fn record_price(m: Map<u64, SharePrice>, time: u64, sample: SharePrice) -> Map<
    u64,
    SharePrice,
> {
    if m.dom().contains(time) {
        m
    } else {
        m.insert(time, sample)
    }
}

proof fn lemma_append_entry_wf<K>(m: Map<K, Seq<DebitEntry>>, key: K, entry: DebitEntry)
    requires
        histories_wf(m),
        entry_bounded(entry),
        entry_admissible(m, key, entry),
    ensures
        histories_wf(append_entry(m, key, entry)),
{
    let h = if m.dom().contains(key) { m[key] } else { Seq::<DebitEntry>::empty() };
    let h2 = h.push(entry);
    assert(history_wf(h2)) by {
        assert(history_wf(h));
        assert forall|i: int, j: int| 0 <= i < j < h2.len() implies
            (#[trigger] h2[i]).block_height < (#[trigger] h2[j]).block_height by {
            if j == h2.len() - 1 {
                if i < h.len() - 1 {
                    assert(h[i].block_height < h.last().block_height);
                }
            }
        }
    }
    assert forall|k: K| append_entry(m, key, entry).dom().contains(k) implies
        history_wf(#[trigger] append_entry(m, key, entry)[k]) by {
        if k != key {
            assert(m.dom().contains(k));
        }
    }
}

// ---------------------------------------------------------------------------
// The ledger
// ---------------------------------------------------------------------------

/// The mathematical model of a ledger: its four maps.
#[verifier::ext_equal]
pub struct LedgerModel {
    pub longs: Map<PositionKey, Seq<DebitEntry>>,
    pub shorts: Map<PositionKey, Seq<DebitEntry>>,
    pub lps: Map<LpKey, Seq<DebitEntry>>,
    pub prices: Map<u64, SharePrice>,
}

/// Three keyed history stores plus the checkpoint-price cache. Exclusively
/// owned and mutated by the ingestion pipeline; the aggregation engine only
/// ever reads a point-in-time snapshot.
pub struct Ledger {
    pub longs: Vec<(PositionKey, Vec<DebitEntry>)>,
    pub shorts: Vec<(PositionKey, Vec<DebitEntry>)>,
    pub lps: Vec<(LpKey, Vec<DebitEntry>)>,
    pub share_prices: Vec<(u64, SharePrice)>,
}

impl Ledger {
    pub open spec fn longs_map(&self) -> Map<PositionKey, Seq<DebitEntry>> {
        hist_view(self.longs@)
    }

    pub open spec fn shorts_map(&self) -> Map<PositionKey, Seq<DebitEntry>> {
        hist_view(self.shorts@)
    }

    /// The book the class selects.
    pub open spec fn book_map(&self, class: PositionClass) -> Map<PositionKey, Seq<DebitEntry>> {
        match class {
            PositionClass::Long => self.longs_map(),
            PositionClass::Short => self.shorts_map(),
        }
    }

    pub open spec fn lps_map(&self) -> Map<LpKey, Seq<DebitEntry>> {
        hist_view(self.lps@)
    }

    pub open spec fn prices_map(&self) -> Map<u64, SharePrice> {
        price_view(self.share_prices@)
    }

    pub open spec fn model(&self) -> LedgerModel {
        LedgerModel {
            longs: self.longs_map(),
            shorts: self.shorts_map(),
            lps: self.lps_map(),
            prices: self.prices_map(),
        }
    }

    pub open spec fn wf(&self) -> bool {
        alist_keys_unique(self.longs@) && alist_keys_unique(self.shorts@)
        && alist_keys_unique(self.lps@) && alist_keys_unique(self.share_prices@)
        && list_hists_wf(self.longs@) && list_hists_wf(self.shorts@) && list_hists_wf(self.lps@)
    }

    /// An empty ledger.
    pub fn new() -> (r: Ledger)
        ensures
            r.wf(),
            r.longs_map() == Map::<PositionKey, Seq<DebitEntry>>::empty(),
            r.shorts_map() == Map::<PositionKey, Seq<DebitEntry>>::empty(),
            r.lps_map() == Map::<LpKey, Seq<DebitEntry>>::empty(),
            r.prices_map() == Map::<u64, SharePrice>::empty(),
    {
        Ledger { longs: Vec::new(), shorts: Vec::new(), lps: Vec::new(), share_prices: Vec::new() }
    }

    /// Appends an entry under `key` in the long or short book, creating the
    /// history if absent. An open always succeeds.
    pub fn apply_open(&mut self, class: PositionClass, key: PositionKey, entry: DebitEntry)
        requires
            old(self).wf(),
            entry_bounded(entry),
            entry_admissible(old(self).book_map(class), key, entry),
        ensures
            final(self).wf(),
            final(self).book_map(class) == append_entry(old(self).book_map(class), key, entry),
            final(self).book_map(class.flip()) == old(self).book_map(class.flip()),
            final(self).lps_map() == old(self).lps_map(),
            final(self).prices_map() == old(self).prices_map(),
    {
        match class {
            PositionClass::Long => append_to(&mut self.longs, key, entry),
            PositionClass::Short => append_to(&mut self.shorts, key, entry),
        }
    }

    /// Appends a close entry under `key` in the long or short book. Fails
    /// with `UnknownPosition`, leaving the ledger unchanged, exactly when no
    /// history exists for the key: a close was observed without a matching
    /// prior open in the replayed range.
    pub fn apply_close(&mut self, class: PositionClass, key: PositionKey, entry: DebitEntry) -> (r:
        Result<(), ClassifyError>)
        requires
            old(self).wf(),
            entry_bounded(entry),
            entry_admissible(old(self).book_map(class), key, entry),
        ensures
            final(self).wf(),
            r is Ok <==> old(self).book_map(class).dom().contains(key),
            r is Ok ==> final(self).book_map(class) == append_entry(
                old(self).book_map(class),
                key,
                entry,
            ) && final(self).book_map(class.flip()) == old(self).book_map(class.flip())
                && final(self).lps_map() == old(self).lps_map() && final(self).prices_map() == old(
                self,
            ).prices_map(),
            r is Err ==> *final(self) == *old(self) && r == Err::<(), ClassifyError>(
                ClassifyError::UnknownPosition,
            ),
    {
        let known = match class {
            PositionClass::Long => find_position(&self.longs, key).is_some(),
            PositionClass::Short => find_position(&self.shorts, key).is_some(),
        };
        proof {
            match class {
                PositionClass::Long => lemma_hist_view_dom(self.longs@, key),
                PositionClass::Short => lemma_hist_view_dom(self.shorts@, key),
            }
        }
        if known {
            self.apply_open(class, key, entry);
            Ok(())
        } else {
            Err(ClassifyError::UnknownPosition)
        }
    }

    /// Appends an entry under a liquidity key, creating the history if
    /// absent. Adding or initializing liquidity always succeeds.
    pub fn apply_lp_open(&mut self, key: LpKey, entry: DebitEntry)
        requires
            old(self).wf(),
            entry_bounded(entry),
            entry_admissible(old(self).lps_map(), key, entry),
        ensures
            final(self).wf(),
            final(self).lps_map() == append_entry(old(self).lps_map(), key, entry),
            final(self).longs_map() == old(self).longs_map(),
            final(self).shorts_map() == old(self).shorts_map(),
            final(self).prices_map() == old(self).prices_map(),
    {
        append_to_lp(&mut self.lps, key, entry);
    }

    /// Appends a remove entry under a liquidity key; fails with
    /// `UnknownPosition`, leaving the ledger unchanged, exactly when no
    /// history exists for the key.
    pub fn apply_lp_close(&mut self, key: LpKey, entry: DebitEntry) -> (r: Result<
        (),
        ClassifyError,
    >)
        requires
            old(self).wf(),
            entry_bounded(entry),
            entry_admissible(old(self).lps_map(), key, entry),
        ensures
            final(self).wf(),
            r is Ok <==> old(self).lps_map().dom().contains(key),
            r is Ok ==> final(self).lps_map() == append_entry(old(self).lps_map(), key, entry)
                && final(self).longs_map() == old(self).longs_map() && final(self).shorts_map()
                == old(self).shorts_map() && final(self).prices_map() == old(self).prices_map(),
            r is Err ==> *final(self) == *old(self) && r == Err::<(), ClassifyError>(
                ClassifyError::UnknownPosition,
            ),
    {
        let known = find_lp(&self.lps, key).is_some();
        proof {
            lemma_hist_view_dom(self.lps@, key);
        }
        if known {
            self.apply_lp_open(key, entry);
            Ok(())
        } else {
            Err(ClassifyError::UnknownPosition)
        }
    }

    /// Records a checkpoint price sample for `time` only if that time has no
    /// recorded price yet: the first writer wins, so independent positions
    /// sharing a checkpoint converge on one price.
    pub fn record_checkpoint_price(&mut self, time: u64, sample: SharePrice)
        requires
            old(self).wf(),
        ensures
            final(self).wf(),
            final(self).prices_map() == record_price(old(self).prices_map(), time, sample),
            final(self).longs_map() == old(self).longs_map(),
            final(self).shorts_map() == old(self).shorts_map(),
            final(self).lps_map() == old(self).lps_map(),
    {
        let found = find_price(&self.share_prices, time).is_some();
        proof {
            lemma_price_view_dom(self.share_prices@, time);
        }
        if !found {
            let ghost s0 = self.share_prices@;
            self.share_prices.push((time, sample));
            proof {
                lemma_price_view_push(s0, (time, sample));
                assert forall|x: int, y: int| 0 <= x < y < self.share_prices@.len() implies
                    (#[trigger] self.share_prices@[x]).0 != (#[trigger] self.share_prices@[y]).0 by {
                    if y == self.share_prices@.len() - 1 {
                        assert(self.share_prices@[x] == s0[x]);
                    } else {
                        assert(self.share_prices@[x] == s0[x]);
                        assert(self.share_prices@[y] == s0[y]);
                    }
                }
            }
        }
    }

    /// Looks a recorded checkpoint price up.
    pub fn get_checkpoint_price(&self, time: u64) -> (r: Option<SharePrice>)
        requires
            self.wf(),
        ensures
            match r {
                Some(p) => self.prices_map().dom().contains(time) && self.prices_map()[time] == p,
                None => !self.prices_map().dom().contains(time),
            },
    {
        proof {
            lemma_price_view_dom(self.share_prices@, time);
        }
        match find_price(&self.share_prices, time) {
            Some(i) => {
                proof {
                    lemma_price_view_get(self.share_prices@, i as int);
                }
                Some(self.share_prices[i].1)
            },
            None => None,
        }
    }

    /// Whether the long or short book holds a history for `key`.
    pub fn contains_key(&self, class: PositionClass, key: PositionKey) -> (r: bool)
        requires
            self.wf(),
        ensures
            r == self.book_map(class).dom().contains(key),
    {
        let list = match class {
            PositionClass::Long => &self.longs,
            PositionClass::Short => &self.shorts,
        };
        proof {
            lemma_hist_view_dom(list@, key);
        }
        find_position(list, key).is_some()
    }

    /// Whether the liquidity store holds a history for `key`.
    pub fn contains_lp_key(&self, key: LpKey) -> (r: bool)
        requires
            self.wf(),
        ensures
            r == self.lps_map().dom().contains(key),
    {
        proof {
            lemma_hist_view_dom(self.lps@, key);
        }
        find_lp(&self.lps, key).is_some()
    }

    /// The block height of the last entry recorded under `key` in the long
    /// or short book, if any.
    pub fn last_entry_height(&self, class: PositionClass, key: PositionKey) -> (r: Option<u64>)
        requires
            self.wf(),
        ensures
            match r {
                Some(hh) => self.book_map(class).dom().contains(key) && self.book_map(class)[key].len()
                    > 0 && hh == self.book_map(class)[key].last().block_height,
                None => !self.book_map(class).dom().contains(key) || self.book_map(class)[key].len()
                    == 0,
            },
    {
        let list = match class {
            PositionClass::Long => &self.longs,
            PositionClass::Short => &self.shorts,
        };
        proof {
            lemma_hist_view_dom(list@, key);
        }
        match find_position(list, key) {
            Some(i) => {
                proof {
                    lemma_hist_view_get(list@, i as int);
                }
                let h = &list[i].1;
                if h.len() > 0 {
                    Some(h[h.len() - 1].block_height)
                } else {
                    None
                }
            },
            None => None,
        }
    }

    /// The block height of the last entry recorded under a liquidity key,
    /// if any.
    pub fn lp_last_entry_height(&self, key: LpKey) -> (r: Option<u64>)
        requires
            self.wf(),
        ensures
            match r {
                Some(hh) => self.lps_map().dom().contains(key) && self.lps_map()[key].len() > 0
                    && hh == self.lps_map()[key].last().block_height,
                None => !self.lps_map().dom().contains(key) || self.lps_map()[key].len() == 0,
            },
    {
        proof {
            lemma_hist_view_dom(self.lps@, key);
        }
        match find_lp(&self.lps, key) {
            Some(i) => {
                proof {
                    lemma_hist_view_get(self.lps@, i as int);
                }
                let h = &self.lps[i].1;
                if h.len() > 0 {
                    Some(h[h.len() - 1].block_height)
                } else {
                    None
                }
            },
            None => None,
        }
    }

    /// Whether this ledger satisfies the well-formedness invariant: unique
    /// keys, bounded amounts and chain-ordered histories. Every ledger the
    /// library's own operations build satisfies it; a ledger restored from
    /// an outside source is checked here before anything relies on it.
    pub fn is_well_formed(&self) -> (r: bool)
        ensures
            r == self.wf(),
    {
        positions_unique(&self.longs) && positions_unique(&self.shorts) && lps_unique(&self.lps)
            && prices_unique(&self.share_prices) && position_histories_ok(&self.longs)
            && position_histories_ok(&self.shorts) && lp_histories_ok(&self.lps)
    }

    /// A read-consistent point-in-time copy for the aggregation engine,
    /// never a live mutable alias: aggregation can never observe a
    /// half-applied page.
    pub fn snapshot(&self) -> (r: Ledger)
        requires
            self.wf(),
        ensures
            r.wf(),
            r.longs_map() == self.longs_map(),
            r.shorts_map() == self.shorts_map(),
            r.lps_map() == self.lps_map(),
            r.prices_map() == self.prices_map(),
            same_contents(r, *self),
    {
        let longs = copy_histories(&self.longs);
        let shorts = copy_histories(&self.shorts);
        let lps = copy_lp_histories(&self.lps);
        let share_prices = copy_prices(&self.share_prices);
        Ledger { longs, shorts, lps, share_prices }
    }
}

/// Two ledgers hold the same contents: the same stores in the same order
/// and the same checkpoint prices.
pub open spec fn same_contents(a: Ledger, b: Ledger) -> bool {
    &&& a.longs@.len() == b.longs@.len()
    &&& forall|i: int| 0 <= i < a.longs@.len() ==> (#[trigger] a.longs@[i]).0 == b.longs@[i].0
        && a.longs@[i].1@ == b.longs@[i].1@
    &&& a.shorts@.len() == b.shorts@.len()
    &&& forall|i: int| 0 <= i < a.shorts@.len() ==> (#[trigger] a.shorts@[i]).0 == b.shorts@[i].0
        && a.shorts@[i].1@ == b.shorts@[i].1@
    &&& a.lps@.len() == b.lps@.len()
    &&& forall|i: int| 0 <= i < a.lps@.len() ==> (#[trigger] a.lps@[i]).0 == b.lps@[i].0
        && a.lps@[i].1@ == b.lps@[i].1@
    &&& price_view(a.share_prices@) == price_view(b.share_prices@)
}

/// The first writer wins: recording a second sample for an already-recorded
/// time never overwrites the first, whatever both samples are.
pub proof fn lemma_record_price_idempotent(
    m: Map<u64, SharePrice>,
    time: u64,
    first: SharePrice,
    second: SharePrice,
)
    ensures
        record_price(record_price(m, time, first), time, second) == record_price(m, time, first),
        record_price(m, time, first).dom().contains(time),
        !m.dom().contains(time) ==> record_price(m, time, first)[time] == first,
        m.dom().contains(time) ==> record_price(m, time, first)[time] == m[time],
{
}

// ---------------------------------------------------------------------------
// Exec helpers
// ---------------------------------------------------------------------------

fn find_position(list: &Vec<(PositionKey, Vec<DebitEntry>)>, key: PositionKey) -> (r: Option<usize>)
    ensures
        match r {
            Some(i) => i < list@.len() && list@[i as int].0 == key,
            None => forall|i: int| 0 <= i < list@.len() ==> (#[trigger] list@[i]).0 != key,
        },
{
    let mut i: usize = 0;
    while i < list.len()
        invariant
            i <= list@.len(),
            forall|j: int| 0 <= j < i ==> (#[trigger] list@[j]).0 != key,
        decreases list@.len() - i,
    {
        if list[i].0 == key {
            return Some(i);
        }
        i = i + 1;
    }
    None
}

fn find_lp(list: &Vec<(LpKey, Vec<DebitEntry>)>, key: LpKey) -> (r: Option<usize>)
    ensures
        match r {
            Some(i) => i < list@.len() && list@[i as int].0 == key,
            None => forall|i: int| 0 <= i < list@.len() ==> (#[trigger] list@[i]).0 != key,
        },
{
    let mut i: usize = 0;
    while i < list.len()
        invariant
            i <= list@.len(),
            forall|j: int| 0 <= j < i ==> (#[trigger] list@[j]).0 != key,
        decreases list@.len() - i,
    {
        if list[i].0 == key {
            return Some(i);
        }
        i = i + 1;
    }
    None
}

fn find_price(list: &Vec<(u64, SharePrice)>, time: u64) -> (r: Option<usize>)
    ensures
        match r {
            Some(i) => i < list@.len() && list@[i as int].0 == time,
            None => forall|i: int| 0 <= i < list@.len() ==> (#[trigger] list@[i]).0 != time,
        },
{
    let mut i: usize = 0;
    while i < list.len()
        invariant
            i <= list@.len(),
            forall|j: int| 0 <= j < i ==> (#[trigger] list@[j]).0 != time,
        decreases list@.len() - i,
    {
        if list[i].0 == time {
            return Some(i);
        }
        i = i + 1;
    }
    None
}

fn append_to(list: &mut Vec<(PositionKey, Vec<DebitEntry>)>, key: PositionKey, entry: DebitEntry)
    requires
        alist_keys_unique(old(list)@),
        list_hists_wf(old(list)@),
        entry_bounded(entry),
        entry_admissible(hist_view(old(list)@), key, entry),
    ensures
        alist_keys_unique(final(list)@),
        list_hists_wf(final(list)@),
        hist_view(final(list)@) == append_entry(hist_view(old(list)@), key, entry),
{
    let ghost s0 = list@;
    proof {
        lemma_hist_view_dom(s0, key);
        lemma_list_hists_wf(s0);
        lemma_append_entry_wf(hist_view(s0), key, entry);
    }
    match find_position(list, key) {
        Some(i) => {
            proof {
                lemma_hist_view_get(s0, i as int);
            }
            list[i].1.push(entry);
            proof {
                let h = list@[i as int].1;
                assert(list@ =~= s0.update(i as int, (key, h)));
                lemma_hist_view_update(s0, i as int, h);
                assert(h@ == hist_view(s0)[key].push(entry));
                assert(hist_view(list@) =~= append_entry(hist_view(s0), key, entry));
                assert forall|j: int| 0 <= j < list@.len() implies
                    history_wf((#[trigger] list@[j]).1@) by {
                    if j != i as int {
                        assert(list@[j] == s0[j]);
                    } else {
                        assert(histories_wf(append_entry(hist_view(s0), key, entry)));
                        assert(append_entry(hist_view(s0), key, entry)[key] == h@);
                    }
                }
            }
        },
        None => {
            let mut h: Vec<DebitEntry> = Vec::new();
            h.push(entry);
            list.push((key, h));
            proof {
                lemma_hist_view_push(s0, (key, h));
                assert(!hist_view(s0).dom().contains(key));
                assert(h@ =~= Seq::<DebitEntry>::empty().push(entry));
                assert(hist_view(list@) =~= append_entry(hist_view(s0), key, entry));
                assert forall|x: int, y: int| 0 <= x < y < list@.len() implies
                    (#[trigger] list@[x]).0 != (#[trigger] list@[y]).0 by {
                    if y == list@.len() - 1 {
                        assert(list@[x] == s0[x]);
                    } else {
                        assert(list@[x] == s0[x]);
                        assert(list@[y] == s0[y]);
                    }
                }
                assert forall|j: int| 0 <= j < list@.len() implies
                    history_wf((#[trigger] list@[j]).1@) by {
                    if j < list@.len() - 1 {
                        assert(list@[j] == s0[j]);
                    }
                }
            }
        },
    }
}

fn append_to_lp(list: &mut Vec<(LpKey, Vec<DebitEntry>)>, key: LpKey, entry: DebitEntry)
    requires
        alist_keys_unique(old(list)@),
        list_hists_wf(old(list)@),
        entry_bounded(entry),
        entry_admissible(hist_view(old(list)@), key, entry),
    ensures
        alist_keys_unique(final(list)@),
        list_hists_wf(final(list)@),
        hist_view(final(list)@) == append_entry(hist_view(old(list)@), key, entry),
{
    let ghost s0 = list@;
    proof {
        lemma_hist_view_dom(s0, key);
        lemma_list_hists_wf(s0);
        lemma_append_entry_wf(hist_view(s0), key, entry);
    }
    match find_lp(list, key) {
        Some(i) => {
            proof {
                lemma_hist_view_get(s0, i as int);
            }
            list[i].1.push(entry);
            proof {
                let h = list@[i as int].1;
                assert(list@ =~= s0.update(i as int, (key, h)));
                lemma_hist_view_update(s0, i as int, h);
                assert(h@ == hist_view(s0)[key].push(entry));
                assert(hist_view(list@) =~= append_entry(hist_view(s0), key, entry));
                assert forall|j: int| 0 <= j < list@.len() implies
                    history_wf((#[trigger] list@[j]).1@) by {
                    if j != i as int {
                        assert(list@[j] == s0[j]);
                    } else {
                        assert(histories_wf(append_entry(hist_view(s0), key, entry)));
                        assert(append_entry(hist_view(s0), key, entry)[key] == h@);
                    }
                }
            }
        },
        None => {
            let mut h: Vec<DebitEntry> = Vec::new();
            h.push(entry);
            list.push((key, h));
            proof {
                lemma_hist_view_push(s0, (key, h));
                assert(!hist_view(s0).dom().contains(key));
                assert(h@ =~= Seq::<DebitEntry>::empty().push(entry));
                assert(hist_view(list@) =~= append_entry(hist_view(s0), key, entry));
                assert forall|x: int, y: int| 0 <= x < y < list@.len() implies
                    (#[trigger] list@[x]).0 != (#[trigger] list@[y]).0 by {
                    if y == list@.len() - 1 {
                        assert(list@[x] == s0[x]);
                    } else {
                        assert(list@[x] == s0[x]);
                        assert(list@[y] == s0[y]);
                    }
                }
                assert forall|j: int| 0 <= j < list@.len() implies
                    history_wf((#[trigger] list@[j]).1@) by {
                    if j < list@.len() - 1 {
                        assert(list@[j] == s0[j]);
                    }
                }
            }
        },
    }
}

fn copy_entries(v: &Vec<DebitEntry>) -> (r: Vec<DebitEntry>)
    ensures
        r@ == v@,
{
    let mut r: Vec<DebitEntry> = Vec::new();
    let mut i: usize = 0;
    while i < v.len()
        invariant
            i <= v@.len(),
            r@ == v@.take(i as int),
        decreases v@.len() - i,
    {
        r.push(v[i]);
        proof {
            assert(v@.take(i + 1 as int) =~= v@.take(i as int).push(v@[i as int]));
        }
        i = i + 1;
    }
    proof {
        assert(v@.take(v@.len() as int) =~= v@);
    }
    r
}

proof fn lemma_hist_view_congruent<K>(a: Seq<(K, Vec<DebitEntry>)>, b: Seq<(K, Vec<DebitEntry>)>)
    requires
        a.len() == b.len(),
        forall|i: int| 0 <= i < a.len() ==> (#[trigger] a[i]).0 == b[i].0 && a[i].1@ == b[i].1@,
    ensures
        hist_view(a) == hist_view(b),
    decreases a.len(),
{
    if a.len() > 0 {
        assert forall|i: int| 0 <= i < a.drop_last().len() implies
            (#[trigger] a.drop_last()[i]).0 == b.drop_last()[i].0
            && a.drop_last()[i].1@ == b.drop_last()[i].1@ by {
            assert(a.drop_last()[i] == a[i]);
            assert(b.drop_last()[i] == b[i]);
        }
        lemma_hist_view_congruent(a.drop_last(), b.drop_last());
        assert(a[a.len() - 1].0 == b[a.len() - 1].0 && a[a.len() - 1].1@ == b[a.len() - 1].1@);
    }
}

fn copy_histories(v: &Vec<(PositionKey, Vec<DebitEntry>)>) -> (r: Vec<(PositionKey, Vec<DebitEntry>)>)
    ensures
        r@.len() == v@.len(),
        forall|i: int| 0 <= i < v@.len() ==> (#[trigger] r@[i]).0 == v@[i].0 && r@[i].1@ == v@[i].1@,
        hist_view(r@) == hist_view(v@),
        alist_keys_unique(v@) ==> alist_keys_unique(r@),
        list_hists_wf(v@) ==> list_hists_wf(r@),
{
    let mut r: Vec<(PositionKey, Vec<DebitEntry>)> = Vec::new();
    let mut i: usize = 0;
    while i < v.len()
        invariant
            i <= v@.len(),
            r@.len() == i,
            forall|j: int| 0 <= j < i ==> (#[trigger] r@[j]).0 == v@[j].0 && r@[j].1@ == v@[j].1@,
        decreases v@.len() - i,
    {
        let entries = copy_entries(&v[i].1);
        r.push((v[i].0, entries));
        i = i + 1;
    }
    proof {
        lemma_hist_view_congruent(r@, v@);
    }
    r
}

fn copy_lp_histories(v: &Vec<(LpKey, Vec<DebitEntry>)>) -> (r: Vec<(LpKey, Vec<DebitEntry>)>)
    ensures
        r@.len() == v@.len(),
        forall|i: int| 0 <= i < v@.len() ==> (#[trigger] r@[i]).0 == v@[i].0 && r@[i].1@ == v@[i].1@,
        hist_view(r@) == hist_view(v@),
        alist_keys_unique(v@) ==> alist_keys_unique(r@),
        list_hists_wf(v@) ==> list_hists_wf(r@),
{
    let mut r: Vec<(LpKey, Vec<DebitEntry>)> = Vec::new();
    let mut i: usize = 0;
    while i < v.len()
        invariant
            i <= v@.len(),
            r@.len() == i,
            forall|j: int| 0 <= j < i ==> (#[trigger] r@[j]).0 == v@[j].0 && r@[j].1@ == v@[j].1@,
        decreases v@.len() - i,
    {
        let entries = copy_entries(&v[i].1);
        r.push((v[i].0, entries));
        i = i + 1;
    }
    proof {
        lemma_hist_view_congruent(r@, v@);
    }
    r
}

fn copy_prices(v: &Vec<(u64, SharePrice)>) -> (r: Vec<(u64, SharePrice)>)
    ensures
        r@ == v@,
{
    let mut r: Vec<(u64, SharePrice)> = Vec::new();
    let mut i: usize = 0;
    while i < v.len()
        invariant
            i <= v@.len(),
            r@ == v@.take(i as int),
        decreases v@.len() - i,
    {
        r.push(v[i]);
        proof {
            assert(v@.take(i + 1 as int) =~= v@.take(i as int).push(v@[i as int]));
        }
        i = i + 1;
    }
    proof {
        assert(v@.take(v@.len() as int) =~= v@);
    }
    r
}


fn positions_unique(list: &Vec<(PositionKey, Vec<DebitEntry>)>) -> (r: bool)
    ensures
        r == alist_keys_unique(list@),
{
    let mut i: usize = 0;
    while i < list.len()
        invariant
            i <= list@.len(),
            forall|x: int, y: int| 0 <= x < y < i ==> (#[trigger] list@[x]).0 != (#[trigger] list@[y]).0,
        decreases list@.len() - i,
    {
        let mut j: usize = 0;
        while j < i
            invariant
                j <= i < list@.len(),
                forall|x: int, y: int| 0 <= x < y < i ==> (#[trigger] list@[x]).0 != (#[trigger] list@[y]).0,
                forall|x: int| 0 <= x < j ==> (#[trigger] list@[x]).0 != list@[i as int].0,
            decreases i - j,
        {
            if list[j].0 == list[i].0 {
                assert(!alist_keys_unique(list@));
                return false;
            }
            j = j + 1;
        }
        i = i + 1;
    }
    true
}

fn lps_unique(list: &Vec<(LpKey, Vec<DebitEntry>)>) -> (r: bool)
    ensures
        r == alist_keys_unique(list@),
{
    let mut i: usize = 0;
    while i < list.len()
        invariant
            i <= list@.len(),
            forall|x: int, y: int| 0 <= x < y < i ==> (#[trigger] list@[x]).0 != (#[trigger] list@[y]).0,
        decreases list@.len() - i,
    {
        let mut j: usize = 0;
        while j < i
            invariant
                j <= i < list@.len(),
                forall|x: int, y: int| 0 <= x < y < i ==> (#[trigger] list@[x]).0 != (#[trigger] list@[y]).0,
                forall|x: int| 0 <= x < j ==> (#[trigger] list@[x]).0 != list@[i as int].0,
            decreases i - j,
        {
            if list[j].0 == list[i].0 {
                assert(!alist_keys_unique(list@));
                return false;
            }
            j = j + 1;
        }
        i = i + 1;
    }
    true
}

fn prices_unique(list: &Vec<(u64, SharePrice)>) -> (r: bool)
    ensures
        r == alist_keys_unique(list@),
{
    let mut i: usize = 0;
    while i < list.len()
        invariant
            i <= list@.len(),
            forall|x: int, y: int| 0 <= x < y < i ==> (#[trigger] list@[x]).0 != (#[trigger] list@[y]).0,
        decreases list@.len() - i,
    {
        let mut j: usize = 0;
        while j < i
            invariant
                j <= i < list@.len(),
                forall|x: int, y: int| 0 <= x < y < i ==> (#[trigger] list@[x]).0 != (#[trigger] list@[y]).0,
                forall|x: int| 0 <= x < j ==> (#[trigger] list@[x]).0 != list@[i as int].0,
            decreases i - j,
        {
            if list[j].0 == list[i].0 {
                assert(!alist_keys_unique(list@));
                return false;
            }
            j = j + 1;
        }
        i = i + 1;
    }
    true
}

fn history_ok(h: &Vec<DebitEntry>) -> (r: bool)
    ensures
        r == history_wf(h@),
{
    let mut i: usize = 0;
    while i < h.len()
        invariant
            i <= h@.len(),
            forall|x: int| 0 <= x < i ==> entry_bounded(#[trigger] h@[x]),
            forall|x: int, y: int| 0 <= x < y < i ==> (#[trigger] h@[x]).block_height < (
            #[trigger] h@[y]).block_height,
        decreases h@.len() - i,
    {
        let e = h[i];
        if e.base_amount == i128::MIN || e.secondary_amount == i128::MIN {
            assert(!entry_bounded(h@[i as int]));
            return false;
        }
        if i > 0 && h[i - 1].block_height >= e.block_height {
            return false;
        }
        assert forall|x: int| 0 <= x < i implies (#[trigger] h@[x]).block_height
            < h@[i as int].block_height by {
            if x < i - 1 {
                assert(h@[x].block_height < h@[i as int - 1].block_height);
            }
        }
        i = i + 1;
    }
    true
}

fn position_histories_ok(list: &Vec<(PositionKey, Vec<DebitEntry>)>) -> (r: bool)
    ensures
        r == list_hists_wf(list@),
{
    let mut i: usize = 0;
    while i < list.len()
        invariant
            i <= list@.len(),
            forall|x: int| 0 <= x < i ==> history_wf((#[trigger] list@[x]).1@),
        decreases list@.len() - i,
    {
        if !history_ok(&list[i].1) {
            return false;
        }
        i = i + 1;
    }
    true
}

fn lp_histories_ok(list: &Vec<(LpKey, Vec<DebitEntry>)>) -> (r: bool)
    ensures
        r == list_hists_wf(list@),
{
    let mut i: usize = 0;
    while i < list.len()
        invariant
            i <= list@.len(),
            forall|x: int| 0 <= x < i ==> history_wf((#[trigger] list@[x]).1@),
        decreases list@.len() - i,
    {
        if !history_ok(&list[i].1) {
            return false;
        }
        i = i + 1;
    }
    true
}

} // verus!
