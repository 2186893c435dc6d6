//! The two association structures the engine consumes: station → member
//! chargers, and charger → raw reported windows.
//!
//! Both are association lists with unique keys, in first-seen order.
//! Lookup never depends on entry order, and the engine fixes its own
//! iteration order, so no order beyond uniqueness is promised.

use vstd::prelude::*;
use vstd::pervasive::VecAdditionalExecFns;
use crate::keymap::{has_key, key_index, key_lookup, lemma_key_index, unique_keys};
use crate::window::{all_valid, TimeRange};

verus! {

/// A charger id list extended by `news`, keeping membership idempotent:
/// ids already present are not added again.
pub open spec fn add_unique(cs: Seq<u32>, news: Seq<u32>) -> Seq<u32>
    decreases news.len(),
{
    if news.len() == 0 {
        cs
    } else {
        let cs2 = if cs.contains(news[0]) {
            cs
        } else {
            cs.push(news[0])
        };
        add_unique(cs2, news.drop_first())
    }
}

/// No element repeats.
pub open spec fn nodup(cs: Seq<u32>) -> bool {
    forall|a: int, b: int| 0 <= a < b < cs.len() ==> cs[a] != cs[b]
}

proof fn lemma_add_unique_nodup(cs: Seq<u32>, news: Seq<u32>)
    requires
        nodup(cs),
    ensures
        nodup(add_unique(cs, news)),
    decreases news.len(),
{
    if news.len() > 0 {
        let c = news[0];
        if cs.contains(c) {
            lemma_add_unique_nodup(cs, news.drop_first());
        } else {
            let cs2 = cs.push(c);
            assert forall|a: int, b: int| 0 <= a < b < cs2.len() implies cs2[a] != cs2[b] by {
                if b == cs2.len() - 1 {
                    assert(!cs.contains(cs[a]) ==> false);
                }
            }
            lemma_add_unique_nodup(cs2, news.drop_first());
        }
    }
}

/// Unfolds one step of [`add_unique`] along a suffix of the new ids.
proof fn lemma_add_unique_step(cs: Seq<u32>, news: Seq<u32>, i: int)
    requires
        0 <= i < news.len(),
    ensures
        add_unique(cs, news.skip(i)) == add_unique(
            if cs.contains(news[i]) {
                cs
            } else {
                cs.push(news[i])
            },
            news.skip(i + 1),
        ),
{
    assert(news.skip(i)[0] == news[i]);
    assert(news.skip(i).drop_first() =~= news.skip(i + 1));
}

/// One station line folded into the membership table: a new station gets
/// a fresh entry, a known one has the ids merged into its member list.
pub open spec fn map_add_station(m: Seq<(u32, Seq<u32>)>, sid: u32, news: Seq<u32>) -> Seq<
    (u32, Seq<u32>),
> {
    let k = key_index(m, sid);
    if k >= 0 {
        m.update(k, (sid, add_unique(m[k].1, news)))
    } else {
        m.push((sid, add_unique(Seq::empty(), news)))
    }
}

/// One report folded into the uptime table: appended to the charger's
/// window list, in input order, with no validation beyond well-formedness
/// of the window itself.
pub open spec fn map_add_report(m: Seq<(u32, Seq<TimeRange>)>, id: u32, w: TimeRange) -> Seq<
    (u32, Seq<TimeRange>),
> {
    let k = key_index(m, id);
    if k >= 0 {
        m.update(k, (id, m[k].1.push(w)))
    } else {
        m.push((id, seq![w]))
    }
}

/// Returns whether the id list holds `x`.
fn id_list_contains(v: &Vec<u32>, x: u32) -> (r: bool)
    ensures
        r == v@.contains(x),
{
    let mut i: usize = 0;
    while i < v.len()
        invariant
            0 <= i <= v@.len(),
            forall|l: int| 0 <= l < i ==> v@[l] != x,
        decreases v@.len() - i,
    {
        if v[i] == x {
            return true;
        }
        i = i + 1;
    }
    false
}

/// Station → member charger ids.  Membership is idempotent: re-declaring
/// a unit for a station is a no-op.
pub struct StationChargerMap {
    entries: Vec<(u32, Vec<u32>)>,
}

impl View for StationChargerMap {
    type V = Seq<(u32, Seq<u32>)>;

    closed spec fn view(&self) -> Seq<(u32, Seq<u32>)> {
        self.entries@.map_values(|e: (u32, Vec<u32>)| (e.0, e.1@))
    }
}

impl StationChargerMap {
    /// Station ids are unique and member lists duplicate-free.
    pub open spec fn wf(&self) -> bool {
        unique_keys(self@) && forall|k: int|
            0 <= k < self@.len() ==> nodup((#[trigger] self@[k]).1)
    }

    pub fn new() -> (r: StationChargerMap)
        ensures
            r@ == Seq::<(u32, Seq<u32>)>::empty(),
            r.wf(),
    {
        let r = StationChargerMap { entries: Vec::new() };
        proof {
            assert(r@ =~= Seq::<(u32, Seq<u32>)>::empty());
        }
        r
    }

    /// Index of the station's entry, if it has one.
    fn find(&self, sid: u32) -> (r: Option<usize>)
        ensures
            match r {
                Some(k) => key_index(self@, sid) == k && k < self@.len() && self@[k as int].0
                    == sid,
                None => key_index(self@, sid) == -1 && !has_key(self@, sid),
            },
    {
        let mut i: usize = 0;
        while i < self.entries.len()
            invariant
                0 <= i <= self@.len(),
                self@.len() == self.entries@.len(),
                forall|l: int| 0 <= l < i ==> (#[trigger] self@[l]).0 != sid,
            decreases self@.len() - i,
        {
            assert(self@[i as int].0 == self.entries@[i as int].0);
            if self.entries[i].0 == sid {
                proof {
                    lemma_key_index(self@, sid);
                    assert(has_key(self@, sid));
                }
                return Some(i);
            }
            i = i + 1;
        }
        proof {
            lemma_key_index(self@, sid);
            if has_key(self@, sid) {
                let k = choose|k: int| 0 <= k < self@.len() && (#[trigger] self@[k]).0 == sid;
                assert(false);
            }
        }
        None
    }

    /// The member charger ids of a station, if it is known.
    pub fn get(&self, sid: u32) -> (r: Option<&Vec<u32>>)
        ensures
            match r {
                Some(v) => key_lookup(self@, sid) == Some(v@),
                None => key_lookup(self@, sid) is None,
            },
    {
        match self.find(sid) {
            Some(k) => Some(&self.entries[k].1),
            None => None,
        }
    }

    /// All station ids, in entry order.
    pub fn ids(&self) -> (r: Vec<u32>)
        ensures
            r@ == self@.map_values(|e: (u32, Seq<u32>)| e.0),
    {
        let mut r: Vec<u32> = Vec::new();
        let mut i: usize = 0;
        while i < self.entries.len()
            invariant
                0 <= i <= self@.len(),
                self@.len() == self.entries@.len(),
                r@.len() == i,
                forall|l: int| 0 <= l < i ==> r@[l] == (#[trigger] self@[l]).0,
            decreases self@.len() - i,
        {
            assert(self@[i as int].0 == self.entries@[i as int].0);
            r.push(self.entries[i].0);
            i = i + 1;
        }
        proof {
            assert(r@ =~= self@.map_values(|e: (u32, Seq<u32>)| e.0));
        }
        r
    }

    /// Folds one station line into the table, exactly as
    /// [`map_add_station`] states it.
    pub fn add_station(&mut self, station_id: u32, chargers: &Vec<u32>)
        requires
            old(self).wf(),
        ensures
            final(self).wf(),
            final(self)@ == map_add_station(old(self)@, station_id, chargers@),
    {
        let ghost m0 = self@;
        let k: usize = match self.find(station_id) {
            Some(k) => k,
            None => {
                self.entries.push((station_id, Vec::new()));
                proof {
                    assert(self@ =~= m0.push((station_id, Seq::<u32>::empty())));
                }
                self.entries.len() - 1
            },
        };
        let ghost m1 = self@;
        let ghost cs0 = m1[k as int].1;
        let mut entry = (station_id, Vec::new());
        self.entries.set_and_swap(k, &mut entry);
        proof {
            assert(chargers@.skip(0) =~= chargers@);
            assert(entry.1@ == cs0);
        }
        let mut i: usize = 0;
        while i < chargers.len()
            invariant
                0 <= i <= chargers@.len(),
                entry.0 == station_id,
                add_unique(entry.1@, chargers@.skip(i as int)) == add_unique(cs0, chargers@),
                nodup(cs0) ==> nodup(entry.1@),
            decreases chargers@.len() - i,
        {
            let c = chargers[i];
            proof {
                lemma_add_unique_step(entry.1@, chargers@, i as int);
                if nodup(entry.1@) {
                    lemma_add_unique_nodup(entry.1@, chargers@.subrange(i as int, i as int));
                    assert forall|a: int, b: int|
                        0 <= a < b < entry.1@.push(c).len() && !entry.1@.contains(c) implies entry
                        .1@.push(c)[a] != entry.1@.push(c)[b] by {
                        if b == entry.1@.len() {
                            assert(entry.1@.contains(entry.1@[a]) == entry.1@.contains(
                                entry.1@[a],
                            ));
                        }
                    }
                }
            }
            if !id_list_contains(&entry.1, c) {
                proof {
                    assert forall|a: int, b: int| 0 <= a < b < entry.1@.push(c).len() && nodup(
                        entry.1@,
                    ) implies entry.1@.push(c)[a] != entry.1@.push(c)[b] by {
                        if b == entry.1@.len() {
                            assert(entry.1@.contains(entry.1@[a]));
                        }
                    }
                }
                entry.1.push(c);
            }
            i = i + 1;
        }
        proof {
            assert(chargers@.skip(chargers@.len() as int) =~= Seq::<u32>::empty());
        }
        self.entries.set(k, entry);
        proof {
            assert(self@ =~= m1.update(k as int, (station_id, add_unique(cs0, chargers@))));
            lemma_key_index(m0, station_id);
            if key_index(m0, station_id) >= 0 {
                assert(m1 == m0);
                assert(self@ =~= map_add_station(m0, station_id, chargers@));
            } else {
                assert(m1 =~= m0.push((station_id, Seq::<u32>::empty())));
                assert(cs0 =~= Seq::<u32>::empty());
                assert(self@ =~= m0.push((station_id, add_unique(Seq::empty(), chargers@))));
            }
            assert(nodup(cs0));
            assert forall|k2: int| 0 <= k2 < self@.len() implies nodup(
                (#[trigger] self@[k2]).1,
            ) by {
                if k2 != k as int {
                    assert(self@[k2] == m1[k2]);
                    if key_index(m0, station_id) < 0 && k2 < m0.len() {
                        assert(m1[k2] == m0[k2]);
                    }
                }
            }
            assert(unique_keys(self@)) by {
                assert forall|a: int, b: int| 0 <= a < b < self@.len() implies (
                #[trigger] self@[a]).0 != (#[trigger] self@[b]).0 by {
                    if key_index(m0, station_id) >= 0 {
                        assert(self@[a].0 == m0[a].0 && self@[b].0 == m0[b].0);
                    } else {
                        if b < m0.len() {
                            assert(self@[a].0 == m0[a].0 && self@[b].0 == m0[b].0);
                        } else {
                            assert(self@[b].0 == station_id);
                            assert(self@[a].0 == m0[a].0);
                            assert(!has_key(m0, station_id));
                        }
                    }
                }
            }
        }
    }
}

/// Every stored window of every charger is well-formed.
pub open spec fn reports_all_valid(m: Seq<(u32, Seq<TimeRange>)>) -> bool {
    forall|k: int| 0 <= k < m.len() ==> all_valid((#[trigger] m[k]).1)
}

/// Charger → raw reported windows, in input order.
pub struct ChargerUptimeMap {
    entries: Vec<(u32, Vec<TimeRange>)>,
}

impl View for ChargerUptimeMap {
    type V = Seq<(u32, Seq<TimeRange>)>;

    closed spec fn view(&self) -> Seq<(u32, Seq<TimeRange>)> {
        self.entries@.map_values(|e: (u32, Vec<TimeRange>)| (e.0, e.1@))
    }
}

impl ChargerUptimeMap {
    /// Charger ids are unique and every stored window is well-formed,
    /// because ingestion rejects windows that end before they start.
    pub open spec fn wf(&self) -> bool {
        unique_keys(self@) && reports_all_valid(self@)
    }

    pub fn new() -> (r: ChargerUptimeMap)
        ensures
            r@ == Seq::<(u32, Seq<TimeRange>)>::empty(),
            r.wf(),
    {
        let r = ChargerUptimeMap { entries: Vec::new() };
        proof {
            assert(r@ =~= Seq::<(u32, Seq<TimeRange>)>::empty());
        }
        r
    }

    /// Index of the charger's entry, if it has one.
    fn find(&self, id: u32) -> (r: Option<usize>)
        ensures
            match r {
                Some(k) => key_index(self@, id) == k && k < self@.len() && self@[k as int].0 == id,
                None => key_index(self@, id) == -1 && !has_key(self@, id),
            },
    {
        let mut i: usize = 0;
        while i < self.entries.len()
            invariant
                0 <= i <= self@.len(),
                self@.len() == self.entries@.len(),
                forall|l: int| 0 <= l < i ==> (#[trigger] self@[l]).0 != id,
            decreases self@.len() - i,
        {
            assert(self@[i as int].0 == self.entries@[i as int].0);
            if self.entries[i].0 == id {
                proof {
                    lemma_key_index(self@, id);
                    assert(has_key(self@, id));
                }
                return Some(i);
            }
            i = i + 1;
        }
        proof {
            lemma_key_index(self@, id);
            if has_key(self@, id) {
                let k = choose|k: int| 0 <= k < self@.len() && (#[trigger] self@[k]).0 == id;
                assert(false);
            }
        }
        None
    }

    /// The raw windows reported for a charger, if any were.
    pub fn get(&self, id: u32) -> (r: Option<&Vec<TimeRange>>)
        ensures
            match r {
                Some(v) => key_lookup(self@, id) == Some(v@),
                None => key_lookup(self@, id) is None,
            },
    {
        match self.find(id) {
            Some(k) => Some(&self.entries[k].1),
            None => None,
        }
    }

    /// Folds one report into the table, exactly as [`map_add_report`]
    /// states it.  Only well-formed windows are ever stored.
    pub fn add_report(&mut self, charger_id: u32, w: TimeRange)
        requires
            old(self).wf(),
            w.valid(),
        ensures
            final(self).wf(),
            final(self)@ == map_add_report(old(self)@, charger_id, w),
    {
        let ghost m0 = self@;
        match self.find(charger_id) {
            Some(k) => {
                let mut entry = (charger_id, Vec::new());
                self.entries.set_and_swap(k, &mut entry);
                entry.1.push(w);
                self.entries.set(k, entry);
                proof {
                    assert(self@ =~= m0.update(k as int, (charger_id, m0[k as int].1.push(w))));
                    assert forall|k2: int| 0 <= k2 < self@.len() implies all_valid(
                        (#[trigger] self@[k2]).1,
                    ) by {
                        if k2 == k as int {
                            assert(all_valid(m0[k as int].1));
                            assert(self@[k2].1 =~= m0[k as int].1.push(w));
                        } else {
                            assert(self@[k2] == m0[k2]);
                        }
                    }
                }
            },
            None => {
                let mut list: Vec<TimeRange> = Vec::new();
                list.push(w);
                self.entries.push((charger_id, list));
                proof {
                    assert(self@ =~= m0.push((charger_id, seq![w])));
                    assert forall|a: int, b: int| 0 <= a < b < self@.len() implies (
                    #[trigger] self@[a]).0 != (#[trigger] self@[b]).0 by {
                        if b == self@.len() - 1 {
                            assert(self@[a] == m0[a]);
                            assert(!has_key(m0, charger_id));
                        } else {
                            assert(self@[a] == m0[a] && self@[b] == m0[b]);
                        }
                    }
                    assert forall|k2: int| 0 <= k2 < self@.len() implies all_valid(
                        (#[trigger] self@[k2]).1,
                    ) by {
                        if k2 < self@.len() - 1 {
                            assert(self@[k2] == m0[k2]);
                        }
                    }
                }
            },
        }
    }
}

} // verus!
