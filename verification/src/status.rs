//! Live coverage state of one fuzzing run: per-target counters, kept in
//! a map from target name to counters whose iteration order is sorted by
//! name so that reports come out deterministic.
use vstd::prelude::*;

use crate::text::{str_is_lt, str_eq, str_lt};

verus! {

/// Coverage counters for one fuzzing target: the number of reachable
/// coverage units (edges), the number of units observed hit so far, and
/// the number of distinct crash artifacts seen so far.
#[derive(Clone, Copy, PartialEq, Eq, Structural, Debug)]
pub struct TargetStatus {
    pub total: u32,
    pub covered: u32,
    pub errors: u32,
}

impl TargetStatus {
    pub fn new(total: u32, covered: u32, errors: u32) -> (r: TargetStatus)
        ensures
            r == (TargetStatus { total, covered, errors }),
    {
        TargetStatus { total, covered, errors }
    }
}

impl Default for TargetStatus {
    fn default() -> (r: TargetStatus)
        ensures
            r == (TargetStatus { total: 0, covered: 0, errors: 0 }),
    {
        TargetStatus { total: 0, covered: 0, errors: 0 }
    }
}

/// The map a sequence of name/status entries stands for; a later entry
/// with the same name would win, though well-formed sequences have no
/// duplicate names.
pub open spec fn status_map(s: Seq<(Seq<char>, TargetStatus)>) -> Map<Seq<char>, TargetStatus>
    decreases s.len(),
{
    if s.len() == 0 {
        Map::empty()
    } else {
        status_map(s.drop_last()).insert(s.last().0, s.last().1)
    }
}

/// Entries strictly sorted by name: no duplicates, deterministic order.
pub open spec fn sorted_by_name(s: Seq<(Seq<char>, TargetStatus)>) -> bool {
    forall|i: int, j: int| 0 <= i < j < s.len() ==> str_lt(#[trigger] s[i].0, #[trigger] s[j].0)
}

/// A point-in-time snapshot of a whole run: each target's counters,
/// keyed by target name, iterated in sorted name order.
pub struct FuzzingStatus {
    entries: Vec<(String, TargetStatus)>,
}

impl View for FuzzingStatus {
    type V = Map<Seq<char>, TargetStatus>;

    closed spec fn view(&self) -> Map<Seq<char>, TargetStatus> {
        status_map(self.entries_seq())
    }
}

impl FuzzingStatus {
    /// The entries in iteration order, names by their character views.
    pub closed spec fn entries_seq(self) -> Seq<(Seq<char>, TargetStatus)> {
        self.entries@.map_values(|e: (String, TargetStatus)| (e.0@, e.1))
    }

    /// The names in iteration order.
    pub open spec fn names(self) -> Seq<Seq<char>> {
        self.entries_seq().map_values(|e: (Seq<char>, TargetStatus)| e.0)
    }

    /// Well-formed: entries strictly sorted by name.
    pub open spec fn wf(self) -> bool {
        sorted_by_name(self.entries_seq())
    }

    pub fn new() -> (r: FuzzingStatus)
        ensures
            r.wf(),
            r@ == Map::<Seq<char>, TargetStatus>::empty(),
            r.entries_seq() == Seq::<(Seq<char>, TargetStatus)>::empty(),
    {
        let r = FuzzingStatus { entries: Vec::new() };
        proof {
            assert(r.entries_seq() =~= Seq::<(Seq<char>, TargetStatus)>::empty());
        }
        r
    }

    /// Index of the entry for `name`, if there is one.
    fn find(&self, name: &str) -> (r: Option<usize>)
        requires
            self.wf(),
        ensures
            match r {
                Some(i) => i < self.entries_seq().len() && self.entries_seq()[i as int].0
                    == name@,
                None => forall|k: int|
                    0 <= k < self.entries_seq().len() ==> (#[trigger] self.entries_seq()[k]).0
                        != name@,
            },
    {
        let mut i: usize = 0;
        let n = self.entries.len();
        while i < n
            invariant
                0 <= i <= n,
                n == self.entries_seq().len(),
                self.entries@.len() == n,
                forall|k: int|
                    0 <= k < i ==> (#[trigger] self.entries_seq()[k]).0 != name@,
            decreases n - i,
        {
            if str_eq(self.entries[i].0.as_str(), name) {
                return Some(i);
            }
            i = i + 1;
        }
        None
    }

    /// Number of targets.
    pub fn len(&self) -> (r: usize)
        ensures
            r == self.entries_seq().len(),
    {
        self.entries.len()
    }

    /// The name of the `i`-th target in sorted order.
    pub fn name_at(&self, i: usize) -> (r: &String)
        requires
            i < self.entries_seq().len(),
        ensures
            r@ == self.entries_seq()[i as int].0,
    {
        &self.entries[i].0
    }

    /// The counters of the `i`-th target in sorted order.
    pub fn status_at(&self, i: usize) -> (r: TargetStatus)
        requires
            i < self.entries_seq().len(),
        ensures
            r == self.entries_seq()[i as int].1,
    {
        self.entries[i].1
    }

    /// The counters recorded for `name`, if that target is known.
    pub fn get(&self, name: &str) -> (r: Option<TargetStatus>)
        requires
            self.wf(),
        ensures
            r == if self@.contains_key(name@) {
                Some(self@[name@])
            } else {
                None::<TargetStatus>
            },
    {
        proof {
            lemma_status_map_index(self.entries_seq(), name@);
        }
        match self.find(name) {
            Some(i) => {
                proof {
                    lemma_sorted_unique(self.entries_seq());
                }
                Some(self.entries[i].1)
            },
            None => None,
        }
    }

    /// Registers `name` with `total` reachable units, resetting its
    /// covered and error counters; overwrites any earlier registration.
    pub fn set_total(&mut self, name: &str, total: u32)
        requires
            old(self).wf(),
        ensures
            final(self).wf(),
            final(self)@ == old(self)@.insert(
                name@,
                TargetStatus { total, covered: 0, errors: 0 },
            ),
    {
        let ts = TargetStatus { total, covered: 0, errors: 0 };
        let ghost s0 = self.entries_seq();
        let n = self.entries.len();
        let mut i: usize = 0;
        loop
            invariant
                0 <= i <= n,
                n == self.entries@.len(),
                self.entries_seq() == s0,
                forall|k: int| 0 <= k < i ==> str_lt((#[trigger] s0[k]).0, name@),
            ensures
                0 <= i <= n,
                self.entries_seq() == s0,
                forall|k: int| 0 <= k < i ==> str_lt((#[trigger] s0[k]).0, name@),
                i < n ==> !str_lt(s0[i as int].0, name@),
            decreases n - i,
        {
            if i >= n {
                break ;
            }
            if !str_is_lt(self.entries[i].0.as_str(), name) {
                break ;
            }
            i = i + 1;
        }
        if i < n && str_eq(self.entries[i].0.as_str(), name) {
            let (entry_name, _) = self.entries.remove(i);
            self.entries.insert(i, (entry_name, ts));
            proof {
                assert(self.entries_seq() =~= s0.update(i as int, (name@, ts)));
                lemma_sorted_update(s0, i as int, ts);
                lemma_status_map_update(s0, i as int, ts);
            }
        } else {
            proof {
                lemma_str_lt_trichotomy(s0, i as int, name@);
                assert forall|k: int| 0 <= k < s0.len() implies (#[trigger] s0[k]).0 != name@ by {
                    if s0[k].0 == name@ {
                        crate::text::lemma_str_lt_irrefl(name@);
                    }
                }
            }
            let owned = name_to_string(name);
            self.entries.insert(i, (owned, ts));
            proof {
                assert(self.entries_seq() =~= s0.insert(i as int, (name@, ts)));
                lemma_sorted_insert(s0, i as int, (name@, ts));
                lemma_status_map_insert(s0, i as int, (name@, ts));
            }
        }
    }

    /// Adds newly covered units to a registered target; unknown targets
    /// are left alone. The counter saturates at its maximum.
    pub fn add_covered(&mut self, name: &str, covered: u32)
        requires
            old(self).wf(),
        ensures
            final(self).wf(),
            final(self)@ == spec_add_covered(old(self)@, name@, covered),
    {
        let ghost s0 = self.entries_seq();
        proof {
            lemma_status_map_index(s0, name@);
        }
        match self.find(name) {
            Some(i) => {
                let (entry_name, st) = self.entries.remove(i);
                let st2 = TargetStatus {
                    total: st.total,
                    covered: st.covered.saturating_add(covered),
                    errors: st.errors,
                };
                self.entries.insert(i, (entry_name, st2));
                proof {
                    lemma_sorted_unique(s0);
                    assert(self.entries_seq() =~= s0.update(i as int, (name@, st2)));
                    lemma_sorted_update(s0, i as int, st2);
                    lemma_status_map_update(s0, i as int, st2);
                }
            },
            None => {},
        }
    }

    /// Adds newly found crash artifacts to a registered target; unknown
    /// targets are left alone. The counter saturates at its maximum.
    pub fn add_errors(&mut self, name: &str, errors: u32)
        requires
            old(self).wf(),
        ensures
            final(self).wf(),
            final(self)@ == spec_add_errors(old(self)@, name@, errors),
    {
        let ghost s0 = self.entries_seq();
        proof {
            lemma_status_map_index(s0, name@);
        }
        match self.find(name) {
            Some(i) => {
                let (entry_name, st) = self.entries.remove(i);
                let st2 = TargetStatus {
                    total: st.total,
                    covered: st.covered,
                    errors: st.errors.saturating_add(errors),
                };
                self.entries.insert(i, (entry_name, st2));
                proof {
                    lemma_sorted_unique(s0);
                    assert(self.entries_seq() =~= s0.update(i as int, (name@, st2)));
                    lemma_sorted_update(s0, i as int, st2);
                    lemma_status_map_update(s0, i as int, st2);
                }
            },
            None => {},
        }
    }

    /// Wraps entries already arranged by the caller; the decoder uses
    /// this after checking sorted order.
    pub(crate) fn from_entries(entries: Vec<(String, TargetStatus)>) -> (r: FuzzingStatus)
        ensures
            r.entries_seq() == entries@.map_values(|e: (String, TargetStatus)| (e.0@, e.1)),
    {
        FuzzingStatus { entries }
    }

    /// A value copy of the whole map, so that diffing never observes a
    /// half-applied update.
    pub fn snapshot(&self) -> (r: FuzzingStatus)
        ensures
            r.entries_seq() == self.entries_seq(),
            r@ == self@,
            r.wf() == self.wf(),
    {
        let mut entries: Vec<(String, TargetStatus)> = Vec::new();
        let n = self.entries.len();
        let mut i: usize = 0;
        while i < n
            invariant
                0 <= i <= n,
                n == self.entries@.len(),
                entries@.len() == i,
                forall|k: int|
                    0 <= k < i ==> (#[trigger] entries@[k]).0@ == self.entries@[k].0@ && entries@[k].1
                        == self.entries@[k].1,
            decreases n - i,
        {
            let name = self.entries[i].0.clone();
            let st = self.entries[i].1;
            entries.push((name, st));
            i = i + 1;
        }
        let r = FuzzingStatus { entries };
        proof {
            assert(r.entries_seq() =~= self.entries_seq());
        }
        r
    }
}

/// What `add_covered` does to the map.
pub open spec fn spec_add_covered(
    m: Map<Seq<char>, TargetStatus>,
    name: Seq<char>,
    covered: u32,
) -> Map<Seq<char>, TargetStatus> {
    if m.contains_key(name) {
        m.insert(
            name,
            TargetStatus {
                total: m[name].total,
                covered: sat_add_u32(m[name].covered, covered),
                errors: m[name].errors,
            },
        )
    } else {
        m
    }
}

/// What `add_errors` does to the map.
pub open spec fn spec_add_errors(
    m: Map<Seq<char>, TargetStatus>,
    name: Seq<char>,
    errors: u32,
) -> Map<Seq<char>, TargetStatus> {
    if m.contains_key(name) {
        m.insert(
            name,
            TargetStatus {
                total: m[name].total,
                covered: m[name].covered,
                errors: sat_add_u32(m[name].errors, errors),
            },
        )
    } else {
        m
    }
}

/// Addition capped at the largest counter value.
pub open spec fn sat_add_u32(a: u32, b: u32) -> u32 {
    if a + b <= u32::MAX {
        (a + b) as u32
    } else {
        u32::MAX
    }
}

/// One recorded mutation of the shared map, as the aggregator applies it.
pub enum StatusUpdate {
    SetTotal { name: Seq<char>, total: u32 },
    AddCovered { name: Seq<char>, covered: u32 },
    AddErrors { name: Seq<char>, errors: u32 },
}

impl StatusUpdate {
    /// The target the update touches.
    pub open spec fn target(self) -> Seq<char> {
        match self {
            StatusUpdate::SetTotal { name, .. } => name,
            StatusUpdate::AddCovered { name, .. } => name,
            StatusUpdate::AddErrors { name, .. } => name,
        }
    }
}

/// What one update does to the map: exactly what the corresponding
/// aggregator method ensures.
pub open spec fn apply_update(
    m: Map<Seq<char>, TargetStatus>,
    u: StatusUpdate,
) -> Map<Seq<char>, TargetStatus> {
    match u {
        StatusUpdate::SetTotal { name, total } => m.insert(
            name,
            TargetStatus { total, covered: 0, errors: 0 },
        ),
        StatusUpdate::AddCovered { name, covered } => spec_add_covered(m, name, covered),
        StatusUpdate::AddErrors { name, errors } => spec_add_errors(m, name, errors),
    }
}

/// The cumulative effect of a call sequence, first call first.
pub open spec fn apply_updates(
    m: Map<Seq<char>, TargetStatus>,
    us: Seq<StatusUpdate>,
) -> Map<Seq<char>, TargetStatus>
    decreases us.len(),
{
    if us.len() == 0 {
        m
    } else {
        apply_update(apply_updates(m, us.drop_last()), us.last())
    }
}

/// Updates to different targets commute: the snapshot reflects the
/// cumulative applied deltas no matter how calls from different targets
/// interleave, while each target's own calls apply in call order.
pub proof fn lemma_updates_commute(
    m: Map<Seq<char>, TargetStatus>,
    u1: StatusUpdate,
    u2: StatusUpdate,
)
    requires
        u1.target() != u2.target(),
    ensures
        apply_update(apply_update(m, u1), u2) == apply_update(apply_update(m, u2), u1),
{
    assert(apply_update(apply_update(m, u1), u2) =~= apply_update(apply_update(m, u2), u1));
}

/// Swapping two adjacent calls that touch different targets leaves the
/// cumulative result unchanged; all interleavings of independent calls
/// are reachable by such swaps.
pub proof fn lemma_interleaving_swap(
    m: Map<Seq<char>, TargetStatus>,
    us: Seq<StatusUpdate>,
    i: int,
)
    requires
        0 <= i,
        i + 1 < us.len(),
        us[i].target() != us[i + 1].target(),
    ensures
        apply_updates(m, us) == apply_updates(m, us.update(i, us[i + 1]).update(i + 1, us[i])),
    decreases us.len(),
{
    let swapped = us.update(i, us[i + 1]).update(i + 1, us[i]);
    if i + 2 == us.len() {
        assert(us.drop_last().drop_last() =~= swapped.drop_last().drop_last());
        assert(us.drop_last().last() == us[i]);
        assert(swapped.drop_last().last() == us[i + 1]);
        assert(us.last() == us[i + 1]);
        assert(swapped.last() == us[i]);
        let base = apply_updates(m, us.drop_last().drop_last());
        lemma_updates_commute(base, us[i], us[i + 1]);
        assert(apply_updates(m, us.drop_last()) == apply_update(base, us[i]));
        assert(apply_updates(m, swapped.drop_last()) == apply_update(base, us[i + 1]));
        assert(apply_updates(m, us) == apply_update(apply_update(base, us[i]), us[i + 1]));
        assert(apply_updates(m, swapped) == apply_update(apply_update(base, us[i + 1]), us[i]));
    } else {
        lemma_interleaving_swap(m, us.drop_last(), i);
        assert(us.drop_last().update(i, us[i + 1]).update(i + 1, us[i]) =~= swapped.drop_last());
        assert(swapped.last() == us.last());
    }
}

/// Takes an owned copy of a borrowed name.
fn name_to_string(name: &str) -> (r: String)
    ensures
        r@ == name@,
{
    name.to_owned()
}

/// The map a snapshot stands for is the map of its entries.
pub proof fn lemma_view_is_status_map(fs: FuzzingStatus)
    ensures
        fs@ == status_map(fs.entries_seq()),
{
}

/// A key is in the map of a sequence exactly when some entry carries it,
/// and then the map holds the value of the last such entry.
pub proof fn lemma_status_map_index(s: Seq<(Seq<char>, TargetStatus)>, name: Seq<char>)
    ensures
        status_map(s).contains_key(name) <==> exists|i: int|
            0 <= i < s.len() && (#[trigger] s[i]).0 == name,
        forall|i: int|
            0 <= i < s.len() && (#[trigger] s[i]).0 == name && (forall|j: int|
                i < j < s.len() ==> (#[trigger] s[j]).0 != name) ==> status_map(s).contains_key(
                name,
            ) && status_map(s)[name] == s[i].1,
    decreases s.len(),
{
    if s.len() > 0 {
        lemma_status_map_index(s.drop_last(), name);
        assert forall|i: int|
            0 <= i < s.len() && (#[trigger] s[i]).0 == name && (forall|j: int|
                i < j < s.len() ==> (#[trigger] s[j]).0 != name) implies status_map(
            s,
        ).contains_key(name) && status_map(s)[name] == s[i].1 by {
            if i == s.len() - 1 {
                assert(s.last() == s[i]);
            } else {
                assert(s.drop_last()[i] == s[i]);
                assert(forall|j: int|
                    i < j < s.drop_last().len() ==> (#[trigger] s.drop_last()[j]).0 != name);
                assert(s.last().0 != name);
            }
        }
        if status_map(s).contains_key(name) {
            if s.last().0 == name {
                assert(s[s.len() - 1].0 == name);
            } else {
                assert(status_map(s.drop_last()).contains_key(name));
                let i = choose|i: int|
                    0 <= i < s.drop_last().len() && (#[trigger] s.drop_last()[i]).0 == name;
                assert(s[i].0 == name);
            }
        }
        if exists|i: int| 0 <= i < s.len() && (#[trigger] s[i]).0 == name {
            let i = choose|i: int| 0 <= i < s.len() && (#[trigger] s[i]).0 == name;
            if i == s.len() - 1 {
                assert(s.last().0 == name);
            } else {
                assert(s.drop_last()[i] == s[i]);
                assert(status_map(s.drop_last()).contains_key(name));
            }
            assert(status_map(s).contains_key(name));
        }
    }
}

/// In a sorted sequence names are unique: an entry for a name is the
/// only one, so it is also the last one.
pub proof fn lemma_sorted_unique(s: Seq<(Seq<char>, TargetStatus)>)
    requires
        sorted_by_name(s),
    ensures
        forall|i: int, j: int|
            0 <= i < s.len() && 0 <= j < s.len() && i != j ==> (#[trigger] s[i]).0 != (
            #[trigger] s[j]).0,
{
    assert forall|i: int, j: int|
        0 <= i < s.len() && 0 <= j < s.len() && i != j implies (#[trigger] s[i]).0 != (
    #[trigger] s[j]).0 by {
        if s[i].0 == s[j].0 {
            if i < j {
                assert(str_lt(s[i].0, s[j].0));
            } else {
                assert(str_lt(s[j].0, s[i].0));
            }
            crate::text::lemma_str_lt_irrefl(s[i].0);
        }
    }
}

/// Updating the entry at `i` with the same name updates the map alone.
proof fn lemma_status_map_update(s: Seq<(Seq<char>, TargetStatus)>, i: int, ts: TargetStatus)
    requires
        sorted_by_name(s),
        0 <= i < s.len(),
    ensures
        status_map(s.update(i, (s[i].0, ts))) == status_map(s).insert(s[i].0, ts),
    decreases s.len(),
{
    lemma_sorted_unique(s);
    let s2 = s.update(i, (s[i].0, ts));
    if i == s.len() - 1 {
        assert(s2.drop_last() =~= s.drop_last());
        assert(s2.last() == (s[i].0, ts));
    } else {
        assert(s2.drop_last() =~= s.drop_last().update(i, (s[i].0, ts)));
        assert(s.drop_last()[i] == s[i]);
        assert(sorted_by_name(s.drop_last()));
        lemma_status_map_update(s.drop_last(), i, ts);
        assert(s2.last() == s.last());
        assert(s.last().0 != s[i].0);
        assert(status_map(s2) =~= status_map(s).insert(s[i].0, ts));
    }
}

/// Inserting an entry with a fresh name at any position inserts into the
/// map.
proof fn lemma_status_map_insert(
    s: Seq<(Seq<char>, TargetStatus)>,
    i: int,
    e: (Seq<char>, TargetStatus),
)
    requires
        0 <= i <= s.len(),
        forall|k: int| 0 <= k < s.len() ==> (#[trigger] s[k]).0 != e.0,
    ensures
        status_map(s.insert(i, e)) == status_map(s).insert(e.0, e.1),
    decreases s.len(),
{
    let s2 = s.insert(i, e);
    if i == s.len() {
        assert(s2.drop_last() =~= s);
        assert(s2.last() == e);
    } else {
        assert(s2.drop_last() =~= s.drop_last().insert(i, e));
        assert(s2.last() == s.last());
        assert(s[s.len() - 1].0 != e.0);
        lemma_status_map_insert(s.drop_last(), i, e);
        assert(status_map(s2) =~= status_map(s).insert(e.0, e.1));
    }
}

/// Replacing a value keeps the sorted order.
proof fn lemma_sorted_update(s: Seq<(Seq<char>, TargetStatus)>, i: int, ts: TargetStatus)
    requires
        sorted_by_name(s),
        0 <= i < s.len(),
    ensures
        sorted_by_name(s.update(i, (s[i].0, ts))),
{
    let s2 = s.update(i, (s[i].0, ts));
    assert forall|x: int, y: int| 0 <= x < y < s2.len() implies str_lt(
        (#[trigger] s2[x]).0,
        (#[trigger] s2[y]).0,
    ) by {
        assert(s2[x].0 == s[x].0);
        assert(s2[y].0 == s[y].0);
    }
}

/// Inserting between the names below and the names above keeps the
/// sorted order.
proof fn lemma_sorted_insert(
    s: Seq<(Seq<char>, TargetStatus)>,
    i: int,
    e: (Seq<char>, TargetStatus),
)
    requires
        sorted_by_name(s),
        0 <= i <= s.len(),
        forall|k: int| 0 <= k < i ==> str_lt((#[trigger] s[k]).0, e.0),
        forall|k: int| i <= k < s.len() ==> str_lt(e.0, (#[trigger] s[k]).0),
    ensures
        sorted_by_name(s.insert(i, e)),
{
    let s2 = s.insert(i, e);
    assert forall|x: int, y: int| 0 <= x < y < s2.len() implies str_lt(
        (#[trigger] s2[x]).0,
        (#[trigger] s2[y]).0,
    ) by {
        if x < i && y < i {
            assert(s2[x] == s[x] && s2[y] == s[y]);
        } else if x < i && y == i {
            assert(s2[x] == s[x]);
        } else if x < i && y > i {
            assert(s2[x] == s[x] && s2[y] == s[y - 1]);
        } else if x == i && y > i {
            assert(s2[y] == s[y - 1]);
        } else if x > i && y > i {
            assert(s2[x] == s[x - 1] && s2[y] == s[y - 1]);
        }
    }
}

/// After the scan stopped at `i`, the new name is strictly between the
/// names before `i` and the names from `i` on (when it matches none).
proof fn lemma_str_lt_trichotomy(s: Seq<(Seq<char>, TargetStatus)>, i: int, name: Seq<char>)
    requires
        sorted_by_name(s),
        0 <= i <= s.len(),
        forall|k: int| 0 <= k < i ==> str_lt((#[trigger] s[k]).0, name),
        i < s.len() ==> !str_lt(s[i].0, name) && s[i].0 != name,
    ensures
        forall|k: int| i <= k < s.len() ==> str_lt(name, (#[trigger] s[k]).0),
{
    if i < s.len() {
        crate::text::lemma_str_lt_connex(s[i].0, name);
        assert forall|k: int| i <= k < s.len() implies str_lt(name, (#[trigger] s[k]).0) by {
            if k > i {
                crate::text::lemma_str_lt_trans(name, s[i].0, s[k].0);
            }
        }
    }
}

} // verus!
