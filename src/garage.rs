use vstd::prelude::*;

verus! {

/// What a garage holds, seen mathematically: each known spot mapped to
/// whether it is taken, and the running count of taken spots.
pub struct GarageView {
    pub lot: Map<Seq<char>, bool>,
    pub amount_in_use: int,
}

/// The number of spots of `lot` that are taken.
pub open spec fn taken_count(lot: Map<Seq<char>, bool>) -> nat {
    lot.dom().filter(|k: Seq<char>| lot[k]).len()
}

/// The state after reporting `spot` as `taken`: the spot is set (and created
/// if it was unknown), and the counter moves by one only when the spot turns
/// from free to taken or back.
pub open spec fn apply_spec(v: GarageView, spot: Seq<char>, taken: bool) -> GarageView {
    GarageView {
        lot: v.lot.insert(spot, taken),
        amount_in_use: if v.lot.contains_key(spot) {
            if v.lot[spot] == taken {
                v.amount_in_use
            } else if taken {
                v.amount_in_use + 1
            } else {
                v.amount_in_use - 1
            }
        } else if taken {
            v.amount_in_use + 1
        } else {
            v.amount_in_use
        },
    }
}

/// Whether reporting `spot` as `taken` keeps the counter within `i64`.
pub open spec fn update_fits(v: GarageView, spot: Seq<char>, taken: bool) -> bool {
    apply_spec(v, spot, taken).amount_in_use <= i64::MAX
}

/// The map that a sequence of entries with distinct names stands for.
pub open spec fn entries_view(s: Seq<(String, bool)>) -> Map<Seq<char>, bool> {
    Map::new(
        |k: Seq<char>| exists|i: int| 0 <= i < s.len() && (#[trigger] s[i]).0@ == k,
        |k: Seq<char>| s[choose|i: int| 0 <= i < s.len() && (#[trigger] s[i]).0@ == k].1,
    )
}

/// No two entries share a name.
pub open spec fn names_distinct(s: Seq<(String, bool)>) -> bool {
    forall|i: int, j: int|
        0 <= i < s.len() && 0 <= j < s.len() && i != j ==> (#[trigger] s[i]).0@ != (#[trigger] s[j]).0@
}

/// The occupancy of every spot reported so far, and the number of those taken.
pub struct ParkingGarageStatus {
    lot: Vec<(String, bool)>,
    amount_in_use: i64,
}

/// One report from a client: `spot` is now taken, or free.
pub struct ParkingGarageUpdate {
    pub spot: String,
    pub taken: bool,
}

/// A copy of the garage's state, as handed to clients.
pub struct ParkingGarageData {
    pub lot: Vec<(String, bool)>,
    pub amount_in_use: i64,
}

impl View for ParkingGarageStatus {
    type V = GarageView;

    closed spec fn view(&self) -> GarageView {
        GarageView { lot: entries_view(self.lot@), amount_in_use: self.amount_in_use as int }
    }
}

impl View for ParkingGarageData {
    type V = GarageView;

    open spec fn view(&self) -> GarageView {
        GarageView { lot: entries_view(self.lot@), amount_in_use: self.amount_in_use as int }
    }
}

impl ParkingGarageData {
    /// Every name of `lot` occurs once.
    pub open spec fn wf(&self) -> bool {
        names_distinct(self.lot@)
    }
}

proof fn lemma_entries_finite(s: Seq<(String, bool)>)
    ensures
        entries_view(s).dom().finite(),
{
    let keys = s.map_values(|e: (String, bool)| e.0@);
    assert(entries_view(s).dom() =~= keys.to_set()) by {
        assert forall|k: Seq<char>| #[trigger] entries_view(s).dom().contains(k) implies keys.to_set().contains(k) by {
            let i = choose|i: int| 0 <= i < s.len() && (#[trigger] s[i]).0@ == k;
            assert(keys[i] == k);
        }
        assert forall|k: Seq<char>| #[trigger] keys.to_set().contains(k) implies entries_view(s).dom().contains(k) by {
            let i = choose|i: int| 0 <= i < keys.len() && keys[i] == k;
            assert(s[i].0@ == k);
        }
    }
    vstd::seq_lib::seq_to_set_is_finite(keys);
}

proof fn lemma_entry_value(s: Seq<(String, bool)>, i: int)
    requires
        names_distinct(s),
        0 <= i < s.len(),
    ensures
        entries_view(s).contains_key(s[i].0@),
        entries_view(s)[s[i].0@] == s[i].1,
{
    let k = s[i].0@;
    assert(s[i].0@ == k);
    let j = choose|j: int| 0 <= j < s.len() && (#[trigger] s[j]).0@ == k;
    assert(j == i);
}

/// Setting one entry's flag is an insert into the map.
proof fn lemma_entries_update(s: Seq<(String, bool)>, i: int, name: String, taken: bool)
    requires
        names_distinct(s),
        0 <= i < s.len(),
        name@ == s[i].0@,
    ensures
        names_distinct(s.update(i, (name, taken))),
        entries_view(s.update(i, (name, taken))) == entries_view(s).insert(name@, taken),
{
    let t = s.update(i, (name, taken));
    assert(names_distinct(t)) by {
        assert forall|a: int, b: int|
            0 <= a < t.len() && 0 <= b < t.len() && a != b implies (#[trigger] t[a]).0@ != (#[trigger] t[b]).0@ by {
            assert(t[a].0@ == s[a].0@);
            assert(t[b].0@ == s[b].0@);
        }
    }
    let m = entries_view(s).insert(s[i].0@, taken);
    assert forall|k: Seq<char>| #[trigger] entries_view(t).contains_key(k) <==> m.contains_key(k) by {
        if entries_view(t).contains_key(k) {
            let j = choose|j: int| 0 <= j < t.len() && (#[trigger] t[j]).0@ == k;
            assert(s[j].0@ == k);
        }
        if m.contains_key(k) && k != s[i].0@ {
            let j = choose|j: int| 0 <= j < s.len() && (#[trigger] s[j]).0@ == k;
            assert(t[j].0@ == k);
        }
        if k == s[i].0@ {
            assert(t[i].0@ == k);
        }
    }
    assert forall|k: Seq<char>| #[trigger] entries_view(t).contains_key(k) implies entries_view(t)[k] == m[k] by {
        let j = choose|j: int| 0 <= j < t.len() && (#[trigger] t[j]).0@ == k;
        lemma_entry_value(t, j);
        if j != i {
            assert(s[j] == t[j]);
            lemma_entry_value(s, j);
        }
    }
    assert(entries_view(t) =~= m);
}

/// Appending an entry under a new name is an insert into the map.
proof fn lemma_entries_push(s: Seq<(String, bool)>, name: String, taken: bool)
    requires
        names_distinct(s),
        !entries_view(s).contains_key(name@),
    ensures
        names_distinct(s.push((name, taken))),
        entries_view(s.push((name, taken))) == entries_view(s).insert(name@, taken),
{
    let t = s.push((name, taken));
    let n = s.len() as int;
    assert(names_distinct(t)) by {
        assert forall|a: int, b: int|
            0 <= a < t.len() && 0 <= b < t.len() && a != b implies (#[trigger] t[a]).0@ != (#[trigger] t[b]).0@ by {
            if a < n && b < n {
                assert(t[a] == s[a] && t[b] == s[b]);
            } else if a < n {
                assert(t[a] == s[a]);
                assert(entries_view(s).dom().contains(s[a].0@));
            } else {
                assert(t[b] == s[b]);
                assert(entries_view(s).dom().contains(s[b].0@));
            }
        }
    }
    let m = entries_view(s).insert(name@, taken);
    assert forall|k: Seq<char>| #[trigger] entries_view(t).contains_key(k) <==> m.contains_key(k) by {
        if entries_view(t).contains_key(k) && k != name@ {
            let j = choose|j: int| 0 <= j < t.len() && (#[trigger] t[j]).0@ == k;
            assert(j < n);
            assert(s[j] == t[j]);
        }
        if m.contains_key(k) && k != name@ {
            let j = choose|j: int| 0 <= j < s.len() && (#[trigger] s[j]).0@ == k;
            assert(t[j] == s[j]);
        }
        if k == name@ {
            assert(t[n].0@ == k);
        }
    }
    assert forall|k: Seq<char>| #[trigger] entries_view(t).contains_key(k) implies entries_view(t)[k] == m[k] by {
        let j = choose|j: int| 0 <= j < t.len() && (#[trigger] t[j]).0@ == k;
        lemma_entry_value(t, j);
        if j != n {
            assert(s[j] == t[j]);
            lemma_entry_value(s, j);
        }
    }
    assert(entries_view(t) =~= m);
}

/// Two sequences whose entries agree on names and flags stand for one map.
proof fn lemma_entries_same(s: Seq<(String, bool)>, t: Seq<(String, bool)>)
    requires
        names_distinct(s),
        s.len() == t.len(),
        forall|i: int| 0 <= i < s.len() ==> (#[trigger] s[i]).0@ == t[i].0@ && s[i].1 == t[i].1,
    ensures
        names_distinct(t),
        entries_view(t) == entries_view(s),
{
    assert(names_distinct(t)) by {
        assert forall|a: int, b: int|
            0 <= a < t.len() && 0 <= b < t.len() && a != b implies (#[trigger] t[a]).0@ != (#[trigger] t[b]).0@ by {
            assert(s[a].0@ == t[a].0@ && s[b].0@ == t[b].0@);
        }
    }
    assert forall|k: Seq<char>| #[trigger] entries_view(t).contains_key(k) <==> entries_view(s).contains_key(k) by {
        if entries_view(t).contains_key(k) {
            let j = choose|j: int| 0 <= j < t.len() && (#[trigger] t[j]).0@ == k;
            assert(s[j].0@ == k);
        }
        if entries_view(s).contains_key(k) {
            let j = choose|j: int| 0 <= j < s.len() && (#[trigger] s[j]).0@ == k;
            assert(t[j].0@ == k);
        }
    }
    assert forall|k: Seq<char>| #[trigger] entries_view(t).contains_key(k) implies entries_view(t)[k] == entries_view(s)[k] by {
        let j = choose|j: int| 0 <= j < t.len() && (#[trigger] t[j]).0@ == k;
        assert(s[j].0@ == k);
        lemma_entry_value(t, j);
        lemma_entry_value(s, j);
    }
    assert(entries_view(t) =~= entries_view(s));
}

/// The spots of `lot` that are taken.
pub open spec fn taken_set(lot: Map<Seq<char>, bool>) -> Set<Seq<char>> {
    lot.dom().filter(|k: Seq<char>| lot[k])
}

/// Setting one spot changes the number of taken spots by at most one: the
/// old flag's share leaves, the new one's comes in.
pub proof fn lemma_count_insert(lot: Map<Seq<char>, bool>, spot: Seq<char>, taken: bool)
    requires
        lot.dom().finite(),
    ensures
        taken_count(lot.insert(spot, taken)) + (if lot.contains_key(spot) && lot[spot] { 1int } else { 0 })
            == taken_count(lot) + (if taken { 1int } else { 0 }),
{
    let m = lot.insert(spot, taken);
    let f = taken_set(lot);
    let g = taken_set(m);
    vstd::set_lib::lemma_set_subset_finite(lot.dom(), f);
    assert(f.subset_of(lot.dom()));
    assert(taken_count(lot) == f.len());
    assert(taken_count(m) == g.len());
    if taken {
        assert(g =~= f.insert(spot));
    } else {
        assert(g =~= f.remove(spot));
    }
}

impl ParkingGarageStatus {
    /// Names are distinct, and the counter is the number of taken spots.
    pub closed spec fn wf(&self) -> bool {
        &&& names_distinct(self.lot@)
        &&& self.amount_in_use == taken_count(entries_view(self.lot@))
    }

    /// An empty garage: no spot known, none in use.
    pub fn new() -> (r: Self)
        ensures
            r.wf(),
            r@.lot == Map::<Seq<char>, bool>::empty(),
            r@.amount_in_use == 0,
    {
        let r = ParkingGarageStatus { lot: Vec::new(), amount_in_use: 0 };
        assert(entries_view(r.lot@) =~= Map::<Seq<char>, bool>::empty());
        assert(taken_set(Map::<Seq<char>, bool>::empty()) =~= Set::<Seq<char>>::empty());
        r
    }

    /// The garage's lot is a finite map, whose taken spots the counter counts.
    pub proof fn lemma_wf(&self)
        requires
            self.wf(),
        ensures
            self@.lot.dom().finite(),
            self@.amount_in_use == taken_count(self@.lot),
    {
        lemma_entries_finite(self.lot@);
    }

    /// Records that `spot` is `taken` (or free), creating the spot if it was
    /// unknown; the counter moves only when the spot's flag changes.
    pub fn apply_update(&mut self, spot: &String, taken: bool)
        requires
            old(self).wf(),
            update_fits(old(self)@, spot@, taken),
        ensures
            final(self).wf(),
            final(self)@ == apply_spec(old(self)@, spot@, taken),
            final(self)@.amount_in_use == taken_count(final(self)@.lot),
    {
        proof {
            lemma_entries_finite(self.lot@);
            lemma_count_insert(self@.lot, spot@, taken);
        }
        let n = self.lot.len();
        let mut i: usize = 0;
        while i < n
            invariant
                n == self.lot.len(),
                i <= n,
                self.lot@ == old(self).lot@,
                self.amount_in_use == old(self).amount_in_use,
                old(self).wf(),
                update_fits(old(self)@, spot@, taken),
                old(self)@.lot.dom().finite(),
                taken_count(old(self)@.lot.insert(spot@, taken)) + (if old(self)@.lot.contains_key(spot@) && old(self)@.lot[spot@] { 1int } else { 0 })
                    == taken_count(old(self)@.lot) + (if taken { 1int } else { 0 }),
                forall|j: int| 0 <= j < i ==> (#[trigger] self.lot@[j]).0@ != spot@,
            decreases n - i,
        {
            if self.lot[i].0 == *spot {
                proof {
                    lemma_entry_value(self.lot@, i as int);
                }
                if self.lot[i].1 != taken {
                    let name = self.lot[i].0.clone();
                    proof {
                        lemma_entries_update(self.lot@, i as int, name, taken);
                    }
                    self.lot.set(i, (name, taken));
                    if taken {
                        self.amount_in_use = self.amount_in_use + 1;
                    } else {
                        self.amount_in_use = self.amount_in_use - 1;
                    }
                } else {
                    assert(old(self)@.lot.insert(spot@, taken) =~= old(self)@.lot);
                }
                return;
            }
            i = i + 1;
        }
        proof {
            assert(!entries_view(self.lot@).contains_key(spot@)) by {
                if entries_view(self.lot@).contains_key(spot@) {
                    let j = choose|j: int| 0 <= j < self.lot@.len() && (#[trigger] self.lot@[j]).0@ == spot@;
                    assert(self.lot@[j].0@ != spot@);
                }
            }
        }
        let name = spot.clone();
        proof {
            lemma_entries_push(self.lot@, name, taken);
        }
        self.lot.push((name, taken));
        if taken {
            self.amount_in_use = self.amount_in_use + 1;
        }
    }

    /// Whether `spot` is known, and if so whether it is taken.
    pub fn lookup(&self, spot: &String) -> (r: Option<bool>)
        requires
            self.wf(),
        ensures
            r == (if self@.lot.contains_key(spot@) { Some(self@.lot[spot@]) } else { None::<bool> }),
    {
        let n = self.lot.len();
        let mut i: usize = 0;
        while i < n
            invariant
                n == self.lot.len(),
                i <= n,
                names_distinct(self.lot@),
                forall|j: int| 0 <= j < i ==> (#[trigger] self.lot@[j]).0@ != spot@,
            decreases n - i,
        {
            if self.lot[i].0 == *spot {
                proof {
                    lemma_entry_value(self.lot@, i as int);
                }
                return Some(self.lot[i].1);
            }
            i = i + 1;
        }
        proof {
            if entries_view(self.lot@).contains_key(spot@) {
                let j = choose|j: int| 0 <= j < self.lot@.len() && (#[trigger] self.lot@[j]).0@ == spot@;
                assert(self.lot@[j].0@ != spot@);
            }
        }
        None
    }

    /// Whether reporting `spot` as `taken` keeps the counter within range.
    pub fn fits_update(&self, spot: &String, taken: bool) -> (r: bool)
        requires
            self.wf(),
        ensures
            r == update_fits(self@, spot@, taken),
    {
        if !taken || self.amount_in_use < i64::MAX {
            true
        } else {
            match self.lookup(spot) {
                Some(current) => current,
                None => false,
            }
        }
    }

    /// A copy of the lot and the counter as they stand.
    pub fn snapshot(&self) -> (r: ParkingGarageData)
        requires
            self.wf(),
        ensures
            r.wf(),
            r@ == self@,
    {
        let n = self.lot.len();
        let mut lot: Vec<(String, bool)> = Vec::new();
        let mut i: usize = 0;
        while i < n
            invariant
                n == self.lot.len(),
                i <= n,
                lot@.len() == i,
                forall|j: int| 0 <= j < i ==> (#[trigger] lot@[j]).0@ == self.lot@[j].0@ && lot@[j].1 == self.lot@[j].1,
            decreases n - i,
        {
            let name = self.lot[i].0.clone();
            lot.push((name, self.lot[i].1));
            i = i + 1;
        }
        proof {
            lemma_entries_same(self.lot@, lot@);
        }
        ParkingGarageData { lot, amount_in_use: self.amount_in_use }
    }
}

} // verus!
