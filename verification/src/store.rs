//! The reminder store: an ordered collection keyed by stamped date, holding a
//! label and a one-shot triggered flag per reminder. Kept sorted ascending by
//! key so iteration yields reminders in chronological target order; trigger
//! correctness scans every entry.

use vstd::prelude::*;
use crate::date::{
    Date, Stamp, StampedDate, date_le, date_wf, date_valid, stamp_wf, stamped_lt, stamped_eq,
    spec_add_days, lemma_add_days_day_number,
};

verus! {

/// One reminder: its unique stamped-date key, the label shown and announced
/// when it fires, and the latch that keeps it from firing twice.
pub struct Reminder {
    pub key: StampedDate,
    pub label: Vec<u8>,
    pub triggered: bool,
}

/// The mathematical image of one reminder.
pub struct ReminderModel {
    pub key: StampedDate,
    pub label: Seq<u8>,
    pub triggered: bool,
}

impl View for Reminder {
    type V = ReminderModel;

    open spec fn view(&self) -> ReminderModel {
        ReminderModel { key: self.key, label: self.label@, triggered: self.triggered }
    }
}

/// The reminder store; viewed as the sequence of its entries in ascending
/// key order.
pub struct Reminders {
    pub entries: Vec<Reminder>,
}

impl View for Reminders {
    type V = Seq<ReminderModel>;

    open spec fn view(&self) -> Seq<ReminderModel> {
        Seq::new(self.entries@.len(), |i: int| self.entries@[i]@)
    }
}

/// The store's invariant: entries strictly ascending by key (so every key is
/// unique), every key's date of valid calendar shape, every stamp well
/// formed.
pub open spec fn store_wf(s: Seq<ReminderModel>) -> bool {
    &&& forall|i: int, j: int|
        0 <= i < j < s.len() ==> stamped_lt(#[trigger] s[i].key, #[trigger] s[j].key)
    &&& forall|i: int| 0 <= i < s.len() ==> date_valid((#[trigger] s[i]).key.date)
    &&& forall|i: int| 0 <= i < s.len() ==> stamp_wf((#[trigger] s[i]).key.time)
}

/// A fresh, untriggered entry.
pub open spec fn new_model(key: StampedDate, label: Seq<u8>) -> ReminderModel {
    ReminderModel { key, label, triggered: false }
}

/// Insertion into the sorted sequence: an entry takes its place in key
/// order; an entry with an equal key is overwritten by the later insert.
pub open spec fn spec_insert_entry(s: Seq<ReminderModel>, e: ReminderModel) -> Seq<ReminderModel>
    decreases s.len(),
{
    if s.len() == 0 {
        seq![e]
    } else if stamped_lt(e.key, s[0].key) {
        seq![e] + s
    } else if stamped_eq(e.key, s[0].key) {
        seq![e] + s.drop_first()
    } else {
        seq![s[0]] + spec_insert_entry(s.drop_first(), e)
    }
}

/// Insertion of a fresh, untriggered entry.
pub open spec fn spec_insert(s: Seq<ReminderModel>, key: StampedDate, label: Seq<u8>) -> Seq<
    ReminderModel,
> {
    spec_insert_entry(s, new_model(key, label))
}

/// Removal by key: the entry with an equal key disappears; a key not present
/// leaves the sequence unchanged.
pub open spec fn spec_remove(s: Seq<ReminderModel>, key: StampedDate) -> Seq<ReminderModel>
    decreases s.len(),
{
    if s.len() == 0 {
        s
    } else if stamped_eq(s[0].key, key) {
        s.drop_first()
    } else {
        seq![s[0]] + spec_remove(s.drop_first(), key)
    }
}

/// One entry after a scan at `current`: the latch is set once the target
/// date has been reached, and never reverts.
pub open spec fn scan_model(r: ReminderModel, current: Date) -> ReminderModel {
    ReminderModel {
        key: r.key,
        label: r.label,
        triggered: r.triggered || date_le(r.key.date, current),
    }
}

/// The whole store after a scan at `current`.
pub open spec fn spec_after_scan(s: Seq<ReminderModel>, current: Date) -> Seq<ReminderModel> {
    Seq::new(s.len(), |i: int| scan_model(s[i], current))
}

/// What one entry emits during a scan: its label exactly when it is reached
/// and was not yet triggered.
pub open spec fn fire_one(r: ReminderModel, current: Date) -> Seq<Seq<u8>> {
    if !r.triggered && date_le(r.key.date, current) {
        seq![r.label]
    } else {
        Seq::empty()
    }
}

/// The labels a scan at `current` emits, in store order.
pub open spec fn spec_fired(s: Seq<ReminderModel>, current: Date) -> Seq<Seq<u8>>
    decreases s.len(),
{
    if s.len() == 0 {
        Seq::empty()
    } else {
        fire_one(s[0], current) + spec_fired(s.drop_first(), current)
    }
}

/// The labels of a sequence of label buffers.
pub open spec fn labels_of(v: Seq<Vec<u8>>) -> Seq<Seq<u8>> {
    Seq::new(v.len(), |i: int| v[i]@)
}

/// Scanning emits entry by entry: appending an entry appends what it fires.
proof fn lemma_fired_push(s: Seq<ReminderModel>, x: ReminderModel, current: Date)
    ensures
        spec_fired(s.push(x), current) == spec_fired(s, current) + fire_one(x, current),
    decreases s.len(),
{
    if s.len() == 0 {
        assert(s.push(x)[0] == x);
        assert(s.push(x).drop_first() =~= Seq::<ReminderModel>::empty());
        assert(spec_fired(Seq::<ReminderModel>::empty(), current) == Seq::<Seq<u8>>::empty());
        assert(spec_fired(s.push(x), current) == fire_one(x, current) + Seq::<Seq<u8>>::empty());
        assert(fire_one(x, current) + Seq::<Seq<u8>>::empty() =~= fire_one(x, current));
        assert(spec_fired(s, current) + fire_one(x, current) =~= fire_one(x, current));
    } else {
        lemma_fired_push(s.drop_first(), x, current);
        assert(s.push(x)[0] == s[0]);
        assert(s.push(x).drop_first() =~= s.drop_first().push(x));
        assert(spec_fired(s.push(x), current) == fire_one(s[0], current) + (spec_fired(
            s.drop_first(),
            current,
        ) + fire_one(x, current)));
        assert(fire_one(s[0], current) + (spec_fired(s.drop_first(), current) + fire_one(
            x,
            current,
        )) =~= (fire_one(s[0], current) + spec_fired(s.drop_first(), current)) + fire_one(
            x,
            current,
        ));
    }
}

/// Where the insertion point lies, the recursive insertion places the new
/// entry: before index `i` every key is smaller, at `i` the first key that
/// is not.
proof fn lemma_insert_at(s: Seq<ReminderModel>, e: ReminderModel, i: int)
    requires
        0 <= i <= s.len(),
        forall|j: int| 0 <= j < i ==> stamped_lt(#[trigger] s[j].key, e.key),
        i < s.len() ==> !stamped_lt(s[i].key, e.key),
    ensures
        spec_insert_entry(s, e) == if i < s.len() && stamped_eq(e.key, s[i].key) {
            s.take(i) + seq![e] + s.skip(i + 1)
        } else {
            s.take(i) + seq![e] + s.skip(i)
        },
    decreases i,
{
    let key = e.key;
    if i == 0 {
        if s.len() == 0 {
            assert(spec_insert_entry(s, e) =~= s.take(0) + seq![e] + s.skip(0));
        } else if stamped_lt(key, s[0].key) {
            assert(seq![e] + s =~= s.take(0) + seq![e] + s.skip(0));
        } else {
            assert(stamped_eq(key, s[0].key));
            assert(seq![e] + s.drop_first() =~= s.take(0) + seq![e] + s.skip(1));
        }
    } else {
        let d = s.drop_first();
        assert(stamped_lt(s[0].key, key));
        assert(forall|j: int| 0 <= j < i - 1 ==> stamped_lt(#[trigger] d[j].key, key));
        lemma_insert_at(d, e, i - 1);
        if i < s.len() && stamped_eq(key, s[i].key) {
            assert(seq![s[0]] + (d.take(i - 1) + seq![e] + d.skip(i)) =~= s.take(i) + seq![e]
                + s.skip(i + 1));
        } else {
            assert(seq![s[0]] + (d.take(i - 1) + seq![e] + d.skip(i - 1)) =~= s.take(i) + seq![e]
                + s.skip(i));
        }
    }
}

/// Where the matching key lies (or that none does), the recursive removal
/// deletes exactly that entry.
proof fn lemma_remove_at(s: Seq<ReminderModel>, key: StampedDate, i: int)
    requires
        0 <= i <= s.len(),
        forall|j: int| 0 <= j < i ==> !stamped_eq(#[trigger] s[j].key, key),
        i < s.len() ==> stamped_eq(s[i].key, key),
    ensures
        spec_remove(s, key) == if i < s.len() {
            s.take(i) + s.skip(i + 1)
        } else {
            s
        },
    decreases i,
{
    if i == 0 {
        if s.len() > 0 && stamped_eq(s[0].key, key) {
            assert(s.drop_first() =~= s.take(0) + s.skip(1));
        }
    } else {
        let d = s.drop_first();
        lemma_remove_at(d, key, i - 1);
        if i < s.len() {
            assert(seq![s[0]] + (d.take(i - 1) + d.skip(i)) =~= s.take(i) + s.skip(i + 1));
        } else {
            assert(seq![s[0]] + d =~= s);
        }
    }
}

impl Reminders {
    /// An empty store.
    pub fn new() -> (s: Reminders)
        ensures
            s@ =~= Seq::<ReminderModel>::empty(),
            store_wf(s@),
    {
        Reminders { entries: Vec::new() }
    }

    /// Number of reminders held.
    pub fn len(&self) -> (n: usize)
        ensures
            n == self@.len(),
    {
        self.entries.len()
    }

    /// The entry at a position, in ascending key order.
    pub fn entry_at(&self, i: usize) -> (r: &Reminder)
        requires
            i < self@.len(),
        ensures
            r@ == self@[i as int],
    {
        &self.entries[i]
    }

    /// Places a whole entry — latch included, as a loaded image carries it —
    /// at its sorted position; an entry with an equal key is overwritten.
    pub fn insert_loaded(&mut self, entry: Reminder) -> (r: ())
        requires
            store_wf(old(self)@),
            date_valid(entry.key.date),
            stamp_wf(entry.key.time),
        ensures
            final(self)@ == spec_insert_entry(old(self)@, entry@),
            store_wf(final(self)@),
    {
        let ghost s0 = self@;
        let ghost e = entry@;
        let key = entry.key;
        let n = self.entries.len();
        let mut i: usize = 0;
        while i < n && self.entries[i].key.key_lt(&key)
            invariant
                i <= n,
                n == self@.len(),
                self@ == s0,
                forall|j: int| 0 <= j < i ==> stamped_lt(#[trigger] s0[j].key, key),
            decreases n - i,
        {
            i = i + 1;
        }
        proof {
            lemma_insert_at(s0, e, i as int);
        }
        if i < n && self.entries[i].key.key_eq(&key) {
            self.entries[i] = entry;
            proof {
                assert(self@ =~= s0.take(i as int) + seq![e] + s0.skip(i as int + 1));
            }
        } else {
            self.entries.insert(i, entry);
            proof {
                assert(self@ =~= s0.take(i as int) + seq![e] + s0.skip(i as int));
            }
        }
        proof {
            let s1 = self@;
            assert forall|p: int, q: int| 0 <= p < q < s1.len() implies stamped_lt(
                #[trigger] s1[p].key,
                #[trigger] s1[q].key,
            ) by {
                assert(forall|j: int|
                    i <= j < s0.len() && !stamped_eq(key, s0[i as int].key) ==> !stamped_lt(
                        (#[trigger] s0[j]).key,
                        key,
                    ));
            }
        }
    }

    /// Places a fresh, untriggered entry at its sorted position; an entry
    /// with an equal key is overwritten.
    pub fn insert_entry(&mut self, key: StampedDate, label: Vec<u8>) -> (r: ())
        requires
            store_wf(old(self)@),
            date_valid(key.date),
            stamp_wf(key.time),
        ensures
            final(self)@ == spec_insert(old(self)@, key, label@),
            store_wf(final(self)@),
    {
        self.insert_loaded(Reminder { key, label, triggered: false });
    }

    /// The user-facing add operation: rejects an interval outside
    /// [1, 108000] simulated days as a no-op; otherwise computes the target
    /// date from the current calendar value, stamps the wall-clock offset,
    /// and stores a fresh entry. Returns whether anything was added.
    pub fn add_reminder(&mut self, now: Stamp, current: Date, label: Vec<u8>, days_ahead: u64)
        -> (added: bool)
        requires
            store_wf(old(self)@),
            date_wf(current),
            stamp_wf(now),
        ensures
            store_wf(final(self)@),
            added <==> 1 <= days_ahead <= 108000,
            !added ==> final(self)@ == old(self)@,
            added ==> final(self)@ == spec_insert(
                old(self)@,
                StampedDate { time: now, date: spec_add_days(current, days_ahead as int) },
                label@,
            ),
    {
        if days_ahead < 1 || days_ahead > 108000 {
            return false;
        }
        let target = current.with_days_added(days_ahead as u32);
        proof {
            lemma_add_days_day_number(current, days_ahead as int);
        }
        self.insert_entry(StampedDate { time: now, date: target }, label);
        true
    }

    /// Deletes the entry with this key, if one is present; absence is not an
    /// error.
    pub fn remove(&mut self, key: StampedDate) -> (r: ())
        requires
            store_wf(old(self)@),
        ensures
            final(self)@ == spec_remove(old(self)@, key),
            store_wf(final(self)@),
    {
        let ghost s0 = self@;
        let n = self.entries.len();
        let mut i: usize = 0;
        while i < n && !self.entries[i].key.key_eq(&key)
            invariant
                i <= n,
                n == self@.len(),
                self@ == s0,
                forall|j: int| 0 <= j < i ==> !stamped_eq(#[trigger] s0[j].key, key),
            decreases n - i,
        {
            i = i + 1;
        }
        proof {
            lemma_remove_at(s0, key, i as int);
        }
        if i < n {
            self.entries.remove(i);
            proof {
                assert(self@ =~= s0.take(i as int) + s0.skip(i as int + 1));
            }
        }
    }

    /// The per-tick scan: flips the latch of every not-yet-triggered entry
    /// whose target date has been reached and returns those labels, in store
    /// order. Entries already triggered are never emitted again.
    pub fn scan_and_trigger(&mut self, current: Date) -> (fired: Vec<Vec<u8>>)
        requires
            store_wf(old(self)@),
        ensures
            final(self)@ == spec_after_scan(old(self)@, current),
            store_wf(final(self)@),
            labels_of(fired@) == spec_fired(old(self)@, current),
    {
        let ghost s0 = self@;
        let mut fired: Vec<Vec<u8>> = Vec::new();
        let n = self.entries.len();
        let mut i: usize = 0;
        while i < n
            invariant
                i <= n,
                n == self@.len(),
                n == s0.len(),
                store_wf(s0),
                forall|j: int| 0 <= j < i ==> self@[j] == scan_model(#[trigger] s0[j], current),
                forall|j: int| i <= j < n ==> self@[j] == #[trigger] s0[j],
                labels_of(fired@) == spec_fired(s0.take(i as int), current),
            decreases n - i,
        {
            let ghost fired_pre = labels_of(fired@);
            let reached = self.entries[i].key.date.le(&current);
            if !self.entries[i].triggered && reached {
                let label = self.entries[i].label.clone();
                proof {
                    assert(label@ =~= s0[i as int].label);
                }
                fired.push(label);
                self.entries[i].triggered = true;
                proof {
                    assert(self@[i as int] == scan_model(s0[i as int], current));
                }
            } else {
                proof {
                    assert(self@[i as int] == s0[i as int]);
                    assert(self@[i as int] == scan_model(s0[i as int], current));
                }
            }
            proof {
                assert(labels_of(fired@) =~= fired_pre + fire_one(s0[i as int], current));
                lemma_fired_push(s0.take(i as int), s0[i as int], current);
                assert(s0.take(i as int).push(s0[i as int]) =~= s0.take(i as int + 1));
            }
            i = i + 1;
        }
        proof {
            assert(s0.take(n as int) =~= s0);
            assert(self@ =~= spec_after_scan(s0, current));
        }
        fired
    }
}

/// The one-shot law: a scan latches every reached entry, so an immediate
/// second scan at the same current date emits nothing, and scanning is
/// idempotent on the store itself.
pub proof fn lemma_trigger_idempotent(s: Seq<ReminderModel>, current: Date)
    ensures
        spec_fired(spec_after_scan(s, current), current) == Seq::<Seq<u8>>::empty(),
        spec_after_scan(spec_after_scan(s, current), current) == spec_after_scan(s, current),
    decreases s.len(),
{
    let m = spec_after_scan(s, current);
    assert(spec_after_scan(m, current) =~= m);
    if s.len() > 0 {
        lemma_trigger_idempotent(s.drop_first(), current);
        assert(m.drop_first() =~= spec_after_scan(s.drop_first(), current));
        assert(fire_one(m[0], current) =~= Seq::<Seq<u8>>::empty());
        assert(spec_fired(m, current) =~= Seq::<Seq<u8>>::empty());
    }
}

/// An entry a scan reached fires in no scan that follows, whatever current
/// date that later scan sees: once emitted, a reminder is never emitted
/// again.
pub proof fn lemma_no_reemission(s: Seq<ReminderModel>, c1: Date, c2: Date)
    ensures
        forall|i: int|
            0 <= i < s.len() && date_le(s[i].key.date, c1) ==> fire_one(
                #[trigger] spec_after_scan(s, c1)[i],
                c2,
            ) == Seq::<Seq<u8>>::empty(),
{
}

} // verus!
