use vstd::prelude::*;
use vstd::std_specs::cmp::PartialEqSpec;

verus! {

/// One subscription slot: a live callback, or the tombstone that a removed
/// subscription leaves so that the indices of the other slots stay put.
#[derive(Copy)]
pub enum SignalType<F> {
    ValidSignal(F),
    InvalidSignal,
}

impl<F: Copy> Clone for SignalType<F> {
    fn clone(&self) -> (r: Self)
        ensures
            r == *self,
    {
        *self
    }
}

/// Error of `set` and `setter`. The value is only reachable through `&mut self`,
/// so no writer can be interrupted half-way and this error is never produced;
/// it keeps the fallible signature of the lock-based design.
#[derive(Clone, Copy, Debug, PartialEq, Eq)]
pub enum LockError {
    Poisoned,
}

/// Whether a slot holds a live callback.
pub open spec fn is_active<F>(s: SignalType<F>) -> bool {
    s is ValidSignal
}

/// The live slots of `s`, in their order.
pub open spec fn live<F>(s: Seq<SignalType<F>>) -> Seq<SignalType<F>>
    decreases s.len(),
{
    if s.len() == 0 {
        Seq::empty()
    } else if is_active(s.last()) {
        live(s.drop_last()).push(s.last())
    } else {
        live(s.drop_last())
    }
}

/// How many tombstones `s` holds.
pub open spec fn tombstones<F>(s: Seq<SignalType<F>>) -> nat
    decreases s.len(),
{
    if s.len() == 0 {
        0
    } else if is_active(s.last()) {
        tombstones(s.drop_last())
    } else {
        tombstones(s.drop_last()) + 1
    }
}

/// What a container is, mathematically: its value and its slots.
pub struct StateModel<T, F> {
    pub value: T,
    pub slots: Seq<SignalType<F>>,
}

impl<T, F> StateModel<T, F> {
    /// Whether `i` is the index of a slot, live or not.
    pub open spec fn holds_slot(self, i: int) -> bool {
        0 <= i < self.slots.len()
    }

    /// Whether slot `i` exists and holds a live callback.
    pub open spec fn active_at(self, i: int) -> bool {
        0 <= i < self.slots.len() && is_active(self.slots[i])
    }

    /// The container after a callback is appended as a new live slot.
    pub open spec fn subscribed(self, f: F) -> Self {
        StateModel { value: self.value, slots: self.slots.push(SignalType::ValidSignal(f)) }
    }

    /// The container after slot `i` is tombstoned.
    pub open spec fn unsubscribed(self, i: int) -> Self {
        StateModel { value: self.value, slots: self.slots.update(i, SignalType::InvalidSignal) }
    }

    /// The container after the slots at `ids` are tombstoned, in that order.
    pub open spec fn unsubscribed_all(self, ids: Seq<int>) -> Self
        decreases ids.len(),
    {
        if ids.len() == 0 {
            self
        } else {
            self.unsubscribed_all(ids.drop_last()).unsubscribed(ids.last())
        }
    }

    /// The container after its tombstones are removed.
    pub open spec fn compacted(self) -> Self {
        StateModel { value: self.value, slots: live(self.slots) }
    }
}

impl<T: PartialEq, F> StateModel<T, F> {
    /// Whether `v` differs from the current value, by the value type's `==`.
    pub open spec fn changes(self, v: T) -> bool {
        !self.value.eq_spec(&v)
    }

    /// The container after `set(v)`: the value is replaced only when `v` differs.
    pub open spec fn after_set(self, v: T) -> Self {
        if self.changes(v) {
            StateModel { value: v, slots: self.slots }
        } else {
            self
        }
    }
}

impl<T, F: Fn(&T)> StateModel<T, F> {
    /// Every live callback accepts every value.
    pub open spec fn wf(self) -> bool {
        forall|i: int| #[trigger] self.active_at(i) ==> accepts_all::<T, F>(self.slots[i]->ValidSignal_0)
    }

    /// Every live callback has run on `v`.
    pub open spec fn notified(self, v: &T) -> bool {
        forall|i: int| #[trigger] self.active_at(i) ==> self.slots[i]->ValidSignal_0.ensures((v,), ())
    }
}

/// A callback that may be called on every value.
pub open spec fn accepts_all<T, F: Fn(&T)>(f: F) -> bool {
    forall|v: &T| #[trigger] f.requires((v,))
}

/// A value of type `T` with an ordered list of subscription slots. Replacing
/// the value by an unequal one runs every live callback on the new value.
///
/// Writers need `&mut self`, so a writer has the container to itself while
/// its callbacks run: `setter` reads and writes in one exclusive borrow, and
/// a callback cannot reach the container to set it again. A handle, returned
/// by `signal`, is itself a container holding the slot's index, or `-1` once
/// it has been used to unsubscribe. Compaction shifts the indices of the
/// slots after each removed tombstone, and handles are not told.
pub struct StateObject<T, F> {
    value: T,
    signals: Vec<SignalType<F>>,
}

impl<T, F> View for StateObject<T, F> {
    type V = StateModel<T, F>;

    closed spec fn view(&self) -> StateModel<T, F> {
        StateModel { value: self.value, slots: self.signals@ }
    }
}

impl<T: Clone + PartialEq, F: Copy> StateObject<T, F> {
    /// A container holding `initial_value`, with no slots.
    pub fn new(initial_value: T) -> (r: Self)
        ensures
            r@.value == initial_value,
            r@.slots == Seq::<SignalType<F>>::empty(),
    {
        StateObject { value: initial_value, signals: Vec::new() }
    }

    /// A container holding a copy of `other`'s current value, with no slots.
    pub fn new_from(other: &Self) -> (r: Self)
        ensures
            cloned(other@.value, r@.value),
            r@.slots == Seq::<SignalType<F>>::empty(),
    {
        Self::new(other.get())
    }

    /// A copy of the current value.
    pub fn get(&self) -> (r: T)
        ensures
            cloned(self@.value, r),
    {
        self.value.clone()
    }
}

impl<T: Clone + PartialEq, F: Fn(&T) + Copy> StateObject<T, F> {
    /// Replaces the value by `new_value` when the two differ, then runs every
    /// live callback, in slot order, on the new value. An equal value leaves
    /// the container as it was and runs nothing.
    pub fn set(&mut self, new_value: T) -> (r: Result<(), LockError>)
        requires
            old(self)@.wf(),
        ensures
            r is Ok,
            final(self)@.slots == old(self)@.slots,
            final(self)@.value == old(self)@.value || final(self)@.value == new_value,
            final(self)@.value != old(self)@.value ==> old(self)@.notified(&new_value),
            T::obeys_eq_spec() ==> final(self)@ == old(self)@.after_set(new_value),
            T::obeys_eq_spec() && old(self)@.changes(new_value) ==> old(self)@.notified(&new_value),
    {
        if self.value != new_value {
            self.value = new_value;
            let n = self.signals.len();
            let mut i: usize = 0;
            while i < n
                invariant
                    n == self.signals@.len(),
                    i <= n,
                    self.value == new_value,
                    self.signals@ == old(self).signals@,
                    old(self)@.wf(),
                    forall|j: int| 0 <= j < i && #[trigger] old(self)@.active_at(j)
                        ==> old(self)@.slots[j]->ValidSignal_0.ensures((&new_value,), ()),
                decreases n - i,
            {
                if let SignalType::ValidSignal(func) = self.signals[i] {
                    assert(old(self)@.active_at(i as int));
                    func(&self.value);
                }
                i = i + 1;
            }
        }
        Ok(())
    }

    /// Sets the value to `fn_setter` applied to a copy of the current value.
    pub fn setter<G: Fn(T) -> T>(&mut self, fn_setter: G) -> (r: Result<(), LockError>)
        requires
            old(self)@.wf(),
            forall|v: T| #[trigger] fn_setter.requires((v,)),
        ensures
            r is Ok,
            final(self)@.slots == old(self)@.slots,
            exists|c: T, n: T|
                {
                    &&& cloned(old(self)@.value, c)
                    &&& #[trigger] fn_setter.ensures((c,), n)
                    &&& (final(self)@.value == old(self)@.value || final(self)@.value == n)
                    &&& (T::obeys_eq_spec() ==> final(self)@ == old(self)@.after_set(n))
                    &&& (T::obeys_eq_spec() && old(self)@.changes(n) ==> old(self)@.notified(&n))
                },
    {
        let value = self.get();
        let next = fn_setter(value);
        self.set(next)
    }

    /// Appends `sign` as a new live slot and returns a handle holding its index.
    pub fn signal(&mut self, sign: F) -> (r: StateObject<isize, F>)
        requires
            old(self)@.slots.len() < isize::MAX,
        ensures
            final(self)@ == old(self)@.subscribed(sign),
            r@.value == old(self)@.slots.len(),
            r@.slots == Seq::<SignalType<F>>::empty(),
    {
        self.signals.push(SignalType::ValidSignal(sign));
        StateObject { value: (self.signals.len() - 1) as isize, signals: Vec::new() }
    }

    /// Tombstones the slot that `id` holds the index of and sets `id` to `-1`,
    /// when that index is a slot of this container; otherwise changes nothing.
    /// The value of `id` is written directly: callbacks subscribed to a handle
    /// are not run. A clone of `id` taken earlier keeps the old index.
    pub fn rm_signal(&mut self, id: &mut StateObject<isize, F>) -> (r: bool)
        ensures
            r == old(self)@.holds_slot(old(id)@.value as int),
            r ==> final(self)@ == old(self)@.unsubscribed(old(id)@.value as int),
            r ==> final(id)@ == (StateModel { value: -1isize, slots: old(id)@.slots }),
            !r ==> final(self)@ == old(self)@ && final(id)@ == old(id)@,
    {
        let index = id.value;
        if 0 <= index && (index as usize) < self.signals.len() {
            self.signals.set(index as usize, SignalType::InvalidSignal);
            id.value = -1;
            true
        } else {
            false
        }
    }

    /// Removes every tombstone, keeping the live slots in order, and returns
    /// how many were removed. Handles taken before this call may no longer
    /// hold the index of their slot.
    pub fn flush_signals(&mut self) -> (r: u32)
        requires
            tombstones(old(self)@.slots) <= u32::MAX,
        ensures
            final(self)@ == old(self)@.compacted(),
            r == tombstones(old(self)@.slots),
    {
        let mut count: u32 = 0;
        let mut kept: Vec<SignalType<F>> = Vec::new();
        let n = self.signals.len();
        let mut i: usize = 0;
        while i < n
            invariant
                n == self.signals@.len(),
                i <= n,
                self.signals@ == old(self).signals@,
                self.value == old(self).value,
                tombstones(old(self)@.slots) <= u32::MAX,
                kept@ == live(self.signals@.take(i as int)),
                count == tombstones(self.signals@.take(i as int)),
            decreases n - i,
        {
            let s = self.signals[i];
            proof {
                let t = self.signals@.take(i as int + 1);
                assert(t.drop_last() =~= self.signals@.take(i as int));
                lemma_tombstones_prefix(self.signals@, i as int + 1);
            }
            match s {
                SignalType::ValidSignal(_) => {
                    kept.push(s);
                },
                SignalType::InvalidSignal => {
                    count = count + 1;
                },
            }
            i = i + 1;
        }
        assert(self.signals@.take(n as int) =~= self.signals@);
        self.signals = kept;
        count
    }
}

/// A prefix holds no more tombstones than the whole.
proof fn lemma_tombstones_prefix<F>(s: Seq<SignalType<F>>, k: int)
    requires
        0 <= k <= s.len(),
    ensures
        tombstones(s.take(k)) <= tombstones(s),
    decreases s.len() - k,
{
    if k < s.len() {
        lemma_tombstones_prefix(s, k + 1);
        assert(s.take(k + 1).drop_last() =~= s.take(k));
    } else {
        assert(s.take(k) =~= s);
    }
}

/// Tombstoning a live slot adds exactly one tombstone.
proof fn lemma_tombstone_one<F>(s: Seq<SignalType<F>>, i: int)
    requires
        0 <= i < s.len(),
        is_active(s[i]),
    ensures
        tombstones(s.update(i, SignalType::InvalidSignal)) == tombstones(s) + 1,
    decreases s.len(),
{
    let u = s.update(i, SignalType::InvalidSignal);
    if i == s.len() - 1 {
        assert(u.drop_last() =~= s.drop_last());
    } else {
        lemma_tombstone_one(s.drop_last(), i);
        assert(u.drop_last() =~= s.drop_last().update(i, SignalType::InvalidSignal));
    }
}

/// Every slot that compaction keeps is live and comes from the original slots.
pub proof fn lemma_live_from<F>(s: Seq<SignalType<F>>)
    ensures
        live(s).len() + tombstones(s) == s.len(),
        forall|j: int|
            0 <= j < live(s).len() ==> is_active(#[trigger] live(s)[j])
                && exists|i: int| 0 <= i < s.len() && s[i] == live(s)[j],
    decreases s.len(),
{
    if s.len() > 0 {
        let p = s.drop_last();
        lemma_live_from(p);
        assert forall|j: int| 0 <= j < live(s).len() implies is_active(#[trigger] live(s)[j])
            && exists|i: int| 0 <= i < s.len() && s[i] == live(s)[j] by {
            if j < live(p).len() {
                let i = choose|i: int| 0 <= i < p.len() && p[i] == live(p)[j];
                assert(s[i] == live(s)[j]);
            } else {
                assert(s[s.len() - 1] == live(s)[j]);
            }
        }
    }
}

/// Subscribing a callback and at once unsubscribing it through the handle
/// that subscribing returned: the handle's index is a slot of the container,
/// so unsubscribing succeeds; that slot is then a tombstone, so no later
/// `set` runs the callback; and the live slots are those from before.
pub proof fn lemma_subscribe_then_unsubscribe<T, F>(m: StateModel<T, F>, f: F)
    ensures
        m.subscribed(f).holds_slot(m.slots.len() as int),
        !m.subscribed(f).unsubscribed(m.slots.len() as int).active_at(m.slots.len() as int),
        m.subscribed(f).unsubscribed(m.slots.len() as int) == (StateModel {
            value: m.value,
            slots: m.slots.push(SignalType::InvalidSignal),
        }),
        m.subscribed(f).unsubscribed(m.slots.len() as int).compacted() == m.compacted(),
{
    let u = m.subscribed(f).unsubscribed(m.slots.len() as int);
    assert(u.slots =~= m.slots.push(SignalType::InvalidSignal));
    assert(u.slots.drop_last() =~= m.slots);
}

/// Tombstoning `k` distinct live slots and then compacting removes exactly
/// `k` slots more than were tombstones before (so exactly `k` when there were
/// none), and every slot left is live; when every callback accepted every
/// value, so does every one left, so the next changing `set` runs them all.
pub proof fn lemma_compaction_count<T, F: Fn(&T)>(m: StateModel<T, F>, ids: Seq<int>)
    requires
        ids.no_duplicates(),
        forall|j: int| 0 <= j < ids.len() ==> m.active_at(#[trigger] ids[j]),
    ensures
        tombstones(m.unsubscribed_all(ids).slots) == tombstones(m.slots) + ids.len(),
        tombstones(m.slots) == 0 ==> tombstones(m.unsubscribed_all(ids).slots) == ids.len(),
        m.unsubscribed_all(ids).compacted().slots.len() == m.slots.len() - tombstones(m.slots) - ids.len(),
        forall|j: int| 0 <= j < m.unsubscribed_all(ids).compacted().slots.len()
            ==> #[trigger] m.unsubscribed_all(ids).compacted().active_at(j),
        m.wf() ==> m.unsubscribed_all(ids).compacted().wf(),
    decreases ids.len(),
{
    let a = m.unsubscribed_all(ids);
    lemma_unsubscribed_all_frame(m, ids);
    lemma_tombstones_count(m, ids);
    lemma_live_from(a.slots);
    let c = a.compacted();
    assert forall|j: int| 0 <= j < c.slots.len() implies #[trigger] c.active_at(j) by {
        assert(is_active(live(a.slots)[j]));
    }
    if m.wf() {
        assert forall|j: int| #[trigger] c.active_at(j) implies accepts_all::<T, F>(c.slots[j]->ValidSignal_0) by {
            let i = choose|i: int| 0 <= i < a.slots.len() && a.slots[i] == live(a.slots)[j];
            if ids.contains(i) {
                let k = choose|k: int| 0 <= k < ids.len() && ids[k] == i;
            } else {
                assert(m.active_at(i));
            }
        }
    }
}

/// Tombstoning slots keeps the length and leaves the other slots alone;
/// the slots at `ids` become tombstones.
proof fn lemma_unsubscribed_all_frame<T, F>(m: StateModel<T, F>, ids: Seq<int>)
    requires
        forall|j: int| 0 <= j < ids.len() ==> 0 <= #[trigger] ids[j] < m.slots.len(),
    ensures
        m.unsubscribed_all(ids).value == m.value,
        m.unsubscribed_all(ids).slots.len() == m.slots.len(),
        forall|i: int| 0 <= i < m.slots.len() && !ids.contains(i)
            ==> #[trigger] m.unsubscribed_all(ids).slots[i] == m.slots[i],
        forall|i: int| 0 <= i < m.slots.len() && ids.contains(i)
            ==> !is_active(#[trigger] m.unsubscribed_all(ids).slots[i]),
    decreases ids.len(),
{
    if ids.len() > 0 {
        let p = ids.drop_last();
        assert forall|j: int| 0 <= j < p.len() implies 0 <= #[trigger] p[j] < m.slots.len() by {
            assert(p[j] == ids[j]);
        }
        lemma_unsubscribed_all_frame(m, p);
        assert forall|i: int| 0 <= i < m.slots.len() && ids.contains(i) && i != ids.last()
            implies p.contains(i) by {
            let k = choose|k: int| 0 <= k < ids.len() && ids[k] == i;
            assert(p[k] == i);
        }
        assert forall|i: int| 0 <= i < m.slots.len() && p.contains(i) implies ids.contains(i) by {
            let k = choose|k: int| 0 <= k < p.len() && p[k] == i;
            assert(ids[k] == i);
        }
    }
}

/// Tombstoning distinct live slots adds one tombstone each.
proof fn lemma_tombstones_count<T, F>(m: StateModel<T, F>, ids: Seq<int>)
    requires
        ids.no_duplicates(),
        forall|j: int| 0 <= j < ids.len() ==> m.active_at(#[trigger] ids[j]),
    ensures
        tombstones(m.unsubscribed_all(ids).slots) == tombstones(m.slots) + ids.len(),
    decreases ids.len(),
{
    if ids.len() > 0 {
        let p = ids.drop_last();
        assert forall|j: int| 0 <= j < p.len() implies m.active_at(#[trigger] p[j]) by {
            assert(p[j] == ids[j]);
        }
        assert forall|j: int| 0 <= j < ids.len() implies 0 <= #[trigger] ids[j] < m.slots.len() by {
            assert(m.active_at(ids[j]));
        }
        assert forall|j: int| 0 <= j < p.len() implies 0 <= #[trigger] p[j] < m.slots.len() by {
            assert(p[j] == ids[j]);
        }
        lemma_tombstones_count(m, p);
        lemma_unsubscribed_all_frame(m, p);
        let last = ids.last();
        assert(!p.contains(last)) by {
            if p.contains(last) {
                let k = choose|k: int| 0 <= k < p.len() && p[k] == last;
                assert(ids[k] == ids[ids.len() - 1]);
            }
        }
        assert(m.active_at(ids[ids.len() - 1]));
        lemma_tombstone_one(m.unsubscribed_all(p).slots, last);
    }
}

impl<T: Clone + PartialEq, F: Copy> Clone for StateObject<T, F> {
    /// A container with a copy of the value and the same slots, tombstones
    /// included, so that indices agree; the two share nothing afterwards.
    fn clone(&self) -> (r: Self)
        ensures
            cloned(self@.value, r@.value),
            r@.slots == self@.slots,
    {
        let v = self.get();
        let mut this = StateObject::new(v);
        let n = self.signals.len();
        let mut i: usize = 0;
        while i < n
            invariant
                n == self.signals@.len(),
                i <= n,
                cloned(self@.value, this.value),
                this.signals@ == self.signals@.take(i as int),
            decreases n - i,
        {
            match self.signals[i] {
                SignalType::ValidSignal(func) => {
                    this.signals.push(SignalType::ValidSignal(func));
                },
                SignalType::InvalidSignal => {
                    this.signals.push(SignalType::InvalidSignal);
                },
            }
            assert(this.signals@ =~= self.signals@.take(i as int + 1));
            i = i + 1;
        }
        assert(self.signals@.take(n as int) =~= self.signals@);
        this
    }
}

/// Runs `callback` once on `T`'s default value, then subscribes it to every
/// container of `depends`.
pub fn effect<T: Default + Clone + PartialEq, F: Fn(&T) + Copy>(
    callback: F,
    depends: Vec<&mut StateObject<T, F>>,
)
    requires
        accepts_all::<T, F>(callback),
        forall|i: int| 0 <= i < depends@.len() ==> (*#[trigger] depends@[i])@.slots.len() < isize::MAX,
    ensures
        exists|d: T| #[trigger] T::default.ensures((), d) && callback.ensures((&d,), ()),
        forall|i: int| 0 <= i < depends@.len() ==> (*final(#[trigger] depends@[i]))@ == (*depends@[i])@.subscribed(callback),
{
    let d = T::default();
    callback(&d);
    let mut rest = depends;
    while rest.len() > 0
        invariant
            rest@.len() <= depends@.len(),
            forall|i: int| 0 <= i < rest@.len() ==> #[trigger] rest@[i] == depends@[i],
            forall|i: int| 0 <= i < depends@.len() ==> (*#[trigger] depends@[i])@.slots.len() < isize::MAX,
            forall|i: int| rest@.len() <= i < depends@.len() ==> (*final(#[trigger] depends@[i]))@ == (*depends@[i])@.subscribed(callback),
        decreases rest.len(),
    {
        let s = rest.pop().unwrap();
        s.signal(callback);
    }
}

/// A new container holding `initial_value`, with no slots.
pub fn use_state<T: Clone + PartialEq, F: Copy>(initial_value: T) -> (r: StateObject<T, F>)
    ensures
        r@.value == initial_value,
        r@.slots == Seq::<SignalType<F>>::empty(),
{
    StateObject::new(initial_value)
}

} // verus!
