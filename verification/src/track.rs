//! Resource usage tracking and minimal barrier computation.
//!
//! The device holds one [`Tracker`]: the current hardware usage state of
//! every live buffer. Each command buffer records its uses in a
//! [`UsageScope`]; before submission the scope is optimized into one
//! (entry state, exit state) pair per resource, and stitching the command
//! buffer emits exactly the barriers needed to move each resource from the
//! device's current state into the command buffer's entry state.

use vstd::prelude::*;
use crate::storage::Storage;

verus! {

/// Usage state: no use recorded yet.
pub const USE_EMPTY: u32 = 0;

/// Usage state: host-mapped for reading.
pub const USE_MAP_READ: u32 = 1;

/// Usage state: host-mapped for writing.
pub const USE_MAP_WRITE: u32 = 2;

/// Usage state: source of a copy command.
pub const USE_COPY_SRC: u32 = 4;

/// Usage state: destination of a copy command.
pub const USE_COPY_DST: u32 = 8;

/// Usage state: bound as an index buffer.
pub const USE_INDEX: u32 = 16;

/// Usage state: bound as a vertex buffer.
pub const USE_VERTEX: u32 = 32;

/// Usage state: bound as a uniform buffer.
pub const USE_UNIFORM: u32 = 64;

/// Usage state: shader storage, read only.
pub const USE_STORAGE_LOAD: u32 = 128;

/// Usage state: shader storage, read and write.
pub const USE_STORAGE_STORE: u32 = 256;

/// One synchronization directive: all work using resource `id` in
/// `from_state` must complete before work using it in `to_state` begins.
#[derive(Debug, Clone, Copy, PartialEq, Eq, Structural)]
pub struct Barrier {
    pub id: u64,
    pub from_state: u32,
    pub to_state: u32,
}

/// Device-wide table of the current usage state of each tracked resource.
pub struct Tracker {
    pub states: Storage<u32>,
}

impl Tracker {
    pub open spec fn wf(self) -> bool {
        self.states.wf()
    }

    pub open spec fn is_tracked(self, id: u64) -> bool {
        self.states@.contains_key(id)
    }

    pub open spec fn state_of(self, id: u64) -> u32 {
        self.states@[id]
    }

    pub fn new() -> (r: Tracker)
        ensures
            r.wf(),
            r.states@ == Map::<u64, u32>::empty(),
    {
        Tracker { states: Storage::new() }
    }

    /// Starts tracking a freshly created resource in `state`.
    pub fn start_tracking(&mut self, id: u64, state: u32)
        requires
            old(self).wf(),
            !old(self).is_tracked(id),
        ensures
            final(self).wf(),
            final(self).states@ == old(self).states@.insert(id, state),
    {
        self.states.insert(id, state);
    }

    /// Stops tracking a destroyed resource.
    pub fn untrack(&mut self, id: u64)
        requires
            old(self).wf(),
            old(self).is_tracked(id),
        ensures
            final(self).wf(),
            final(self).states@ == old(self).states@.remove(id),
    {
        self.states.remove(id);
    }

    /// Replaces the tracked state of `id` by `new_state`; returns the
    /// transition (old state, new state) exactly when the state changes,
    /// and no transition otherwise.
    pub fn use_replace(&mut self, id: u64, new_state: u32) -> (t: Option<(u32, u32)>)
        requires
            old(self).wf(),
            old(self).is_tracked(id),
        ensures
            final(self).wf(),
            final(self).states@ == old(self).states@.insert(id, new_state),
            t == (if old(self).state_of(id) == new_state {
                None::<(u32, u32)>
            } else {
                Some((old(self).state_of(id), new_state))
            }),
    {
        let cur: u32 = *self.states.get(id).unwrap();
        if cur == new_state {
            proof {
                assert(old(self).states@.insert(id, new_state) =~= old(self).states@);
            }
            None
        } else {
            let s = self.states.get_mut(id);
            *s = new_state;
            Some((cur, new_state))
        }
    }
}

/// Whether some recorded use in `s` touches resource `id`.
pub open spec fn uses_id(s: Seq<(u64, u32)>, id: u64) -> bool {
    exists|k: int| 0 <= k < s.len() && s[k].0 == id
}

/// The state of the first recorded use of `id` in `s`.
pub open spec fn first_state_of(s: Seq<(u64, u32)>, id: u64) -> u32
    decreases s.len(),
{
    if s.len() == 0 {
        USE_EMPTY
    } else if s.first().0 == id {
        s.first().1
    } else {
        first_state_of(s.drop_first(), id)
    }
}

/// The state of the last recorded use of `id` in `s`.
pub open spec fn last_state_of(s: Seq<(u64, u32)>, id: u64) -> u32
    decreases s.len(),
{
    if s.len() == 0 {
        USE_EMPTY
    } else if s.last().0 == id {
        s.last().1
    } else {
        last_state_of(s.drop_last(), id)
    }
}

pub proof fn lemma_uses_id_push(s: Seq<(u64, u32)>, p: (u64, u32), id: u64)
    ensures
        uses_id(s.push(p), id) == (uses_id(s, id) || p.0 == id),
{
    if uses_id(s, id) {
        let k = choose|k: int| 0 <= k < s.len() && s[k].0 == id;
        assert(s.push(p)[k].0 == id);
    }
    if p.0 == id {
        assert(s.push(p)[s.len() as int].0 == id);
    }
    if uses_id(s.push(p), id) {
        let k = choose|k: int| 0 <= k < s.push(p).len() && s.push(p)[k].0 == id;
        if k < s.len() {
            assert(s[k].0 == id);
        }
    }
}

pub proof fn lemma_first_state_push(s: Seq<(u64, u32)>, p: (u64, u32), id: u64)
    ensures
        first_state_of(s.push(p), id) == (if uses_id(s, id) {
            first_state_of(s, id)
        } else if p.0 == id {
            p.1
        } else {
            USE_EMPTY
        }),
    decreases s.len(),
{
    lemma_uses_id_push(s, p, id);
    if s.len() == 0 {
        assert(s.push(p).first() == p);
        assert(s.push(p).drop_first() =~= Seq::<(u64, u32)>::empty());
        assert(first_state_of(Seq::<(u64, u32)>::empty(), id) == USE_EMPTY);
    } else {
        assert(s.push(p).first() == s.first());
        assert(s.push(p).drop_first() =~= s.drop_first().push(p));
        lemma_first_state_push(s.drop_first(), p, id);
        if s.first().0 == id {
            assert(uses_id(s, id)) by {
                assert(s[0].0 == id);
            }
        }
        if s.first().0 != id {
            lemma_uses_id_push(s.drop_first(), p, id);
            if uses_id(s, id) {
                let k = choose|k: int| 0 <= k < s.len() && s[k].0 == id;
                assert(s.drop_first()[k - 1].0 == id);
                assert(uses_id(s.drop_first(), id));
            }
            if uses_id(s.drop_first(), id) {
                let k = choose|k: int| 0 <= k < s.drop_first().len() && s.drop_first()[k].0 == id;
                assert(s[k + 1].0 == id);
            }
        }
    }
}

pub proof fn lemma_last_state_push(s: Seq<(u64, u32)>, p: (u64, u32), id: u64)
    ensures
        last_state_of(s.push(p), id) == (if p.0 == id {
            p.1
        } else {
            last_state_of(s, id)
        }),
{
    assert(s.push(p).drop_last() =~= s);
    assert(s.push(p).last() == p);
}

/// Whether the optimized scope `r` has an entry for resource `id`.
pub open spec fn opt_has(r: Seq<(u64, u32, u32)>, id: u64) -> bool {
    exists|i: int| 0 <= i < r.len() && r[i].0 == id
}

pub proof fn lemma_opt_has_update(r: Seq<(u64, u32, u32)>, j: int, e: (u64, u32, u32), id: u64)
    requires
        0 <= j < r.len(),
        e.0 == r[j].0,
    ensures
        opt_has(r.update(j, e), id) == opt_has(r, id),
{
    if opt_has(r, id) {
        let k = choose|k: int| 0 <= k < r.len() && r[k].0 == id;
        assert(r.update(j, e)[k].0 == id);
    }
    if opt_has(r.update(j, e), id) {
        let k = choose|k: int| 0 <= k < r.len() && r.update(j, e)[k].0 == id;
        assert(r[k].0 == id);
    }
}

pub proof fn lemma_opt_has_push(r: Seq<(u64, u32, u32)>, e: (u64, u32, u32), id: u64)
    ensures
        opt_has(r.push(e), id) == (opt_has(r, id) || e.0 == id),
{
    if opt_has(r, id) {
        let k = choose|k: int| 0 <= k < r.len() && r[k].0 == id;
        assert(r.push(e)[k].0 == id);
    }
    if e.0 == id {
        assert(r.push(e)[r.len() as int].0 == id);
    }
    if opt_has(r.push(e), id) {
        let k = choose|k: int| 0 <= k < r.push(e).len() && r.push(e)[k].0 == id;
        if k < r.len() {
            assert(r[k].0 == id);
        }
    }
}

/// Uses of resources recorded, in order, while one command buffer was
/// recorded. The same resource may appear many times.
pub struct UsageScope {
    pub uses: Vec<(u64, u32)>,
}

impl UsageScope {
    pub fn new() -> (r: UsageScope)
        ensures
            r.uses@ == Seq::<(u64, u32)>::empty(),
    {
        UsageScope { uses: Vec::new() }
    }

    /// Records one use of `id` in `state`.
    pub fn record(&mut self, id: u64, state: u32)
        ensures
            final(self).uses@ == old(self).uses@.push((id, state)),
    {
        self.uses.push((id, state));
    }

    fn find_opt(r: &Vec<(u64, u32, u32)>, id: u64) -> (res: Option<usize>)
        ensures
            match res {
                Some(i) => i < r@.len() && r@[i as int].0 == id,
                None => forall|k: int| 0 <= k < r@.len() ==> r@[k].0 != id,
            },
    {
        let mut i: usize = 0;
        while i < r.len()
            invariant
                i <= r@.len(),
                forall|k: int| 0 <= k < i ==> r@[k].0 != id,
            decreases r@.len() - i,
        {
            if r[i].0 == id {
                return Some(i);
            }
            i = i + 1;
        }
        None
    }

    /// Coalesces the recorded intermediate uses into the minimal entry/exit
    /// state pair per resource: for each resource touched, the state of its
    /// first recorded use and the state of its last recorded use.
    pub fn optimize(&self) -> (r: Vec<(u64, u32, u32)>)
        ensures
            forall|i: int, j: int| 0 <= i < j < r@.len() ==> r@[i].0 != r@[j].0,
            forall|id: u64| opt_has(r@, id) == uses_id(self.uses@, id),
            forall|i: int|
                0 <= i < r@.len() ==> r@[i].1 == first_state_of(self.uses@, r@[i].0) && r@[i].2
                    == last_state_of(self.uses@, r@[i].0),
    {
        let mut r: Vec<(u64, u32, u32)> = Vec::new();
        let mut k: usize = 0;
        while k < self.uses.len()
            invariant
                k <= self.uses@.len(),
                forall|i: int, j: int| 0 <= i < j < r@.len() ==> r@[i].0 != r@[j].0,
                forall|id: u64| opt_has(r@, id) == uses_id(self.uses@.take(k as int), id),
                forall|i: int|
                    0 <= i < r@.len() ==> r@[i].1 == first_state_of(
                        self.uses@.take(k as int),
                        r@[i].0,
                    ) && r@[i].2 == last_state_of(self.uses@.take(k as int), r@[i].0),
            decreases self.uses@.len() - k,
        {
            let p = self.uses[k];
            proof {
                assert(self.uses@.take(k as int + 1) =~= self.uses@.take(k as int).push(p));
            }
            let ghost prefix = self.uses@.take(k as int);
            match Self::find_opt(&r, p.0) {
                Some(j) => {
                    let entry = r[j].1;
                    let ghost r_old = r@;
                    r.set(j, (p.0, entry, p.1));
                    proof {
                        assert(opt_has(r_old, p.0)) by {
                            assert(r_old[j as int].0 == p.0);
                        }
                        assert forall|id: u64|
                            opt_has(r@, id) == uses_id(prefix.push(p), id) by {
                            lemma_opt_has_update(r_old, j as int, (p.0, entry, p.1), id);
                            lemma_uses_id_push(prefix, p, id);
                        }
                        assert forall|i: int|
                            0 <= i < r@.len() implies r@[i].1 == first_state_of(
                            prefix.push(p),
                            r@[i].0,
                        ) && r@[i].2 == last_state_of(prefix.push(p), r@[i].0) by {
                            lemma_first_state_push(prefix, p, r@[i].0);
                            lemma_last_state_push(prefix, p, r@[i].0);
                            if i != j {
                                assert(r@[i] == r_old[i]);
                                assert(r@[i].0 != p.0);
                                assert(opt_has(r_old, r@[i].0)) by {
                                    assert(r_old[i].0 == r@[i].0);
                                }
                                assert(uses_id(prefix, r@[i].0));
                                assert(r_old[i].1 == first_state_of(prefix, r_old[i].0));
                            } else {
                                assert(r@[i] == (p.0, entry, p.1));
                                assert(r_old[j as int].0 == p.0);
                                assert(uses_id(prefix, p.0));
                                assert(entry == first_state_of(prefix, p.0));
                            }
                        }
                    }
                }
                None => {
                    let ghost r_old = r@;
                    r.push((p.0, p.1, p.1));
                    proof {
                        assert(!opt_has(r_old, p.0));
                        assert(!uses_id(prefix, p.0));
                        assert forall|id: u64|
                            opt_has(r@, id) == uses_id(prefix.push(p), id) by {
                            lemma_opt_has_push(r_old, (p.0, p.1, p.1), id);
                            lemma_uses_id_push(prefix, p, id);
                        }
                        assert forall|i: int|
                            0 <= i < r@.len() implies r@[i].1 == first_state_of(
                            prefix.push(p),
                            r@[i].0,
                        ) && r@[i].2 == last_state_of(prefix.push(p), r@[i].0) by {
                            lemma_first_state_push(prefix, p, r@[i].0);
                            lemma_last_state_push(prefix, p, r@[i].0);
                            if i < r_old.len() {
                                assert(r@[i] == r_old[i]);
                                assert(!opt_has(r_old, p.0));
                                assert(r@[i].0 != p.0) by {
                                    if r@[i].0 == p.0 {
                                        assert(r_old[i].0 == p.0);
                                    }
                                }
                                assert(opt_has(r_old, r@[i].0)) by {
                                    assert(r_old[i].0 == r@[i].0);
                                }
                                assert(uses_id(prefix, r@[i].0));
                                assert(r_old[i].1 == first_state_of(prefix, r_old[i].0));
                            } else {
                                assert(r@[i] == (p.0, p.1, p.1));
                                assert(!uses_id(prefix, p.0));
                            }
                        }
                    }
                }
            }
            k = k + 1;
        }
        proof {
            assert(self.uses@.take(k as int) =~= self.uses@);
        }
        r
    }

    /// The distinct resources this scope touches, in order of first use.
    pub fn used(&self) -> (r: Vec<u64>)
        ensures
            forall|i: int, j: int| 0 <= i < j < r@.len() ==> r@[i] != r@[j],
            forall|id: u64| r@.contains(id) == uses_id(self.uses@, id),
    {
        let opt = self.optimize();
        let mut r: Vec<u64> = Vec::new();
        let mut i: usize = 0;
        while i < opt.len()
            invariant
                i <= opt@.len(),
                r@.len() == i,
                forall|k: int| 0 <= k < i ==> r@[k] == opt@[k].0,
                forall|i2: int, j2: int| 0 <= i2 < j2 < opt@.len() ==> opt@[i2].0 != opt@[j2].0,
                forall|id: u64| opt_has(opt@, id) == uses_id(self.uses@, id),
            decreases opt@.len() - i,
        {
            r.push(opt[i].0);
            i = i + 1;
        }
        proof {
            assert forall|id: u64| r@.contains(id) == uses_id(self.uses@, id) by {
                if r@.contains(id) {
                    let k = choose|k: int| 0 <= k < r@.len() && r@[k] == id;
                    assert(opt@[k].0 == id);
                    assert(opt_has(opt@, id));
                }
                if uses_id(self.uses@, id) {
                    assert(opt_has(opt@, id));
                    let k = choose|k: int| 0 <= k < opt@.len() && opt@[k].0 == id;
                    assert(r@[k] == opt@[k].0);
                    assert(r@[k] == id);
                    assert(r@.contains(id));
                }
            }
        }
        r
    }
}

/// The barriers required to move each resource of the optimized scope `opt`
/// from its device-tracked state in `states` into the scope's entry state:
/// exactly one barrier per resource whose states differ, none otherwise.
pub open spec fn barriers_of(states: Map<u64, u32>, opt: Seq<(u64, u32, u32)>) -> Seq<Barrier>
    decreases opt.len(),
{
    if opt.len() == 0 {
        Seq::empty()
    } else {
        let head = opt.first();
        let rest = barriers_of(states, opt.drop_first());
        if states[head.0] != head.1 {
            seq![(Barrier { id: head.0, from_state: states[head.0], to_state: head.1 })] + rest
        } else {
            rest
        }
    }
}

/// The device-tracked states after the scope `opt` has executed: every
/// resource of the scope ends in its exit state.
pub open spec fn states_after(states: Map<u64, u32>, opt: Seq<(u64, u32, u32)>) -> Map<u64, u32>
    decreases opt.len(),
{
    if opt.len() == 0 {
        states
    } else {
        states_after(states.insert(opt.first().0, opt.first().2), opt.drop_first())
    }
}

pub proof fn lemma_barriers_of_push(states: Map<u64, u32>, opt: Seq<(u64, u32, u32)>, e: (u64, u32, u32))
    ensures
        barriers_of(states, opt.push(e)) == barriers_of(states, opt) + (if states[e.0] != e.1 {
            seq![(Barrier { id: e.0, from_state: states[e.0], to_state: e.1 })]
        } else {
            Seq::<Barrier>::empty()
        }),
    decreases opt.len(),
{
    let tail = (if states[e.0] != e.1 {
        seq![(Barrier { id: e.0, from_state: states[e.0], to_state: e.1 })]
    } else {
        Seq::<Barrier>::empty()
    });
    if opt.len() == 0 {
        assert(opt.push(e).first() == e);
        assert(opt.push(e).drop_first() =~= Seq::<(u64, u32, u32)>::empty());
        assert(barriers_of(states, Seq::<(u64, u32, u32)>::empty()) =~= Seq::<Barrier>::empty());
        assert(barriers_of(states, opt.push(e)) =~= tail);
        assert(barriers_of(states, opt.push(e)) =~= barriers_of(states, opt) + tail);
    } else {
        let head = opt.first();
        let hb = (if states[head.0] != head.1 {
            seq![(Barrier { id: head.0, from_state: states[head.0], to_state: head.1 })]
        } else {
            Seq::<Barrier>::empty()
        });
        assert(opt.push(e).first() == opt.first());
        assert(opt.push(e).drop_first() =~= opt.drop_first().push(e));
        lemma_barriers_of_push(states, opt.drop_first(), e);
        assert(barriers_of(states, opt.push(e)) == hb + barriers_of(states, opt.drop_first().push(e)));
        assert(barriers_of(states, opt.drop_first().push(e)) == barriers_of(
            states,
            opt.drop_first(),
        ) + tail);
        assert(barriers_of(states, opt) == hb + barriers_of(states, opt.drop_first()));
        assert(hb + (barriers_of(states, opt.drop_first()) + tail) =~= (hb + barriers_of(
            states,
            opt.drop_first(),
        )) + tail);
        assert(barriers_of(states, opt.push(e)) =~= barriers_of(states, opt) + tail);
    }
}

pub proof fn lemma_states_after_push(states: Map<u64, u32>, opt: Seq<(u64, u32, u32)>, e: (u64, u32, u32))
    ensures
        states_after(states, opt.push(e)) == states_after(states, opt).insert(e.0, e.2),
    decreases opt.len(),
{
    if opt.len() == 0 {
        assert(opt.push(e).first() == e);
        assert(opt.push(e).drop_first() =~= Seq::<(u64, u32, u32)>::empty());
        assert(states_after(states.insert(e.0, e.2), Seq::<(u64, u32, u32)>::empty())
            == states.insert(e.0, e.2));
        assert(states_after(states, opt.push(e)) == states.insert(e.0, e.2));
    } else {
        let m = states.insert(opt.first().0, opt.first().2);
        assert(opt.push(e).first() == opt.first());
        assert(opt.push(e).drop_first() =~= opt.drop_first().push(e));
        lemma_states_after_push(m, opt.drop_first(), e);
        assert(states_after(states, opt.push(e)) == states_after(m, opt.drop_first().push(e)));
        assert(states_after(m, opt.drop_first().push(e)) == states_after(m, opt.drop_first()).insert(
            e.0,
            e.2,
        ));
        assert(states_after(states, opt) == states_after(m, opt.drop_first()));
    }
}

/// Barrier minimality: a resource that the device already holds in the entry
/// state its scope expects gets no barrier at all. In particular, two
/// consecutive command buffers that leave a resource in the same usage state
/// produce zero barriers between them for that resource.
pub proof fn lemma_no_barrier_when_state_matches(
    states: Map<u64, u32>,
    opt: Seq<(u64, u32, u32)>,
    id: u64,
)
    requires
        forall|i: int| 0 <= i < opt.len() && opt[i].0 == id ==> states[id] == opt[i].1,
    ensures
        forall|j: int| 0 <= j < barriers_of(states, opt).len() ==> barriers_of(states, opt)[j].id
            != id,
    decreases opt.len(),
{
    if opt.len() > 0 {
        let head = opt.first();
        let rest = barriers_of(states, opt.drop_first());
        assert(opt[0] == opt.first());
        assert forall|i: int| 0 <= i < opt.drop_first().len() && opt.drop_first()[i].0 == id implies states[id]
            == opt.drop_first()[i].1 by {
            assert(opt.drop_first()[i] == opt[i + 1]);
        }
        lemma_no_barrier_when_state_matches(states, opt.drop_first(), id);
        assert forall|j: int| 0 <= j < barriers_of(states, opt).len() implies barriers_of(
            states,
            opt,
        )[j].id != id by {
            if states[head.0] != head.1 {
                let hb = seq![(Barrier { id: head.0, from_state: states[head.0], to_state: head.1 })];
                assert(barriers_of(states, opt) == hb + rest);
                if j == 0 {
                    assert(barriers_of(states, opt)[j] == hb[0]);
                    assert(head.0 != id);
                } else {
                    assert(barriers_of(states, opt)[j] == rest[j - 1]);
                }
            } else {
                assert(barriers_of(states, opt) == rest);
            }
        }
    }
}

impl Tracker {
    /// Emits exactly the barriers that move every resource of the optimized
    /// scope from its current device-tracked state into the scope's entry
    /// state, and records that each such resource ends in its exit state.
    pub fn insert_barriers(&mut self, opt: &Vec<(u64, u32, u32)>) -> (r: Vec<Barrier>)
        requires
            old(self).wf(),
            forall|i: int| 0 <= i < opt@.len() ==> old(self).is_tracked(opt@[i].0),
            forall|i: int, j: int| 0 <= i < j < opt@.len() ==> opt@[i].0 != opt@[j].0,
        ensures
            final(self).wf(),
            final(self).states@ == states_after(old(self).states@, opt@),
            r@ == barriers_of(old(self).states@, opt@),
            final(self).states@.dom() == old(self).states@.dom(),
    {
        let mut r: Vec<Barrier> = Vec::new();
        let mut i: usize = 0;
        while i < opt.len()
            invariant
                i <= opt@.len(),
                self.wf(),
                forall|k: int| 0 <= k < opt@.len() ==> old(self).is_tracked(opt@[k].0),
                forall|k: int, j: int| 0 <= k < j < opt@.len() ==> opt@[k].0 != opt@[j].0,
                self.states@ == states_after(old(self).states@, opt@.take(i as int)),
                self.states@.dom() == old(self).states@.dom(),
                forall|k: int|
                    i <= k < opt@.len() ==> self.states@[opt@[k].0] == old(self).states@[opt@[k].0],
                r@ == barriers_of(old(self).states@, opt@.take(i as int)),
            decreases opt@.len() - i,
        {
            let e = opt[i];
            let ghost pre = self.states@;
            proof {
                assert(opt@.take(i as int + 1) =~= opt@.take(i as int).push(e));
                lemma_barriers_of_push(old(self).states@, opt@.take(i as int), e);
                lemma_states_after_push(old(self).states@, opt@.take(i as int), e);
                assert(self.states@[e.0] == old(self).states@[e.0]);
            }
            match self.use_replace(e.0, e.1) {
                Some(t) => {
                    r.push(Barrier { id: e.0, from_state: t.0, to_state: t.1 });
                }
                None => {}
            }
            let s = self.states.get_mut(e.0);
            *s = e.2;
            proof {
                assert(self.states@ =~= states_after(old(self).states@, opt@.take(i as int + 1)));
                assert(self.states@.dom() =~= old(self).states@.dom());
                assert forall|k: int|
                    i + 1 <= k < opt@.len() implies self.states@[opt@[k].0] == old(
                    self,
                ).states@[opt@[k].0] by {
                    assert(opt@[k].0 != e.0);
                    assert(pre[opt@[k].0] == old(self).states@[opt@[k].0]);
                }
            }
            i = i + 1;
        }
        proof {
            assert(opt@.take(i as int) =~= opt@);
        }
        r
    }
}

} // verus!
